//! Duplex byte streams: the model that the engine's contracts speak of, an
//! in-memory stream, and an adapter for streams supplied from outside.

use vstd::prelude::*;

verus! {

/// The kinds of failure that streams and transfers report.
#[derive(Clone, Copy, Debug, PartialEq, Eq, Structural)]
pub enum ErrorKind {
    /// The operation was interrupted and may be tried again.
    Interrupted,
    /// The peer broke the framing rules.
    InvalidData,
    /// The peer cancelled the transfer.
    ConnectionAborted,
    /// The stream ended where more bytes were needed, or a length was wrong.
    UnexpectedEof,
    /// A packet was rejected too many times.
    BrokenPipe,
    /// The stream accepted no bytes of a write.
    WriteZero,
    /// The stream gave up waiting.
    TimedOut,
    /// Any other stream failure.
    Other,
}

/// A duplex byte stream that the protocol engine talks through.
///
/// Its state is modelled by what it has handed out to reads, what it has
/// accepted from writes, how many failures (other than interruptions) it has
/// reported and the kind of the last one, how often a read found the end of
/// the data, how often a write took nothing, how often it was flushed, and
/// its supply: a bound on the bytes and interruptions that it may still hand
/// out. A stream that hands out bytes or interruptions forever never lets a
/// transfer finish.
pub trait Port {
    /// Every byte that reads have handed out so far, in order.
    spec fn received(&self) -> Seq<u8>;

    /// Every byte that writes have accepted so far, in order.
    spec fn sent(&self) -> Seq<u8>;

    /// How many failures other than interruptions the stream has reported.
    spec fn faults(&self) -> nat;

    /// The kind of the last failure other than an interruption.
    spec fn last_failure(&self) -> ErrorKind;

    /// A bound on the bytes and interruptions that the stream may still hand
    /// out: each byte read and each interruption uses up one.
    spec fn supply(&self) -> nat;

    /// How many reads handed out nothing for a non-empty buffer: the end of
    /// the data.
    spec fn ends(&self) -> nat;

    /// How many writes took nothing of a non-empty buffer.
    spec fn refusals(&self) -> nat;

    /// How many flushes succeeded.
    spec fn flushes(&self) -> nat;

    /// Reads at most `buf.len()` bytes into the front of `buf`; `Ok(0)` for a
    /// non-empty `buf` means the end of the data.
    fn read(&mut self, buf: &mut [u8]) -> (r: Result<usize, ErrorKind>)
        ensures
            final(buf)@.len() == old(buf)@.len(),
            final(self).sent() == old(self).sent(),
            final(self).flushes() == old(self).flushes(),
            final(self).ends() == old(self).ends()
                + if r == Ok::<usize, ErrorKind>(0) && old(buf)@.len() > 0 { 1nat } else { 0nat },
            final(self).refusals() == old(self).refusals(),
            match r {
                Ok(n) => {
                    &&& n <= old(buf)@.len()
                    &&& final(self).received() == old(self).received() + final(buf)@.take(n as int)
                    &&& final(self).faults() == old(self).faults()
                    &&& final(self).supply() + n <= old(self).supply()
                },
                Err(ErrorKind::Interrupted) => {
                    &&& final(self).received() == old(self).received()
                    &&& final(self).faults() == old(self).faults()
                    &&& final(self).supply() < old(self).supply()
                },
                Err(k) => {
                    &&& final(self).last_failure() == k
                    &&& final(self).received() == old(self).received()
                    &&& final(self).faults() == old(self).faults() + 1
                    &&& final(self).supply() <= old(self).supply()
                },
            },
    ;

    /// Writes a front part of `buf` and says how long it was.
    fn write(&mut self, buf: &[u8]) -> (r: Result<usize, ErrorKind>)
        ensures
            final(self).received() == old(self).received(),
            final(self).flushes() == old(self).flushes(),
            final(self).refusals() == old(self).refusals()
                + if r == Ok::<usize, ErrorKind>(0) && buf@.len() > 0 { 1nat } else { 0nat },
            final(self).ends() == old(self).ends(),
            match r {
                Ok(n) => {
                    &&& n <= buf@.len()
                    &&& final(self).sent() == old(self).sent() + buf@.take(n as int)
                    &&& final(self).faults() == old(self).faults()
                    &&& final(self).supply() <= old(self).supply()
                },
                Err(ErrorKind::Interrupted) => {
                    &&& final(self).sent() == old(self).sent()
                    &&& final(self).faults() == old(self).faults()
                    &&& final(self).supply() < old(self).supply()
                },
                Err(k) => {
                    &&& final(self).last_failure() == k
                    &&& final(self).sent() == old(self).sent()
                    &&& final(self).faults() == old(self).faults() + 1
                    &&& final(self).supply() <= old(self).supply()
                },
            },
    ;

    /// Pushes buffered output to its destination.
    fn flush(&mut self) -> (r: Result<(), ErrorKind>)
        ensures
            final(self).received() == old(self).received(),
            final(self).sent() == old(self).sent(),
            final(self).ends() == old(self).ends(),
            final(self).refusals() == old(self).refusals(),
            final(self).flushes() == old(self).flushes() + if r is Ok { 1nat } else { 0nat },
            match r {
                Ok(_) => {
                    &&& final(self).faults() == old(self).faults()
                    &&& final(self).supply() <= old(self).supply()
                },
                Err(ErrorKind::Interrupted) => {
                    &&& final(self).faults() == old(self).faults()
                    &&& final(self).supply() < old(self).supply()
                },
                Err(k) => {
                    &&& final(self).last_failure() == k
                    &&& final(self).faults() == old(self).faults() + 1
                    &&& final(self).supply() <= old(self).supply()
                },
            },
    ;
}

/// `b` extends `a`: it starts with `a`.
pub open spec fn grows(a: Seq<u8>, b: Seq<u8>) -> bool {
    a.len() <= b.len() && b.take(a.len() as int) == a
}

/// Every sequence grows into itself.
pub proof fn lemma_grows_refl(s: Seq<u8>)
    ensures
        grows(s, s),
{
    assert(s.take(s.len() as int) =~= s);
}

/// The bytes read from a stream between its states `a` and `b`.
pub open spec fn read_between<P: Port>(a: P, b: P) -> Seq<u8> {
    b.received().skip(a.received().len() as int)
}

/// The bytes written to a stream between its states `a` and `b`.
pub open spec fn written_between<P: Port>(a: P, b: P) -> Seq<u8> {
    b.sent().skip(a.sent().len() as int)
}

/// `b` is a later state of the stream `a`, reached without more than one
/// failure and without handing out more than its supply.
pub open spec fn follows<P: Port>(a: P, b: P) -> bool {
    &&& grows(a.received(), b.received())
    &&& grows(a.sent(), b.sent())
    &&& b.supply() + b.received().len() <= a.supply() + a.received().len()
    &&& (b.faults() == a.faults() || b.faults() == a.faults() + 1)
    &&& a.ends() <= b.ends()
    &&& a.refusals() <= b.refusals()
}

/// Between the states `a` and `b` the stream reported no failure and took
/// every write.
pub open spec fn intact<P: Port>(a: P, b: P) -> bool {
    b.faults() == a.faults() && b.refusals() == a.refusals()
}

/// Between the states `a` and `b` the stream reported no failure, took every
/// write, and every read found data.
pub open spec fn quiet<P: Port>(a: P, b: P) -> bool {
    intact(a, b) && b.ends() == a.ends()
}

/// An in-memory stream: reads hand out a fixed input, in order, writes are
/// collected. It never fails. Once a read has found the input used up, the
/// stream counts as ended and every later read hands out nothing.
pub struct MemPort {
    input: Vec<u8>,
    pos: usize,
    output: Vec<u8>,
    ended: bool,
    ends: Ghost<nat>,
    flushes: Ghost<nat>,
}

impl MemPort {
    /// How much of the input reads have handed out.
    closed spec fn at(&self) -> int {
        if self.ended || self.pos >= self.input@.len() {
            self.input@.len() as int
        } else {
            self.pos as int
        }
    }

    /// The whole input.
    pub closed spec fn input(&self) -> Seq<u8> {
        self.input@
    }

    /// The bytes that reads have not handed out yet.
    pub closed spec fn pending(&self) -> Seq<u8> {
        self.input@.skip(self.at())
    }

    /// What the model of any `MemPort` says: what was read and what is
    /// pending make up the input, it has never failed nor refused a write,
    /// and it has found the end only once the input is used up.
    pub proof fn lemma_model(&self)
        ensures
            self.received() + self.pending() == self.input(),
            self.faults() == 0,
            self.refusals() == 0,
            self.ends() > 0 ==> self.pending().len() == 0,
    {
        assert(self.input@.take(self.at()) + self.input@.skip(self.at()) =~= self.input@);
    }

    /// A stream whose reads will hand out `input`.
    pub fn new(input: Vec<u8>) -> (p: MemPort)
        ensures
            p.input() == input@,
            p.pending() == input@,
            p.received() == Seq::<u8>::empty(),
            p.sent() == Seq::<u8>::empty(),
            p.faults() == 0,
            p.ends() == 0,
            p.refusals() == 0,
            p.flushes() == 0,
    {
        let p = MemPort { input, pos: 0, output: Vec::new(), ended: false, ends: Ghost(0), flushes: Ghost(0) };
        proof {
            assert(p.input@.skip(p.at()) =~= p.input@);
            assert(p.input@.take(p.at()) =~= Seq::<u8>::empty());
        }
        p
    }

    /// The bytes written to the stream so far.
    pub fn output(&self) -> (r: &Vec<u8>)
        ensures
            r@ == self.sent(),
    {
        &self.output
    }
}

impl Port for MemPort {
    closed spec fn received(&self) -> Seq<u8> {
        self.input@.take(self.at())
    }

    closed spec fn sent(&self) -> Seq<u8> {
        self.output@
    }

    closed spec fn faults(&self) -> nat {
        0
    }

    closed spec fn supply(&self) -> nat {
        (self.input@.len() - self.at()) as nat
    }

    closed spec fn refusals(&self) -> nat {
        0
    }

    closed spec fn last_failure(&self) -> ErrorKind {
        ErrorKind::Other
    }

    closed spec fn ends(&self) -> nat {
        if self.ended {
            self.ends@
        } else {
            0
        }
    }

    closed spec fn flushes(&self) -> nat {
        self.flushes@
    }

    fn read(&mut self, buf: &mut [u8]) -> (r: Result<usize, ErrorKind>)
        ensures
            final(self).input() == old(self).input(),
            r matches Ok(n) && n == if old(buf)@.len() < old(self).pending().len() {
                old(buf)@.len()
            } else {
                old(self).pending().len()
            },
            final(self).pending() == old(self).pending().skip(final(self).received().len() - old(self).received().len()),
    {
        let ghost start = self.at();
        if buf.len() == 0 {
            proof {
                assert(final(buf)@.take(0) =~= Seq::<u8>::empty());
                assert(self.input@.take(self.at()) + Seq::<u8>::empty() =~= self.input@.take(self.at()));
                assert(self.input@.skip(self.at()).skip(0) =~= self.input@.skip(self.at()));
            }
            return Ok(0);
        }
        if self.ended || self.pos >= self.input.len() {
            let ghost before = self.ends();
            self.ended = true;
            self.ends = Ghost(before + 1);
            proof {
                assert(final(buf)@.take(0) =~= Seq::<u8>::empty());
                assert(self.input@.take(self.at()) + Seq::<u8>::empty() =~= self.input@.take(self.at()));
                assert(self.input@.skip(self.at()).skip(0) =~= self.input@.skip(self.at()));
            }
            return Ok(0);
        }
        let mut n: usize = 0;
        while n < buf.len() && self.pos < self.input.len()
            invariant
                buf@.len() == old(buf)@.len(),
                !self.ended,
                start <= self.pos <= self.input@.len(),
                start == old(self).pos,
                self.pos == start + n,
                n <= buf@.len(),
                self.input@.take(self.pos as int) == self.input@.take(start) + buf@.take(n as int),
                self.output@ == old(self).output@,
                self.input@ == old(self).input@,
                self.ends == old(self).ends,
                self.flushes == old(self).flushes,
            decreases buf@.len() - n,
        {
            let b = self.input[self.pos];
            buf[n] = b;
            self.pos = self.pos + 1;
            n = n + 1;
            proof {
                assert(self.input@.take(self.pos as int) =~= self.input@.take(start) + buf@.take(n as int));
            }
        }
        proof {
            assert(self.input@.take(self.at()) =~= self.input@.take(self.pos as int));
            assert(self.input@.skip(self.at()) =~= self.input@.skip(start).skip(n as int));
        }
        Ok(n)
    }

    fn write(&mut self, buf: &[u8]) -> (r: Result<usize, ErrorKind>)
        ensures
            final(self).input() == old(self).input(),
            final(self).pending() == old(self).pending(),
            r == Ok::<usize, ErrorKind>(buf@.len() as usize),
    {
        let mut i: usize = 0;
        while i < buf.len()
            invariant
                i <= buf@.len(),
                self.output@ == old(self).output@ + buf@.take(i as int),
                self.input@ == old(self).input@,
                self.pos == old(self).pos,
                self.ended == old(self).ended,
                self.ends == old(self).ends,
                self.flushes == old(self).flushes,
            decreases buf@.len() - i,
        {
            self.output.push(buf[i]);
            i = i + 1;
            proof {
                assert(self.output@ =~= old(self).output@ + buf@.take(i as int));
            }
        }
        Ok(i)
    }

    fn flush(&mut self) -> (r: Result<(), ErrorKind>)
        ensures
            final(self).input() == old(self).input(),
            final(self).pending() == old(self).pending(),
            r == Ok::<(), ErrorKind>(()),
    {
        self.flushes = Ghost(self.flushes@ + 1);
        Ok(())
    }
}

/// A duplex byte stream as a user supplies it: a serial line, a socket, a
/// pipe. Nothing is assumed of it; `Channel` checks what it reports.
pub trait ByteStream {
    /// Reads at most `buf.len()` bytes into the front of `buf` and says how
    /// many; `Ok(0)` for a non-empty `buf` means the end of the data.
    fn read_bytes(&mut self, buf: &mut [u8]) -> Result<usize, ErrorKind>;

    /// Writes a front part of `buf` and says how long it was.
    fn write_bytes(&mut self, buf: &[u8]) -> Result<usize, ErrorKind>;

    /// Pushes buffered output to its destination.
    fn flush_bytes(&mut self) -> Result<(), ErrorKind>;
}

/// A `Port` over a `ByteStream`: it keeps the record that the model needs.
/// A count that the stream reports beyond the buffer it was given is a
/// failure (`Other`). The channel hands out at most `u64::MAX` bytes and
/// interruptions in all; a call that would go past that fails with `Other`.
pub struct Channel<T> {
    inner: T,
    left: u64,
    received: Ghost<Seq<u8>>,
    sent: Ghost<Seq<u8>>,
    faults: Ghost<nat>,
    last: Ghost<ErrorKind>,
    ends: Ghost<nat>,
    refusals: Ghost<nat>,
    flushes: Ghost<nat>,
}

impl<T: ByteStream> Channel<T> {
    /// A channel over `inner`, with nothing read or written yet.
    pub fn new(inner: T) -> (c: Channel<T>)
        ensures
            c.received() == Seq::<u8>::empty(),
            c.sent() == Seq::<u8>::empty(),
            c.faults() == 0,
            c.ends() == 0,
            c.refusals() == 0,
            c.flushes() == 0,
    {
        Channel {
            inner,
            left: u64::MAX,
            received: Ghost(Seq::empty()),
            sent: Ghost(Seq::empty()),
            faults: Ghost(0),
            last: Ghost(ErrorKind::Other),
            ends: Ghost(0),
            refusals: Ghost(0),
            flushes: Ghost(0),
        }
    }

    /// The stream, borrowed.
    pub fn get_ref(&self) -> &T {
        &self.inner
    }

    /// The stream, given back.
    pub fn into_inner(self) -> T {
        self.inner
    }
}

impl<T: ByteStream> Port for Channel<T> {
    closed spec fn received(&self) -> Seq<u8> {
        self.received@
    }

    closed spec fn sent(&self) -> Seq<u8> {
        self.sent@
    }

    closed spec fn faults(&self) -> nat {
        self.faults@
    }

    closed spec fn supply(&self) -> nat {
        self.left as nat
    }

    closed spec fn ends(&self) -> nat {
        self.ends@
    }

    closed spec fn last_failure(&self) -> ErrorKind {
        self.last@
    }

    closed spec fn refusals(&self) -> nat {
        self.refusals@
    }

    closed spec fn flushes(&self) -> nat {
        self.flushes@
    }

    fn read(&mut self, buf: &mut [u8]) -> (r: Result<usize, ErrorKind>) {
        let want = buf.len();
        let mut tmp: Vec<u8> = vec![0u8; want];
        match self.inner.read_bytes(tmp.as_mut_slice()) {
            Ok(n) => {
                if n > want || n > tmp.len() || n as u64 > self.left {
                    self.faults = Ghost(self.faults@ + 1);
                    self.last = Ghost(ErrorKind::Other);
                    return Err(ErrorKind::Other);
                }
                let mut i: usize = 0;
                while i < n
                    invariant
                        i <= n <= want,
                        n <= tmp@.len(),
                        buf@.len() == want,
                        want == old(buf)@.len(),
                        buf@.take(i as int) == tmp@.take(i as int),
                    decreases n - i,
                {
                    buf[i] = tmp[i];
                    i = i + 1;
                    proof {
                        assert(buf@.take(i as int) =~= tmp@.take(i as int));
                    }
                }
                self.left = self.left - n as u64;
                self.received = Ghost(self.received@ + buf@.take(n as int));
                if n == 0 && want > 0 {
                    self.ends = Ghost(self.ends@ + 1);
                }
                Ok(n)
            },
            Err(ErrorKind::Interrupted) => {
                if self.left == 0 {
                    self.faults = Ghost(self.faults@ + 1);
                    self.last = Ghost(ErrorKind::Other);
                    return Err(ErrorKind::Other);
                }
                self.left = self.left - 1;
                Err(ErrorKind::Interrupted)
            },
            Err(k) => {
                self.faults = Ghost(self.faults@ + 1);
                self.last = Ghost(k);
                Err(k)
            },
        }
    }

    fn write(&mut self, buf: &[u8]) -> (r: Result<usize, ErrorKind>) {
        match self.inner.write_bytes(buf) {
            Ok(n) => {
                if n > buf.len() {
                    self.faults = Ghost(self.faults@ + 1);
                    self.last = Ghost(ErrorKind::Other);
                    return Err(ErrorKind::Other);
                }
                self.sent = Ghost(self.sent@ + buf@.take(n as int));
                if n == 0 && buf.len() > 0 {
                    self.refusals = Ghost(self.refusals@ + 1);
                }
                Ok(n)
            },
            Err(ErrorKind::Interrupted) => {
                if self.left == 0 {
                    self.faults = Ghost(self.faults@ + 1);
                    self.last = Ghost(ErrorKind::Other);
                    return Err(ErrorKind::Other);
                }
                self.left = self.left - 1;
                Err(ErrorKind::Interrupted)
            },
            Err(k) => {
                self.faults = Ghost(self.faults@ + 1);
                self.last = Ghost(k);
                Err(k)
            },
        }
    }

    fn flush(&mut self) -> (r: Result<(), ErrorKind>) {
        match self.inner.flush_bytes() {
            Ok(()) => {
                self.flushes = Ghost(self.flushes@ + 1);
                Ok(())
            },
            Err(ErrorKind::Interrupted) => {
                if self.left == 0 {
                    self.faults = Ghost(self.faults@ + 1);
                    self.last = Ghost(ErrorKind::Other);
                    return Err(ErrorKind::Other);
                }
                self.left = self.left - 1;
                Err(ErrorKind::Interrupted)
            },
            Err(k) => {
                self.faults = Ghost(self.faults@ + 1);
                self.last = Ghost(k);
                Err(k)
            },
        }
    }
}

} // verus!
