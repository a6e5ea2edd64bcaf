//! The protocol engine: one packet at a time, and whole transfers.

use vstd::prelude::*;
use crate::io_ext::{ReadExt, WriteExt};
use crate::port::{follows, grows, intact, lemma_grows_refl, quiet, read_between, written_between, ErrorKind, Port};
use crate::progress::{Progress, ProgressFn, Silent};
use crate::protocol::{
    chunk_len, complement, frame, join, lemma_receive_advance, lemma_receive_unfold,
    lemma_receive_whole_packets, lemma_send_advance, lemma_send_unfold, next_seq, packet_checksum,
    padded, receive_body, receive_exchange, receive_session, refusal, refusal_bytes, send_body,
    send_exchange, send_session, Exchange, ACK, ATTEMPTS, CAN, EOT, NAK, PACKET_LEN, SOH,
};

verus! {

/// The XMODEM protocol engine, over the stream `R`, reporting progress to `S`.
pub struct Xmodem<R, S> {
    packet: u8,
    inner: R,
    started: bool,
    progress: S,
    events: Ghost<Seq<Progress>>,
}

/// `follows` is transitive.
proof fn lemma_follows_trans<P: Port>(a: P, b: P, c: P)
    requires
        follows(a, b),
        follows(b, c),
        c.faults() == a.faults() || c.faults() == a.faults() + 1,
    ensures
        follows(a, c),
{
    assert(c.received().take(a.received().len() as int) =~= a.received());
    assert(c.sent().take(a.sent().len() as int) =~= a.sent());
}

/// Two stretches of a stream's life, the first without a failure, make one.
proof fn lemma_chain<P: Port>(a: P, b: P, c: P)
    requires
        follows(a, b),
        follows(b, c),
        b.faults() == a.faults(),
    ensures
        follows(a, c),
        read_between(a, c) == read_between(a, b) + read_between(b, c),
        written_between(a, c) == written_between(a, b) + written_between(b, c),
{
    assert(c.received().take(a.received().len() as int) =~= a.received());
    assert(c.sent().take(a.sent().len() as int) =~= a.sent());
    assert(read_between(a, c) =~= read_between(a, b) + read_between(b, c));
    assert(written_between(a, c) =~= written_between(a, b) + written_between(b, c));
}

/// A stream follows itself, with nothing read or written in between.
proof fn lemma_still<P: Port>(a: P)
    ensures
        follows(a, a),
        read_between(a, a) == Seq::<u8>::empty(),
        written_between(a, a) == Seq::<u8>::empty(),
{
    lemma_grows_refl(a.received());
    lemma_grows_refl(a.sent());
    assert(read_between(a, a) =~= Seq::<u8>::empty());
    assert(written_between(a, a) =~= Seq::<u8>::empty());
}

/// Fills `packet` with the next chunk of `data` from `off` on, padded with
/// zeros, and returns the chunk's length.
fn fill_chunk(packet: &mut Vec<u8>, data: &[u8], off: usize) -> (n: usize)
    requires
        old(packet)@.len() == PACKET_LEN,
        off < data@.len(),
    ensures
        n == chunk_len(data@.skip(off as int)),
        1 <= n,
        off + n <= data@.len(),
        final(packet)@ == padded(data@.skip(off as int).take(n as int)),
{
    let left: usize = data.len() - off;
    let n: usize = if left < PACKET_LEN { left } else { PACKET_LEN };
    let mut i: usize = 0;
    while i < PACKET_LEN
        invariant
            off + n <= data@.len(),
            data@.len() <= usize::MAX,
            n <= PACKET_LEN,
            i <= PACKET_LEN,
            packet@.len() == PACKET_LEN,
            forall|j: int| 0 <= j < i ==> packet@[j] == if j < n { data@[off + j] } else { 0u8 },
        decreases PACKET_LEN - i,
    {
        if i < n {
            packet[i] = data[off + i];
        } else {
            packet[i] = 0;
        }
        i = i + 1;
    }
    proof {
        assert(packet@ =~= padded(data@.skip(off as int).take(n as int)));
    }
    n
}

/// Appends the whole of `packet` to `into`.
fn append_packet(into: &mut Vec<u8>, packet: &Vec<u8>)
    ensures
        final(into)@ == old(into)@ + packet@,
{
    let mut i: usize = 0;
    while i < packet.len()
        invariant
            i <= packet@.len(),
            into@ == old(into)@ + packet@.take(i as int),
        decreases packet@.len() - i,
    {
        into.push(packet[i]);
        i = i + 1;
        proof {
            assert(into@ =~= old(into)@ + packet@.take(i as int));
        }
    }
    proof {
        assert(packet@.take(i as int) =~= packet@);
    }
}

impl<R: Port> Xmodem<R, Silent> {
    /// An engine over `inner` that reports no progress. It can send or
    /// receive; its sequence number starts at 1.
    pub fn new(inner: R) -> (x: Self)
        ensures
            x.sequence() == 1,
            !x.handshaken(),
            x.port() == inner,
            x.events() == Seq::<Progress>::empty(),
    {
        Xmodem { packet: 1, started: false, inner, progress: Silent, events: Ghost(Seq::empty()) }
    }

    /// Sends `data` through `to`, the last packet padded with zeros, and
    /// returns the length of `data` (without padding), with the stream.
    /// Read against the bytes read from the stream, the transfer is the one
    /// that `send_session` describes.
    pub fn transmit(data: &[u8], to: R) -> (r: (Result<usize, ErrorKind>, R))
        ensures
            follows(to, r.1),
            r.1.faults() != to.faults() || r.1.ends() != to.ends() || r.1.refusals() != to.refusals() ==> r.0 is Err,
            r.1.faults() != to.faults() ==> (r.0 matches Err(k) && k == r.1.last_failure()),
            intact(to, r.1) ==> {
                let rd = read_between(to, r.1);
                let e = send_session(1, false, data@, ATTEMPTS as nat, rd);
                &&& e.result is Ok ==> r.0 == Ok::<usize, ErrorKind>(data@.len() as usize)
                &&& e.result matches Err(k) ==> r.0 == Err::<usize, ErrorKind>(k)
                &&& written_between(to, r.1) == e.written
                &&& rd.len() == e.consumed
            },
            quiet(to, r.1) ==> !(r.0 matches Err(ErrorKind::UnexpectedEof)),
    {
        Xmodem::transmit_with_progress(data, to, Silent)
    }

    /// Receives a whole transfer from `from`, appends every packet to
    /// `into`, and returns the number of bytes appended, a multiple of 128,
    /// with the stream. Read against the bytes read from the stream, the
    /// transfer is the one that `receive_session` describes.
    pub fn receive(from: R, into: &mut Vec<u8>) -> (r: (Result<usize, ErrorKind>, R))
        ensures
            follows(from, r.1),
            grows(old(into)@, final(into)@),
            r.1.faults() != from.faults() || r.1.ends() != from.ends() || r.1.refusals() != from.refusals() ==> r.0 is Err,
            r.1.faults() != from.faults() ==> (r.0 matches Err(k) && k == r.1.last_failure()),
            r.0 matches Ok(n) ==> n % 128 == 0,
            intact(from, r.1) ==> {
                let rd = read_between(from, r.1);
                let e = receive_session(1, false, ATTEMPTS as nat, rd);
                &&& e.result is Ok ==> r.0 == Ok::<usize, ErrorKind>(e.payload.len() as usize)
                &&& e.result matches Err(k) ==> r.0 == Err::<usize, ErrorKind>(k)
                &&& written_between(from, r.1) == e.written
                &&& rd.len() == e.consumed
                &&& final(into)@ == old(into)@ + e.payload
            },
            quiet(from, r.1) ==> !(r.0 matches Err(ErrorKind::UnexpectedEof)),
    {
        Xmodem::receive_with_progress(from, into, Silent)
    }
}

impl<R: Port, S: ProgressFn> Xmodem<R, S> {
    /// The sequence number of the next packet.
    pub closed spec fn sequence(&self) -> u8 {
        self.packet
    }

    /// Whether the opening handshake has taken place.
    pub closed spec fn handshaken(&self) -> bool {
        self.started
    }

    /// The stream.
    pub closed spec fn port(&self) -> R {
        self.inner
    }

    /// The progress callback.
    pub closed spec fn progress(&self) -> S {
        self.progress
    }

    /// The progress events reported so far, in order.
    pub closed spec fn events(&self) -> Seq<Progress> {
        self.events@
    }

    /// Reports `p` to the progress callback.
    fn notify(&mut self, p: Progress)
        ensures
            final(self).packet == old(self).packet,
            final(self).started == old(self).started,
            final(self).inner == old(self).inner,
            final(self).events@ == old(self).events@ + seq![p],
    {
        self.progress.report(p);
        self.events = Ghost(self.events@ + seq![p]);
    }

    /// An engine over `inner` that reports progress to `f`. It can send or
    /// receive; its sequence number starts at 1.
    pub fn new_with_progress(inner: R, f: S) -> (x: Self)
        ensures
            x.sequence() == 1,
            !x.handshaken(),
            x.port() == inner,
            x.events() == Seq::<Progress>::empty(),
            x.progress() == f,
    {
        Xmodem { packet: 1, started: false, inner, progress: f, events: Ghost(Seq::empty()) }
    }

    /// Sends `data` through `to`, the last packet padded with zeros,
    /// reporting progress to `f`, and returns the length of `data` (without
    /// padding), with the stream.
    pub fn transmit_with_progress(data: &[u8], to: R, f: S) -> (r: (Result<usize, ErrorKind>, R))
        ensures
            follows(to, r.1),
            r.1.faults() != to.faults() || r.1.ends() != to.ends() || r.1.refusals() != to.refusals() ==> r.0 is Err,
            r.1.faults() != to.faults() ==> (r.0 matches Err(k) && k == r.1.last_failure()),
            intact(to, r.1) ==> {
                let rd = read_between(to, r.1);
                let e = send_session(1, false, data@, ATTEMPTS as nat, rd);
                &&& e.result is Ok ==> r.0 == Ok::<usize, ErrorKind>(data@.len() as usize)
                &&& e.result matches Err(k) ==> r.0 == Err::<usize, ErrorKind>(k)
                &&& written_between(to, r.1) == e.written
                &&& rd.len() == e.consumed
            },
            quiet(to, r.1) ==> !(r.0 matches Err(ErrorKind::UnexpectedEof)),
    {
        let mut transmitter = Xmodem::new_with_progress(to, f);
        let res = transmitter.send_all(data);
        (res, transmitter.into_inner())
    }

    /// Receives a whole transfer from `from`, reporting progress to `f`,
    /// appends every packet to `into`, and returns the number of bytes
    /// appended, a multiple of 128, with the stream.
    pub fn receive_with_progress(from: R, into: &mut Vec<u8>, f: S) -> (r: (Result<usize, ErrorKind>, R))
        ensures
            follows(from, r.1),
            grows(old(into)@, final(into)@),
            r.1.faults() != from.faults() || r.1.ends() != from.ends() || r.1.refusals() != from.refusals() ==> r.0 is Err,
            r.1.faults() != from.faults() ==> (r.0 matches Err(k) && k == r.1.last_failure()),
            r.0 matches Ok(n) ==> n % 128 == 0,
            intact(from, r.1) ==> {
                let rd = read_between(from, r.1);
                let e = receive_session(1, false, ATTEMPTS as nat, rd);
                &&& e.result is Ok ==> r.0 == Ok::<usize, ErrorKind>(e.payload.len() as usize)
                &&& e.result matches Err(k) ==> r.0 == Err::<usize, ErrorKind>(k)
                &&& written_between(from, r.1) == e.written
                &&& rd.len() == e.consumed
                &&& final(into)@ == old(into)@ + e.payload
            },
            quiet(from, r.1) ==> !(r.0 matches Err(ErrorKind::UnexpectedEof)),
    {
        let mut receiver = Xmodem::new_with_progress(from, f);
        let ghost at0 = receiver.inner;
        let r = receiver.receive_all(into);
        // The vector's length fits in a usize: the call states it.
        let _len = into.len();
        proof {
            lemma_receive_whole_packets(1, false, ATTEMPTS as nat, read_between(at0, receiver.inner));
        }
        (r, receiver.into_inner())
    }

    /// Flushes the stream.
    pub fn flush(&mut self) -> (r: Result<(), ErrorKind>)
        ensures
            final(self).sequence() == old(self).sequence(),
            final(self).handshaken() == old(self).handshaken(),
            final(self).port().received() == old(self).port().received(),
            final(self).port().sent() == old(self).port().sent(),
            final(self).port().ends() == old(self).port().ends(),
            final(self).port().refusals() == old(self).port().refusals(),
            final(self).port().flushes() == old(self).port().flushes() + if r is Ok { 1nat } else { 0nat },
            final(self).events() == old(self).events(),
            match r {
                Ok(_) => final(self).port().faults() == old(self).port().faults(),
                Err(ErrorKind::Interrupted) => final(self).port().faults() == old(self).port().faults(),
                Err(_) => final(self).port().faults() == old(self).port().faults() + 1,
            },
    {
        self.inner.flush()
    }

    /// The stream, borrowed.
    pub fn get_ref(&self) -> (r: &R)
        ensures
            *r == self.port(),
    {
        &self.inner
    }

    /// The stream, given back.
    pub fn into_inner(self) -> (r: R)
        ensures
            r == self.port(),
    {
        self.inner
    }

    /// Reads one byte. With `abort_on_can`, a cancel byte fails the read
    /// with `ConnectionAborted`; the end of the stream fails it with
    /// `UnexpectedEof`.
    fn read_byte(&mut self, abort_on_can: bool) -> (r: Result<u8, ErrorKind>)
        ensures
            r is Err ==> final(self).inner.received() == old(self).inner.received()
                || (abort_on_can && final(self).inner.received() == old(self).inner.received().push(CAN)),
            r matches Ok(b) ==> final(self).inner.received() == old(self).inner.received().push(b),
            final(self).events@ == old(self).events@,
            !(r matches Err(ErrorKind::Interrupted)),
            final(self).packet == old(self).packet,
            final(self).started == old(self).started,
            follows(old(self).inner, final(self).inner),
            final(self).inner.sent() == old(self).inner.sent(),
            final(self).inner.faults() != old(self).inner.faults() ==> (r matches Err(k) && k == final(self).inner.last_failure()),
            final(self).inner.ends() <= old(self).inner.ends() + 1,
            final(self).inner.refusals() == old(self).inner.refusals(),
            final(self).inner.faults() == old(self).inner.faults() ==> match r {
                Ok(b) => {
                    &&& final(self).inner.received() == old(self).inner.received().push(b)
                    &&& !(abort_on_can && b == CAN)
                    &&& final(self).inner.ends() == old(self).inner.ends()
                },
                Err(k) => {
                    ||| k == ErrorKind::UnexpectedEof && final(self).inner.received() == old(self).inner.received()
                        && final(self).inner.ends() == old(self).inner.ends() + 1
                    ||| k == ErrorKind::ConnectionAborted && abort_on_can
                        && final(self).inner.received() == old(self).inner.received().push(CAN)
                        && final(self).inner.ends() == old(self).inner.ends()
                },
            },
    {
        let mut buf: Vec<u8> = vec![0u8];
        let got = self.inner.read_max(buf.as_mut_slice());
        proof {
            lemma_grows_refl(self.inner.sent());
        }
        match got {
            Ok(n) => {
                if n == 0 {
                    proof {
                        assert(self.inner.received() =~= old(self).inner.received());
                    }
                    return Err(ErrorKind::UnexpectedEof);
                }
                let b = buf[0];
                proof {
                    assert(self.inner.received() =~= old(self).inner.received().push(b));
                }
                if abort_on_can && b == CAN {
                    return Err(ErrorKind::ConnectionAborted);
                }
                Ok(b)
            },
            Err(k) => Err(k),
        }
    }

    /// Writes one byte and flushes; a stream that accepts nothing fails the
    /// write with `WriteZero`.
    fn write_byte(&mut self, byte: u8) -> (r: Result<(), ErrorKind>)
        ensures
            final(self).events@ == old(self).events@,
            !(r matches Err(ErrorKind::Interrupted)),
            final(self).packet == old(self).packet,
            final(self).started == old(self).started,
            follows(old(self).inner, final(self).inner),
            final(self).inner.received() == old(self).inner.received(),
            final(self).inner.faults() != old(self).inner.faults() ==> (r matches Err(k) && k == final(self).inner.last_failure()),
            final(self).inner.refusals() <= old(self).inner.refusals() + 1,
            final(self).inner.ends() == old(self).inner.ends(),
            final(self).inner.faults() == old(self).inner.faults() ==> match r {
                Ok(_) => {
                    &&& final(self).inner.sent() == old(self).inner.sent().push(byte)
                    &&& final(self).inner.refusals() == old(self).inner.refusals()
                },
                Err(k) => {
                    &&& k == ErrorKind::WriteZero
                    &&& final(self).inner.sent() == old(self).inner.sent()
                    &&& final(self).inner.refusals() == old(self).inner.refusals() + 1
                },
            },
    {
        let buf: Vec<u8> = vec![byte];
        let put = self.inner.write_max(buf.as_slice());
        proof {
            lemma_grows_refl(self.inner.received());
        }
        match put {
            Ok(n) => {
                if n == 0 {
                    proof {
                        assert(self.inner.sent() =~= old(self).inner.sent());
                    }
                    return Err(ErrorKind::WriteZero);
                }
                proof {
                    assert(buf@.take(1) =~= seq![byte]);
                }
                Ok(())
            },
            Err(k) => Err(k),
        }
    }

    /// Reads one byte and checks that it is `byte`. On another byte, writes
    /// a cancel byte unless the peer sent one, and fails with
    /// `refusal` of the byte read.
    fn expect_byte_or_cancel(&mut self, byte: u8) -> (r: Result<(), ErrorKind>)
        ensures
            r is Ok ==> read_between(old(self).inner, final(self).inner) == seq![byte],
            r is Err ==> read_between(old(self).inner, final(self).inner).len() == 0
                || (read_between(old(self).inner, final(self).inner).len() == 1
                    && read_between(old(self).inner, final(self).inner)[0] != byte),
            final(self).events@ == old(self).events@,
            !(r matches Err(ErrorKind::Interrupted)),
            final(self).packet == old(self).packet,
            final(self).started == old(self).started,
            follows(old(self).inner, final(self).inner),
            final(self).inner.faults() != old(self).inner.faults() ==> (r matches Err(k) && k == final(self).inner.last_failure()),
            final(self).inner.ends() != old(self).inner.ends() || final(self).inner.refusals() != old(self).inner.refusals() ==> r is Err,
            intact(old(self).inner, final(self).inner) ==> {
                let rd = read_between(old(self).inner, final(self).inner);
                let wr = written_between(old(self).inner, final(self).inner);
                match r {
                    Ok(_) => rd == seq![byte] && wr == Seq::<u8>::empty(),
                    Err(k) => {
                        ||| k == ErrorKind::UnexpectedEof && rd == Seq::<u8>::empty() && wr == Seq::<u8>::empty()
                        ||| rd.len() == 1 && rd[0] != byte && k == refusal(rd[0]) && wr == refusal_bytes(rd[0])
                    },
                }
            },
            quiet(old(self).inner, final(self).inner) ==> !(r matches Err(ErrorKind::UnexpectedEof)),
    {
        let ghost at0 = self.inner;
        let got = self.read_byte(byte != CAN);
        proof {
            assert(self.inner.sent().skip(at0.sent().len() as int) =~= Seq::<u8>::empty());
            assert(self.inner.received().skip(at0.received().len() as int) =~= self.inner.received().subrange(at0.received().len() as int, self.inner.received().len() as int));
        }
        match got {
            Ok(b) => {
                if b == byte {
                    return Ok(());
                }
                let ghost at1 = self.inner;
                let w = self.write_byte(CAN);
                proof {
                    lemma_follows_trans(at0, at1, self.inner);
                    assert(self.inner.received().skip(at0.received().len() as int) =~= seq![b]);
                    if intact(at0, self.inner) {
                        if w is Ok {
                            assert(self.inner.sent().skip(at0.sent().len() as int) =~= seq![CAN]);
                        }
                    }
                }
                match w {
                    Ok(()) => Err(ErrorKind::InvalidData),
                    Err(k) => Err(k),
                }
            },
            Err(k) => {
                proof {
                    if intact(at0, self.inner) {
                        if k == ErrorKind::ConnectionAborted {
                            assert(self.inner.received().skip(at0.received().len() as int) =~= seq![CAN]);
                        } else {
                            assert(self.inner.received().skip(at0.received().len() as int) =~= Seq::<u8>::empty());
                        }
                    }
                }
                Err(k)
            },
        }
    }

    /// The receiver's end of transmission, after the first EOT: answers
    /// NAK, expects EOT again, and acknowledges it.
    fn handle_receive_eot(&mut self) -> (r: Result<(), ErrorKind>)
        ensures
            final(self).events@ == old(self).events@,
            !(r matches Err(ErrorKind::Interrupted)),
            final(self).packet == old(self).packet,
            final(self).started == old(self).started,
            follows(old(self).inner, final(self).inner),
            final(self).inner.faults() != old(self).inner.faults() ==> (r matches Err(k) && k == final(self).inner.last_failure()),
            final(self).inner.ends() != old(self).inner.ends() || final(self).inner.refusals() != old(self).inner.refusals() ==> r is Err,
            intact(old(self).inner, final(self).inner) ==> {
                let rd = read_between(old(self).inner, final(self).inner);
                let e = receive_body(old(self).packet, seq![EOT] + rd);
                &&& r is Ok <==> e.result is Ok
                &&& r is Ok ==> e.result == Ok::<usize, ErrorKind>(0)
                &&& r matches Err(k) ==> e.result == Err::<usize, ErrorKind>(k)
                &&& written_between(old(self).inner, final(self).inner) == e.written
                &&& rd.len() + 1 == e.consumed
            },
            quiet(old(self).inner, final(self).inner) ==> !(r matches Err(ErrorKind::UnexpectedEof)),
    {
        let ghost at0 = self.inner;
        let r1 = self.write_byte(NAK);
        let ghost at1 = self.inner;
        proof {
            assert(read_between(at0, at1) =~= Seq::<u8>::empty());
        }
        if let Err(k) = r1 {
            proof {
                if intact(at0, self.inner) {
                    assert(written_between(at0, at1) =~= Seq::<u8>::empty());
                    assert(seq![EOT] + read_between(at0, at1) =~= seq![EOT]);
                }
            }
            return Err(k);
        }
        proof {
            assert(written_between(at0, at1) =~= seq![NAK]);
        }
        let r2 = self.expect_byte_or_cancel(EOT);
        let ghost at2 = self.inner;
        proof {
            lemma_chain(at0, at1, at2);
        }
        if let Err(k) = r2 {
            proof {
                if intact(at0, self.inner) {
                    let rd = read_between(at0, at2);
                    if k == ErrorKind::UnexpectedEof && rd.len() == 0 {
                        assert(seq![EOT] + rd =~= seq![EOT]);
                    } else {
                        assert((seq![EOT] + rd)[1] == rd[0]);
                    }
                }
            }
            return Err(k);
        }
        let r3 = self.write_byte(ACK);
        proof {
            lemma_chain(at0, at2, self.inner);
            assert(read_between(at2, self.inner) =~= Seq::<u8>::empty());
        }
        if let Err(k) = r3 {
            return Err(k);
        }
        proof {
            assert(written_between(at2, self.inner) =~= seq![ACK]);
            assert(read_between(at0, self.inner) =~= seq![EOT]);
            assert(seq![EOT] + read_between(at0, self.inner) =~= seq![EOT, EOT]);
            assert(written_between(at0, self.inner) =~= seq![NAK, ACK]);
        }
        Ok(())
    }

    /// The rest of a data packet, after its start marker: sequence number,
    /// complement, payload and checksum, answered with ACK (and the payload
    /// copied into `buf`) or NAK.
    #[verifier::rlimit(40)]
    fn receive_frame(&mut self, buf: &mut [u8]) -> (r: Result<usize, ErrorKind>)
        requires
            old(buf)@.len() == PACKET_LEN,
        ensures
            r != Ok::<usize, ErrorKind>(128) ==> final(buf)@ == old(buf)@,
            final(self).events@ == old(self).events@ + if r == Ok::<usize, ErrorKind>(128) {
                seq![Progress::Packet(next_seq(old(self).packet))]
            } else {
                Seq::<Progress>::empty()
            },
            final(buf)@.len() == PACKET_LEN,
            final(self).started == old(self).started,
            follows(old(self).inner, final(self).inner),
            final(self).inner.faults() != old(self).inner.faults() ==> (r matches Err(k) && k == final(self).inner.last_failure() && k != ErrorKind::Interrupted),
            final(self).inner.ends() != old(self).inner.ends() || final(self).inner.refusals() != old(self).inner.refusals() ==> r is Err && !(r matches Err(ErrorKind::Interrupted)),
            intact(old(self).inner, final(self).inner) ==> {
                let rd = read_between(old(self).inner, final(self).inner);
                let e = receive_body(old(self).packet, seq![SOH] + rd);
                &&& r == e.result
                &&& written_between(old(self).inner, final(self).inner) == e.written
                &&& rd.len() + 1 == e.consumed
                &&& (r == Ok::<usize, ErrorKind>(128) ==> final(buf)@ == e.payload)
            },
            quiet(old(self).inner, final(self).inner) ==> !(r matches Err(ErrorKind::UnexpectedEof)),
            final(self).packet == if r == Ok::<usize, ErrorKind>(128) {
                next_seq(old(self).packet)
            } else {
                old(self).packet
            },
    {
        let ghost at0 = self.inner;
        let seq = self.packet;
        let r1 = self.expect_byte_or_cancel(seq);
        let ghost at1 = self.inner;
        if let Err(k) = r1 {
            proof {
                if intact(at0, self.inner) {
                    let rd = read_between(at0, at1);
                    if rd.len() == 0 {
                        assert(seq![SOH] + rd =~= seq![SOH]);
                    } else {
                        assert((seq![SOH] + rd)[1] == rd[0]);
                    }
                }
            }
            return Err(k);
        }
        let r2 = self.expect_byte_or_cancel(255 - seq);
        let ghost at2 = self.inner;
        proof {
            lemma_chain(at0, at1, at2);
        }
        if let Err(k) = r2 {
            proof {
                if intact(at0, self.inner) {
                    let rd = read_between(at0, at2);
                    if read_between(at1, at2).len() == 0 {
                        assert(seq![SOH] + rd =~= seq![SOH, seq]);
                    } else {
                        assert(seq![SOH] + rd =~= seq![SOH, seq, read_between(at1, at2)[0]]);
                    }
                }
            }
            return Err(k);
        }
        proof {
            assert(read_between(at0, at2) =~= seq![seq, complement(seq)]);
            assert(written_between(at0, at2) =~= Seq::<u8>::empty());
        }
        let mut payload: Vec<u8> = vec![0u8; PACKET_LEN];
        let got = self.inner.read_max(payload.as_mut_slice());
        let ghost at3 = self.inner;
        proof {
            lemma_grows_refl(at3.sent());
            lemma_chain(at0, at2, at3);
            assert(written_between(at2, at3) =~= Seq::<u8>::empty());
        }
        let n = match got {
            Ok(n) => n,
            Err(k) => {
                return Err(k);
            },
        };
        proof {
            assert(read_between(at2, at3) =~= payload@.take(n as int));
        }
        if n != PACKET_LEN {
            proof {
                assert(seq![SOH] + read_between(at0, at3) =~= seq![SOH, seq, complement(seq)] + payload@.take(n as int));
            }
            return Err(ErrorKind::UnexpectedEof);
        }
        let sum = packet_checksum(payload.as_slice());
        let got = self.read_byte(false);
        let ghost at4 = self.inner;
        proof {
            lemma_chain(at0, at3, at4);
            assert(payload@.take(128) =~= payload@);
        }
        let c = match got {
            Ok(c) => c,
            Err(k) => {
                proof {
                    if intact(at0, self.inner) {
                        assert(read_between(at3, at4) =~= Seq::<u8>::empty());
                        assert(written_between(at3, at4) =~= Seq::<u8>::empty());
                        assert(seq![SOH] + read_between(at0, at4) =~= seq![SOH, seq, complement(seq)] + payload@);
                    }
                }
                return Err(k);
            },
        };
        let ghost full = seq![SOH] + read_between(at0, at4);
        proof {
            assert(read_between(at3, at4) =~= seq![c]);
            assert(written_between(at3, at4) =~= Seq::<u8>::empty());
            assert(full =~= seq![SOH, seq, complement(seq)] + payload@ + seq![c]);
            assert(full.subrange(3, 131) =~= payload@);
            assert(full[131] == c);
            assert(full.len() == 132);
        }
        if c == sum {
            let r3 = self.write_byte(ACK);
            proof {
                lemma_chain(at0, at4, self.inner);
                assert(read_between(at4, self.inner) =~= Seq::<u8>::empty());
                assert(read_between(at0, self.inner) =~= read_between(at0, at4));
            }
            if let Err(k) = r3 {
                return Err(k);
            }
            proof {
                assert(written_between(at4, self.inner) =~= seq![ACK]);
            }
            let mut i: usize = 0;
            while i < PACKET_LEN
                invariant
                    i <= PACKET_LEN,
                    buf@.len() == PACKET_LEN,
                    payload@.len() == PACKET_LEN,
                    buf@.take(i as int) == payload@.take(i as int),
                decreases PACKET_LEN - i,
            {
                buf[i] = payload[i];
                i = i + 1;
                proof {
                    assert(buf@.take(i as int) =~= payload@.take(i as int));
                }
            }
            proof {
                assert(buf@ =~= payload@);
            }
            self.packet = self.packet.wrapping_add(1);
            self.notify(Progress::Packet(self.packet));
            Ok(128)
        } else {
            let r3 = self.write_byte(NAK);
            proof {
                lemma_chain(at0, at4, self.inner);
                assert(read_between(at4, self.inner) =~= Seq::<u8>::empty());
                if r3 is Ok {
                    assert(written_between(at4, self.inner) =~= seq![NAK]);
                }
                assert(read_between(at0, self.inner) =~= read_between(at0, at4));
            }
            match r3 {
                Ok(()) => Err(ErrorKind::Interrupted),
                Err(k) => Err(k),
            }
        }
    }

    /// Receives one packet into `buf`, which must hold exactly 128 bytes.
    ///
    /// Before the first packet it asks the sender to start with a NAK. Then
    /// it reads the packet: an end-of-transmission marker is answered with
    /// NAK, expected a second time and acknowledged, and the result is
    /// `Ok(0)`. A data packet whose sequence number, complement and checksum
    /// are right is acknowledged, copied into `buf`, advances the sequence
    /// number, and the result is `Ok(128)`. A wrong checksum is answered
    /// with NAK and fails with `Interrupted`, the one failure worth another
    /// attempt. Any other unexpected byte fails with `InvalidData` after a
    /// cancel byte, or with `ConnectionAborted` if it was itself a cancel
    /// byte. A buffer of another length fails with `UnexpectedEof` before
    /// any I/O. A failure of the stream ends the call with that failure.
    ///
    /// The contract reads the call against the bytes read from the stream
    /// during it: whenever the stream reports no failure and accepts every
    /// byte written, the result, the bytes written and the events reported
    /// are exactly those of `receive_exchange`. If every read
    /// also found data, the call did not run out of input. A failure of the
    /// stream is returned as the stream reported it.
    pub fn read_packet(&mut self, buf: &mut [u8]) -> (r: Result<usize, ErrorKind>)
        ensures
            final(buf)@.len() == old(buf)@.len(),
            old(buf)@.len() != PACKET_LEN ==> {
                &&& r == Err::<usize, ErrorKind>(ErrorKind::UnexpectedEof)
                &&& *final(self) == *old(self)
                &&& final(buf)@ == old(buf)@
            },
            follows(old(self).port(), final(self).port()),
            final(self).port().faults() != old(self).port().faults() ==> (r matches Err(k) && k == final(self).port().last_failure() && k != ErrorKind::Interrupted),
            final(self).port().ends() != old(self).port().ends() || final(self).port().refusals() != old(self).port().refusals() ==> r is Err && !(r matches Err(ErrorKind::Interrupted)),
            old(buf)@.len() == PACKET_LEN && intact(old(self).port(), final(self).port()) ==> {
                let rd = read_between(old(self).port(), final(self).port());
                let e = receive_exchange(old(self).sequence(), old(self).handshaken(), rd);
                &&& r == e.result
                &&& written_between(old(self).port(), final(self).port()) == e.written
                &&& final(self).events() == old(self).events() + e.events
                &&& rd.len() == e.consumed
                &&& (r == Ok::<usize, ErrorKind>(128) ==> final(buf)@ == e.payload)
            },
            old(buf)@.len() == PACKET_LEN && quiet(old(self).port(), final(self).port()) ==> !(r matches Err(ErrorKind::UnexpectedEof)),
            final(self).sequence() == if r == Ok::<usize, ErrorKind>(128) {
                next_seq(old(self).sequence())
            } else {
                old(self).sequence()
            },
            r != Ok::<usize, ErrorKind>(128) ==> final(buf)@ == old(buf)@,
            final(self).handshaken() == (old(self).handshaken() || (old(buf)@.len() == PACKET_LEN
                && read_between(old(self).port(), final(self).port()).len() > 0
                && read_between(old(self).port(), final(self).port())[0] == SOH)),
    {
        if buf.len() != PACKET_LEN {
            proof {
                lemma_still(self.inner);
            }
            return Err(ErrorKind::UnexpectedEof);
        }
        let ghost at0 = self.inner;
        let ghost pre: Seq<u8> = if old(self).started { seq![] } else { seq![NAK] };
        proof {
            lemma_still(at0);
        }
        if !self.started {
            let r0 = self.write_byte(NAK);
            proof {
                assert(read_between(at0, self.inner) =~= Seq::<u8>::empty());
            }
            if let Err(k) = r0 {
                proof {
                    if intact(at0, self.inner) {
                        assert(written_between(at0, self.inner) =~= Seq::<u8>::empty());
                    }
                }
                return Err(k);
            }
        }
        let ghost at1 = self.inner;
        proof {
            assert(read_between(at0, at1) =~= Seq::<u8>::empty());
            assert(written_between(at0, at1) =~= pre);
        }
        let got = self.read_byte(true);
        let ghost at2 = self.inner;
        proof {
            lemma_chain(at0, at1, at2);
            assert(written_between(at1, at2) =~= Seq::<u8>::empty());
            assert(written_between(at0, at2) =~= pre);
        }
        let first = match got {
            Ok(b) => b,
            Err(k) => {
                proof {
                    if intact(at0, self.inner) {
                        if k == ErrorKind::UnexpectedEof {
                            assert(read_between(at1, at2) =~= Seq::<u8>::empty());
                        } else {
                            assert(read_between(at1, at2) =~= seq![CAN]);
                        }
                    }
                }
                return Err(k);
            },
        };
        proof {
            assert(read_between(at1, at2) =~= seq![first]);
            assert(read_between(at0, at2) =~= seq![first]);
        }
        if first == EOT {
            let r1 = self.handle_receive_eot();
            proof {
                lemma_chain(at0, at2, self.inner);
                assert(read_between(at0, self.inner) =~= seq![EOT] + read_between(at2, self.inner));
            }
            return match r1 {
                Ok(()) => Ok(0),
                Err(k) => Err(k),
            };
        }
        if first != SOH {
            let r1 = self.write_byte(CAN);
            proof {
                lemma_chain(at0, at2, self.inner);
                assert(read_between(at2, self.inner) =~= Seq::<u8>::empty());
                if r1 is Ok {
                    assert(written_between(at2, self.inner) =~= seq![CAN]);
                }
                assert(read_between(at0, self.inner) =~= seq![first]);
            }
            return match r1 {
                Ok(()) => Err(ErrorKind::InvalidData),
                Err(k) => Err(k),
            };
        }
        if !self.started {
            self.notify(Progress::Started);
            self.started = true;
        }
        let r1 = self.receive_frame(buf);
        proof {
            lemma_chain(at0, at2, self.inner);
            assert(read_between(at0, self.inner) =~= seq![SOH] + read_between(at2, self.inner));
        }
        r1
    }

    /// The sender's end of transmission: EOT, expect NAK, EOT again, expect
    /// ACK.
    fn handle_send_eot(&mut self) -> (r: Result<(), ErrorKind>)
        ensures
            final(self).events@ == old(self).events@,
            !(r matches Err(ErrorKind::Interrupted)),
            final(self).packet == old(self).packet,
            final(self).started == old(self).started,
            follows(old(self).inner, final(self).inner),
            final(self).inner.faults() != old(self).inner.faults() ==> (r matches Err(k) && k == final(self).inner.last_failure()),
            final(self).inner.ends() != old(self).inner.ends() || final(self).inner.refusals() != old(self).inner.refusals() ==> r is Err,
            intact(old(self).inner, final(self).inner) ==> {
                let rd = read_between(old(self).inner, final(self).inner);
                let e = send_body(old(self).packet, Seq::<u8>::empty(), rd);
                &&& r is Ok <==> e.result is Ok
                &&& r is Ok ==> e.result == Ok::<usize, ErrorKind>(0)
                &&& r matches Err(k) ==> e.result == Err::<usize, ErrorKind>(k)
                &&& written_between(old(self).inner, final(self).inner) == e.written
                &&& rd.len() == e.consumed
            },
            quiet(old(self).inner, final(self).inner) ==> !(r matches Err(ErrorKind::UnexpectedEof)),
    {
        let ghost at0 = self.inner;
        let r1 = self.write_byte(EOT);
        let ghost at1 = self.inner;
        proof {
            assert(read_between(at0, at1) =~= Seq::<u8>::empty());
        }
        if let Err(k) = r1 {
            proof {
                if intact(at0, self.inner) {
                    assert(written_between(at0, at1) =~= Seq::<u8>::empty());
                }
            }
            return Err(k);
        }
        proof {
            assert(written_between(at0, at1) =~= seq![EOT]);
        }
        let r2 = self.expect_byte_or_cancel(NAK);
        let ghost at2 = self.inner;
        proof {
            lemma_chain(at0, at1, at2);
        }
        if let Err(k) = r2 {
            return Err(k);
        }
        let r3 = self.write_byte(EOT);
        let ghost at3 = self.inner;
        proof {
            lemma_chain(at0, at2, at3);
            assert(read_between(at2, at3) =~= Seq::<u8>::empty());
            assert(read_between(at0, at3) =~= seq![NAK]);
        }
        if let Err(k) = r3 {
            proof {
                if intact(at0, self.inner) {
                    assert(written_between(at2, at3) =~= Seq::<u8>::empty());
                    assert(written_between(at0, at3) =~= seq![EOT]);
                }
            }
            return Err(k);
        }
        proof {
            assert(written_between(at2, at3) =~= seq![EOT]);
            assert(written_between(at0, at3) =~= seq![EOT, EOT]);
        }
        let r4 = self.expect_byte_or_cancel(ACK);
        proof {
            lemma_chain(at0, at3, self.inner);
        }
        if let Err(k) = r4 {
            proof {
                if intact(at0, self.inner) {
                    let rd = read_between(at0, self.inner);
                    assert(rd =~= seq![NAK] + read_between(at3, self.inner));
                }
            }
            return Err(k);
        }
        proof {
            assert(read_between(at0, self.inner) =~= seq![NAK, ACK]);
            assert(written_between(at0, self.inner) =~= seq![EOT, EOT]);
        }
        Ok(())
    }

    /// A data packet: start marker, sequence number, complement, payload
    /// and checksum, then the receiver's answer.
    #[verifier::rlimit(40)]
    fn send_frame(&mut self, buf: &[u8]) -> (r: Result<usize, ErrorKind>)
        requires
            buf@.len() == PACKET_LEN,
        ensures
            final(self).events@ == old(self).events@ + if r == Ok::<usize, ErrorKind>(128) {
                seq![Progress::Packet(old(self).packet)]
            } else {
                Seq::<Progress>::empty()
            },
            final(self).started == old(self).started,
            follows(old(self).inner, final(self).inner),
            final(self).inner.faults() != old(self).inner.faults() ==> (r matches Err(k) && k == final(self).inner.last_failure() && k != ErrorKind::Interrupted),
            final(self).inner.ends() != old(self).inner.ends() || final(self).inner.refusals() != old(self).inner.refusals() ==> r is Err && !(r matches Err(ErrorKind::Interrupted)),
            intact(old(self).inner, final(self).inner) ==> {
                let rd = read_between(old(self).inner, final(self).inner);
                let e = send_body(old(self).packet, buf@, rd);
                &&& r == e.result
                &&& written_between(old(self).inner, final(self).inner) == e.written
                &&& rd.len() == e.consumed
            },
            quiet(old(self).inner, final(self).inner) ==> !(r matches Err(ErrorKind::UnexpectedEof)),
            final(self).packet == if r == Ok::<usize, ErrorKind>(128) {
                next_seq(old(self).packet)
            } else {
                old(self).packet
            },
    {
        let ghost at0 = self.inner;
        let seq = self.packet;
        let r1 = self.write_byte(SOH);
        let ghost at1 = self.inner;
        proof {
            assert(read_between(at0, at1) =~= Seq::<u8>::empty());
        }
        if let Err(k) = r1 {
            return Err(k);
        }
        proof {
            assert(written_between(at0, at1) =~= seq![SOH]);
        }
        let r2 = self.write_byte(seq);
        let ghost at2 = self.inner;
        proof {
            lemma_chain(at0, at1, at2);
            assert(read_between(at1, at2) =~= Seq::<u8>::empty());
        }
        if let Err(k) = r2 {
            return Err(k);
        }
        proof {
            assert(written_between(at1, at2) =~= seq![seq]);
        }
        let r3 = self.write_byte(255 - seq);
        let ghost at3 = self.inner;
        proof {
            lemma_chain(at0, at2, at3);
            assert(read_between(at2, at3) =~= Seq::<u8>::empty());
        }
        if let Err(k) = r3 {
            return Err(k);
        }
        proof {
            assert(written_between(at2, at3) =~= seq![complement(seq)]);
        }
        let sum = packet_checksum(buf);
        let put = self.inner.write_max(buf);
        let ghost at4 = self.inner;
        proof {
            lemma_grows_refl(at4.received());
            lemma_chain(at0, at3, at4);
            assert(read_between(at3, at4) =~= Seq::<u8>::empty());
        }
        match put {
            Ok(n) => {
                if n != PACKET_LEN {
                    return Err(ErrorKind::WriteZero);
                }
            },
            Err(k) => {
                return Err(k);
            },
        }
        proof {
            assert(buf@.take(128) =~= buf@);
            assert(written_between(at3, at4) =~= buf@);
        }
        let r5 = self.write_byte(sum);
        let ghost at5 = self.inner;
        proof {
            lemma_chain(at0, at4, at5);
            assert(read_between(at4, at5) =~= Seq::<u8>::empty());
            assert(read_between(at0, at5) =~= Seq::<u8>::empty());
        }
        if let Err(k) = r5 {
            return Err(k);
        }
        proof {
            assert(written_between(at4, at5) =~= seq![sum]);
            assert(written_between(at0, at5) =~= frame(seq, buf@));
        }
        let got = self.read_byte(true);
        let ghost at6 = self.inner;
        proof {
            lemma_chain(at0, at5, at6);
            assert(written_between(at5, at6) =~= Seq::<u8>::empty());
            assert(written_between(at0, at6) =~= frame(seq, buf@));
        }
        let reply = match got {
            Ok(b) => b,
            Err(k) => {
                proof {
                    if intact(at0, self.inner) {
                        if k == ErrorKind::UnexpectedEof {
                            assert(read_between(at0, at6) =~= Seq::<u8>::empty());
                        } else {
                            assert(read_between(at0, at6) =~= seq![CAN]);
                        }
                    }
                }
                return Err(k);
            },
        };
        proof {
            assert(read_between(at0, at6) =~= seq![reply]);
        }
        if reply == ACK {
            self.notify(Progress::Packet(self.packet));
            self.packet = self.packet.wrapping_add(1);
            Ok(128)
        } else if reply == NAK {
            Err(ErrorKind::Interrupted)
        } else {
            let r7 = self.write_byte(CAN);
            proof {
                lemma_chain(at0, at6, self.inner);
                assert(read_between(at6, self.inner) =~= Seq::<u8>::empty());
                if r7 is Ok {
                    assert(written_between(at6, self.inner) =~= seq![CAN]);
                }
                assert(read_between(at0, self.inner) =~= seq![reply]);
            }
            match r7 {
                Ok(()) => Err(ErrorKind::InvalidData),
                Err(k) => Err(k),
            }
        }
    }

    /// Sends one packet: `buf` holds exactly 128 bytes of payload, or none
    /// to end the transfer.
    ///
    /// Before the first packet it waits for the receiver's NAK. A payload
    /// is sent as a data packet; the receiver's ACK advances the sequence
    /// number and gives `Ok(128)`, its NAK fails with `Interrupted`, the one
    /// failure worth another attempt. An empty `buf` sends EOT, expects NAK,
    /// sends EOT again, expects ACK, and gives `Ok(0)`. Any other unexpected
    /// byte fails with `InvalidData` after a cancel byte, or with
    /// `ConnectionAborted` if it was itself a cancel byte. A `buf` of
    /// another length fails with `UnexpectedEof` once the handshake is
    /// done, with nothing written. A failure of the stream ends the call
    /// with that failure.
    ///
    /// The contract reads the call against the bytes read from the stream
    /// during it: whenever the stream reports no failure and accepts every
    /// byte written, the result, the bytes written and the events reported
    /// are exactly those of `send_exchange`. If every read
    /// also found data, the call did not run out of input. A failure of the
    /// stream is returned as the stream reported it.
    pub fn write_packet(&mut self, buf: &[u8]) -> (r: Result<usize, ErrorKind>)
        ensures
            buf@.len() != 0 && buf@.len() != PACKET_LEN && old(self).handshaken() ==> {
                &&& r == Err::<usize, ErrorKind>(ErrorKind::UnexpectedEof)
                &&& *final(self) == *old(self)
            },
            follows(old(self).port(), final(self).port()),
            final(self).port().faults() != old(self).port().faults() ==> (r matches Err(k) && k == final(self).port().last_failure() && k != ErrorKind::Interrupted),
            final(self).port().ends() != old(self).port().ends() || final(self).port().refusals() != old(self).port().refusals() ==> r is Err && !(r matches Err(ErrorKind::Interrupted)),
            intact(old(self).port(), final(self).port()) ==> {
                let rd = read_between(old(self).port(), final(self).port());
                let e = send_exchange(old(self).sequence(), old(self).handshaken(), buf@, rd);
                &&& r == e.result
                &&& written_between(old(self).port(), final(self).port()) == e.written
                &&& final(self).events() == old(self).events() + e.events
                &&& rd.len() == e.consumed
            },
            quiet(old(self).port(), final(self).port()) && (buf@.len() == 0 || buf@.len() == PACKET_LEN) ==> !(r matches Err(ErrorKind::UnexpectedEof)),
            final(self).sequence() == if r == Ok::<usize, ErrorKind>(128) {
                next_seq(old(self).sequence())
            } else {
                old(self).sequence()
            },
            final(self).handshaken() == (old(self).handshaken() || (
                read_between(old(self).port(), final(self).port()).len() > 0
                && read_between(old(self).port(), final(self).port())[0] == NAK)),
    {
        let ghost at0 = self.inner;
        proof {
            lemma_still(at0);
        }
        if !self.started {
            self.notify(Progress::Waiting);
            let r0 = self.expect_byte_or_cancel(NAK);
            if let Err(k) = r0 {
                return Err(k);
            }
            self.notify(Progress::Started);
            self.started = true;
        }
        let ghost at1 = self.inner;
        let ghost pre: Seq<u8> = if old(self).started { seq![] } else { seq![NAK] };
        proof {
            assert(read_between(at0, at1) =~= pre);
            assert(written_between(at0, at1) =~= Seq::<u8>::empty());
            if !old(self).started {
                assert(pre.drop_first() =~= Seq::<u8>::empty());
            }
        }
        if buf.len() != 0 && buf.len() != PACKET_LEN {
            return Err(ErrorKind::UnexpectedEof);
        }
        if buf.len() == 0 {
            let r1 = self.handle_send_eot();
            proof {
                lemma_chain(at0, at1, self.inner);
                assert(read_between(at0, self.inner) =~= pre + read_between(at1, self.inner));
                assert(written_between(at0, self.inner) =~= written_between(at1, self.inner));
                if !old(self).started {
                    assert((pre + read_between(at1, self.inner)).drop_first() =~= read_between(at1, self.inner));
                }
            }
            return match r1 {
                Ok(()) => Ok(0),
                Err(k) => Err(k),
            };
        }
        let r1 = self.send_frame(buf);
        proof {
            lemma_chain(at0, at1, self.inner);
            assert(read_between(at0, self.inner) =~= pre + read_between(at1, self.inner));
            assert(written_between(at0, self.inner) =~= written_between(at1, self.inner));
            if !old(self).started {
                assert((pre + read_between(at1, self.inner)).drop_first() =~= read_between(at1, self.inner));
            }
        }
        r1
    }

    /// Sends all of `data`: packet by packet, the last one padded with
    /// zeros, each with up to `ATTEMPTS` attempts of which only a NAK from
    /// the receiver calls for another, then the end of transmission.
    /// Returns the length of `data`; a packet that fails every attempt fails
    /// the transfer with `BrokenPipe`, any other failure fails it at once.
    ///
    /// The contract reads the call against the bytes read from the stream
    /// during it: whenever the stream reports no failure and accepts every
    /// byte written, the result, the bytes written and the events reported
    /// are exactly those of `send_session`. If every read
    /// also found data, the call did not run out of input. A failure of the
    /// stream is returned as the stream reported it.
    #[verifier::rlimit(60)]
    pub fn send_all(&mut self, data: &[u8]) -> (r: Result<usize, ErrorKind>)
        ensures
            follows(old(self).port(), final(self).port()),
            final(self).port().faults() != old(self).port().faults() ==> (r matches Err(k) && k == final(self).port().last_failure()),
            final(self).port().ends() != old(self).port().ends() || final(self).port().refusals() != old(self).port().refusals() ==> r is Err,
            intact(old(self).port(), final(self).port()) ==> {
                let rd = read_between(old(self).port(), final(self).port());
                let e = send_session(old(self).sequence(), old(self).handshaken(), data@, ATTEMPTS as nat, rd);
                &&& e.result is Ok ==> r == Ok::<usize, ErrorKind>(data@.len() as usize)
                &&& e.result matches Err(k) ==> r == Err::<usize, ErrorKind>(k)
                &&& written_between(old(self).port(), final(self).port()) == e.written
                &&& final(self).events() == old(self).events() + e.events
                &&& rd.len() == e.consumed
            },
            quiet(old(self).port(), final(self).port()) ==> !(r matches Err(ErrorKind::UnexpectedEof)),
    {
        let ghost at0 = self.inner;
        let ghost s0 = self.packet;
        let ghost st0 = self.started;
        let ghost mut acc = Exchange { result: Ok(0), written: seq![], consumed: 0, payload: seq![], events: seq![] };
        let mut off: usize = 0;
        let mut tries: usize = ATTEMPTS;
        let mut packet: Vec<u8> = vec![0u8; PACKET_LEN];
        proof {
            lemma_still(at0);
            assert(self.events@ =~= old(self).events@ + acc.events);
            assert forall|x: Seq<u8>| #![trigger send_session(s0, st0, data@, ATTEMPTS as nat, x)]
                0 <= x.len() && x.take(0) == read_between(at0, at0) implies send_session(s0, st0, data@, ATTEMPTS as nat, x)
                    == join(acc, send_session(s0, st0, data@.skip(0), ATTEMPTS as nat, x.skip(0))) by {
                assert(data@.skip(0) =~= data@);
                assert(x.skip(0) =~= x);
                let t = send_session(s0, st0, data@, ATTEMPTS as nat, x);
                assert(seq![] + t.written =~= t.written);
                assert(seq![] + t.payload =~= t.payload);
                assert(seq![] + t.events =~= t.events);
            }
        }
        loop
            invariant
                off <= data@.len(),
                1 <= tries <= ATTEMPTS,
                packet@.len() == PACKET_LEN,
                follows(at0, self.inner),
                quiet(at0, self.inner),
                at0 == old(self).inner,
                s0 == old(self).packet,
                st0 == old(self).started,
                acc.written == written_between(at0, self.inner),
                self.events@ == old(self).events@ + acc.events,
                acc.consumed == read_between(at0, self.inner).len(),
                forall|x: Seq<u8>| #![trigger send_session(s0, st0, data@, ATTEMPTS as nat, x)]
                    read_between(at0, self.inner).len() <= x.len()
                    && x.take(read_between(at0, self.inner).len() as int) == read_between(at0, self.inner)
                    ==> send_session(s0, st0, data@, ATTEMPTS as nat, x) == join(acc, send_session(
                        self.packet, self.started, data@.skip(off as int), tries as nat,
                        x.skip(read_between(at0, self.inner).len() as int))),
            decreases data@.len() - off, tries,
        {
            let ghost at1 = self.inner;
            let ghost done = read_between(at0, at1);
            let ghost seq1 = self.packet;
            let ghost st1 = self.started;
            let ghost rest = data@.skip(off as int);
            if off == data.len() {
                let r = self.write_packet(&[]);
                proof {
                    lemma_chain(at0, at1, self.inner);
                    let rd = read_between(at0, self.inner);
                    if intact(at0, self.inner) {
                        assert(rd.take(done.len() as int) =~= done);
                        assert(rd.skip(done.len() as int) =~= read_between(at1, self.inner));
                        assert(rest.len() == 0);
                    }
                }
                return match r {
                    Ok(_) => Ok(data.len()),
                    Err(k) => Err(k),
                };
            }
            let n = fill_chunk(&mut packet, data, off);
            let r = self.write_packet(packet.as_slice());
            let ghost at2 = self.inner;
            let ghost step = read_between(at1, at2);
            proof {
                lemma_chain(at0, at1, at2);
                let rd = read_between(at0, at2);
                assert(rd.take(done.len() as int) =~= done);
                assert(rd.skip(done.len() as int) =~= step);
            }
            match r {
                Ok(_) => {
                    proof {
                        let e = send_exchange(seq1, st1, packet@, step);
                        lemma_send_unfold(seq1, st1, rest, tries as nat, step);
                        assert(rest.skip(n as int) =~= data@.skip(off + n));
                        lemma_send_advance(s0, st0, data@, acc, e, done, step, seq1, st1, rest, tries as nat,
                            next_seq(seq1), true, data@.skip(off + n), ATTEMPTS as nat);
                        assert(old(self).events@ + acc.events + e.events =~= old(self).events@ + (acc.events + e.events));
                        acc = join(acc, e);
                    }
                    off = off + n;
                    tries = ATTEMPTS;
                },
                Err(ErrorKind::Interrupted) => {
                    if tries <= 1 {
                        return Err(ErrorKind::BrokenPipe);
                    }
                    proof {
                        let e = send_exchange(seq1, st1, packet@, step);
                        lemma_send_unfold(seq1, st1, rest, tries as nat, step);
                        lemma_send_advance(s0, st0, data@, acc, e, done, step, seq1, st1, rest, tries as nat,
                            seq1, true, rest, (tries - 1) as nat);
                        assert(old(self).events@ + acc.events + e.events =~= old(self).events@ + (acc.events + e.events));
                        acc = join(acc, e);
                    }
                    tries = tries - 1;
                },
                Err(k) => {
                    return Err(k);
                },
            }
        }
    }

    /// Receives a whole transfer into `into`: packet by packet, each with up
    /// to `ATTEMPTS` attempts of which only a wrong checksum calls for
    /// another, until the end of transmission. Every packet received is
    /// appended to `into` with its padding. Returns the number of bytes
    /// appended, a multiple of 128; a packet that fails every attempt fails
    /// the transfer with `BrokenPipe`, any other failure fails it at once.
    ///
    /// The contract reads the call against the bytes read from the stream
    /// during it: whenever the stream reports no failure and accepts every
    /// byte written, the result, the bytes written and the events reported
    /// are exactly those of `receive_session`, and `into` gains its payload. If every read
    /// also found data, the call did not run out of input. A failure of the
    /// stream is returned as the stream reported it.
    #[verifier::rlimit(60)]
    pub fn receive_all(&mut self, into: &mut Vec<u8>) -> (r: Result<usize, ErrorKind>)
        ensures
            follows(old(self).port(), final(self).port()),
            final(self).port().faults() != old(self).port().faults() ==> (r matches Err(k) && k == final(self).port().last_failure()),
            final(self).port().ends() != old(self).port().ends() || final(self).port().refusals() != old(self).port().refusals() ==> r is Err,
            grows(old(into)@, final(into)@),
            intact(old(self).port(), final(self).port()) ==> {
                let rd = read_between(old(self).port(), final(self).port());
                let e = receive_session(old(self).sequence(), old(self).handshaken(), ATTEMPTS as nat, rd);
                &&& e.result is Ok ==> r == Ok::<usize, ErrorKind>(e.payload.len() as usize)
                &&& e.result matches Err(k) ==> r == Err::<usize, ErrorKind>(k)
                &&& written_between(old(self).port(), final(self).port()) == e.written
                &&& final(self).events() == old(self).events() + e.events
                &&& rd.len() == e.consumed
                &&& final(into)@ == old(into)@ + e.payload
            },
            quiet(old(self).port(), final(self).port()) ==> !(r matches Err(ErrorKind::UnexpectedEof)),
    {
        let ghost at0 = self.inner;
        let ghost s0 = self.packet;
        let ghost st0 = self.started;
        let ghost mut acc = Exchange { result: Ok(0), written: seq![], consumed: 0, payload: seq![], events: seq![] };
        let start = into.len();
        let mut tries: usize = ATTEMPTS;
        let mut packet: Vec<u8> = vec![0u8; PACKET_LEN];
        proof {
            lemma_still(at0);
            assert(into@ =~= old(into)@ + acc.payload);
            assert(self.events@ =~= old(self).events@ + acc.events);
            assert forall|x: Seq<u8>| #![trigger receive_session(s0, st0, ATTEMPTS as nat, x)]
                0 <= x.len() && x.take(0) == read_between(at0, at0) implies receive_session(s0, st0, ATTEMPTS as nat, x)
                    == join(acc, receive_session(s0, st0, ATTEMPTS as nat, x.skip(0))) by {
                assert(x.skip(0) =~= x);
                let t = receive_session(s0, st0, ATTEMPTS as nat, x);
                assert(seq![] + t.written =~= t.written);
                assert(seq![] + t.payload =~= t.payload);
                assert(seq![] + t.events =~= t.events);
            }
        }
        loop
            invariant
                1 <= tries <= ATTEMPTS,
                packet@.len() == PACKET_LEN,
                follows(at0, self.inner),
                quiet(at0, self.inner),
                at0 == old(self).inner,
                s0 == old(self).packet,
                st0 == old(self).started,
                start == old(into)@.len(),
                into@ == old(into)@ + acc.payload,
                acc.written == written_between(at0, self.inner),
                self.events@ == old(self).events@ + acc.events,
                acc.consumed == read_between(at0, self.inner).len(),
                forall|x: Seq<u8>| #![trigger receive_session(s0, st0, ATTEMPTS as nat, x)]
                    read_between(at0, self.inner).len() <= x.len()
                    && x.take(read_between(at0, self.inner).len() as int) == read_between(at0, self.inner)
                    ==> receive_session(s0, st0, ATTEMPTS as nat, x) == join(acc, receive_session(
                        self.packet, self.started, tries as nat,
                        x.skip(read_between(at0, self.inner).len() as int))),
            decreases self.inner.supply(),
        {
            let ghost at1 = self.inner;
            let ghost done = read_between(at0, at1);
            let ghost seq1 = self.packet;
            let ghost st1 = self.started;
            let r = self.read_packet(packet.as_mut_slice());
            let ghost at2 = self.inner;
            let ghost step = read_between(at1, at2);
            let ghost e = receive_exchange(seq1, st1, step);
            proof {
                lemma_chain(at0, at1, at2);
                let rd = read_between(at0, at2);
                assert(rd.take(done.len() as int) =~= done);
                assert(rd.skip(done.len() as int) =~= step);
                assert(into@.take(old(into)@.len() as int) =~= old(into)@);
            }
            match r {
                Ok(n) => {
                    if n == 0 {
                        proof {
                            assert(e.payload =~= Seq::<u8>::empty());
                            assert(acc.payload + e.payload =~= acc.payload);
                        }
                        return Ok(into.len() - start);
                    }
                    append_packet(into, &packet);
                    proof {
                        assert(into@ =~= old(into)@ + (acc.payload + e.payload));
                        lemma_receive_unfold(seq1, st1, tries as nat, step);
                        lemma_receive_advance(s0, st0, acc, e, done, step, seq1, st1, tries as nat,
                            next_seq(seq1), true, ATTEMPTS as nat);
                        assert(old(self).events@ + acc.events + e.events =~= old(self).events@ + (acc.events + e.events));
                        acc = join(acc, e);
                    }
                    tries = ATTEMPTS;
                },
                Err(ErrorKind::Interrupted) => {
                    if tries <= 1 {
                        return Err(ErrorKind::BrokenPipe);
                    }
                    proof {
                        assert(acc.payload + e.payload =~= acc.payload);
                        lemma_receive_unfold(seq1, st1, tries as nat, step);
                        lemma_receive_advance(s0, st0, acc, e, done, step, seq1, st1, tries as nat,
                            seq1, true, (tries - 1) as nat);
                        assert(old(self).events@ + acc.events + e.events =~= old(self).events@ + (acc.events + e.events));
                        acc = join(acc, e);
                    }
                    tries = tries - 1;
                },
                Err(k) => {
                    return Err(k);
                },
            }
        }
    }
}

} // verus!
