//! Reliable reads and writes: partial transfers are continued and
//! interruptions are tried again.

use vstd::prelude::*;
use crate::port::{grows, ErrorKind, Port};

verus! {

/// Flushes `port`, trying again for as long as it reports an interruption.
pub fn flush_fully<P: Port + ?Sized>(port: &mut P) -> (r: Result<(), ErrorKind>)
    ensures
        final(port).received() == old(port).received(),
        final(port).sent() == old(port).sent(),
        match r {
            Ok(_) => final(port).faults() == old(port).faults(),
            Err(k) => {
                &&& k != ErrorKind::Interrupted
                &&& final(port).faults() == old(port).faults() + 1
                &&& final(port).last_failure() == k
            },
        },
        final(port).supply() <= old(port).supply(),
        final(port).ends() == old(port).ends(),
        final(port).refusals() == old(port).refusals(),
        final(port).flushes() == old(port).flushes() + if r is Ok { 1nat } else { 0nat },
{
    loop
        invariant
            port.received() == old(port).received(),
            port.sent() == old(port).sent(),
            port.faults() == old(port).faults(),
            port.supply() <= old(port).supply(),
            port.ends() == old(port).ends(),
            port.refusals() == old(port).refusals(),
            port.flushes() == old(port).flushes(),
        decreases port.supply(),
    {
        match port.flush() {
            Ok(()) => return Ok(()),
            Err(ErrorKind::Interrupted) => {},
            Err(k) => return Err(k),
        }
    }
}

/// Reading until a buffer is full or the stream ends.
pub trait ReadExt: Port {
    /// Reads into `buf` until it is full, the stream ends, or the stream fails
    /// with anything but an interruption; interruptions are tried again.
    /// Returns how many bytes were placed at the front of `buf`.
    fn read_max(&mut self, buf: &mut [u8]) -> (r: Result<usize, ErrorKind>)
        ensures
            final(buf)@.len() == old(buf)@.len(),
            final(self).sent() == old(self).sent(),
            grows(old(self).received(), final(self).received()),
            final(self).supply() + final(self).received().len() <= old(self).supply() + old(self).received().len(),
            final(self).flushes() == old(self).flushes(),
            final(self).ends() == old(self).ends()
                + if r matches Ok(n) && n < old(buf)@.len() { 1nat } else { 0nat },
            final(self).refusals() == old(self).refusals(),
            r is Err ==> final(self).received().len() < old(self).received().len() + old(buf)@.len(),
            match r {
                Ok(n) => {
                    &&& n <= old(buf)@.len()
                    &&& final(self).received() == old(self).received() + final(buf)@.take(n as int)
                    &&& final(self).faults() == old(self).faults()
                },
                Err(k) => {
                    &&& k != ErrorKind::Interrupted
                    &&& final(self).faults() == old(self).faults() + 1
                    &&& final(self).last_failure() == k
                },
            },
    {
        let len = buf.len();
        let mut filled: usize = 0;
        let mut stalled = false;
        while filled < len && !stalled
            invariant
                stalled ==> filled < len,
                buf@.len() == old(buf)@.len() == len,
                filled <= len,
                self.sent() == old(self).sent(),
                self.received() == old(self).received() + buf@.take(filled as int),
                self.faults() == old(self).faults(),
                self.supply() + filled <= old(self).supply(),
                self.ends() == old(self).ends() + if stalled { 1nat } else { 0nat },
                self.refusals() == old(self).refusals(),
                self.flushes() == old(self).flushes(),
            decreases len - filled, if stalled { 0nat } else { 1nat }, self.supply(),
        {
            let want: usize = len - filled;
            let mut chunk: Vec<u8> = vec![0u8; want];
            match self.read(chunk.as_mut_slice()) {
                Ok(0) => {
                    stalled = true;
                },
                Ok(n) => {
                    let ghost before = buf@;
                    let mut i: usize = 0;
                    while i < n
                        invariant
                            n <= chunk@.len() == len - filled,
                            filled + n <= len,
                            i <= n,
                            buf@.len() == len,
                            buf@.take(filled as int) == before.take(filled as int),
                            buf@.subrange(filled as int, filled + i) == chunk@.take(i as int),
                        decreases n - i,
                    {
                        buf[filled + i] = chunk[i];
                        i = i + 1;
                        proof {
                            assert(buf@.subrange(filled as int, filled + i) =~= chunk@.take(i as int));
                            assert(buf@.take(filled as int) =~= before.take(filled as int));
                        }
                    }
                    proof {
                        assert(buf@.take(filled + n) =~= buf@.take(filled as int) + chunk@.take(n as int));
                        assert(old(self).received() + buf@.take(filled + n)
                            =~= old(self).received() + before.take(filled as int) + chunk@.take(n as int));
                    }
                    filled = filled + n;
                },
                Err(ErrorKind::Interrupted) => {},
                Err(k) => {
                    proof {
                        assert(self.received().take(old(self).received().len() as int) =~= old(self).received());
                    }
                    return Err(k);
                },
            }
        }
        proof {
            assert(self.received().take(old(self).received().len() as int) =~= old(self).received());
        }
        Ok(filled)
    }
}

impl<T: Port> ReadExt for T {}

/// Writing a whole buffer.
pub trait WriteExt: Port {
    /// Writes `buf` until all of it is accepted, the stream accepts nothing,
    /// or the stream fails with anything but an interruption; interruptions
    /// are tried again. Flushes the stream after a write that was not cut
    /// short by a failure. Returns how many bytes were accepted.
    fn write_max(&mut self, buf: &[u8]) -> (r: Result<usize, ErrorKind>)
        ensures
            final(self).received() == old(self).received(),
            grows(old(self).sent(), final(self).sent()),
            final(self).supply() <= old(self).supply(),
            final(self).ends() == old(self).ends(),
            old(self).refusals() <= final(self).refusals() <= old(self).refusals() + 1,
            r matches Ok(n) ==> final(self).refusals() == old(self).refusals() + if n < buf@.len() { 1nat } else { 0nat },
            final(self).flushes() == old(self).flushes() + if r is Ok { 1nat } else { 0nat },
            match r {
                Ok(n) => {
                    &&& n <= buf@.len()
                    &&& final(self).sent() == old(self).sent() + buf@.take(n as int)
                    &&& final(self).faults() == old(self).faults()
                },
                Err(k) => {
                    &&& k != ErrorKind::Interrupted
                    &&& final(self).faults() == old(self).faults() + 1
                    &&& final(self).last_failure() == k
                },
            },
    {
        let len = buf.len();
        let mut done: usize = 0;
        let mut stalled = false;
        while done < len && !stalled
            invariant
                stalled ==> done < len,
                buf@.len() == len,
                done <= len,
                self.received() == old(self).received(),
                self.sent() == old(self).sent() + buf@.take(done as int),
                self.faults() == old(self).faults(),
                self.supply() <= old(self).supply(),
                self.refusals() == old(self).refusals() + if stalled { 1nat } else { 0nat },
                self.ends() == old(self).ends(),
                self.flushes() == old(self).flushes(),
            decreases len - done, if stalled { 0nat } else { 1nat }, self.supply(),
        {
            let rest = slice_from(buf, done);
            match self.write(rest) {
                Ok(0) => {
                    stalled = true;
                },
                Ok(n) => {
                    proof {
                        assert(buf@.take(done + n) =~= buf@.take(done as int) + rest@.take(n as int));
                    }
                    done = done + n;
                },
                Err(ErrorKind::Interrupted) => {},
                Err(k) => {
                    proof {
                        assert(self.sent().take(old(self).sent().len() as int) =~= old(self).sent());
                    }
                    return Err(k);
                },
            }
        }
        match flush_fully(self) {
            Ok(()) => {
                proof {
                    assert(self.sent().take(old(self).sent().len() as int) =~= old(self).sent());
                }
                Ok(done)
            },
            Err(k) => {
                proof {
                    assert(self.sent().take(old(self).sent().len() as int) =~= old(self).sent());
                }
                Err(k)
            },
        }
    }
}

impl<T: Port> WriteExt for T {}

/// The part of `buf` from `start` on.
fn slice_from(buf: &[u8], start: usize) -> (r: &[u8])
    requires
        start <= buf@.len(),
    ensures
        r@ == buf@.skip(start as int),
{
    let (_, tail) = buf.split_at(start);
    tail
}

} // verus!
