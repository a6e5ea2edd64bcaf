//! A diagnostic record of the bytes read from a stream.

use vstd::prelude::*;
use crate::port::{ErrorKind, Port};

verus! {

/// How many bytes a trace keeps by default.
pub const TRACE_LEN: usize = 1024;

/// `log` after `more` was read: bytes are kept while there is room for
/// them, and the rest is dropped.
pub open spec fn kept(log: Seq<u8>, more: Seq<u8>, capacity: nat) -> Seq<u8> {
    if log.len() >= capacity {
        log
    } else if log.len() + more.len() <= capacity {
        log + more
    } else {
        log + more.take(capacity - log.len())
    }
}

/// A stream that keeps, for diagnostics, the first bytes read through it.
/// The record only grows, is never reset, and stops growing silently once
/// it holds `capacity` bytes. The engine never consults it.
pub struct Traced<P> {
    inner: P,
    log: Vec<u8>,
    capacity: usize,
}

impl<P: Port> Traced<P> {
    /// The bytes kept so far.
    pub closed spec fn log(&self) -> Seq<u8> {
        self.log@
    }

    /// How many bytes the record can hold.
    pub closed spec fn capacity(&self) -> nat {
        self.capacity as nat
    }

    /// The stream underneath.
    pub closed spec fn stream(&self) -> P {
        self.inner
    }

    /// A trace of `TRACE_LEN` bytes over `inner`.
    pub fn new(inner: P) -> (t: Traced<P>)
        ensures
            t.log() == Seq::<u8>::empty(),
            t.capacity() == TRACE_LEN,
            t.stream() == inner,
    {
        Traced::with_capacity(inner, TRACE_LEN)
    }

    /// A trace of `capacity` bytes over `inner`.
    pub fn with_capacity(inner: P, capacity: usize) -> (t: Traced<P>)
        ensures
            t.log() == Seq::<u8>::empty(),
            t.capacity() == capacity,
            t.stream() == inner,
    {
        Traced { inner, log: Vec::new(), capacity }
    }

    /// The bytes kept so far.
    pub fn recorded(&self) -> (r: &Vec<u8>)
        ensures
            r@ == self.log(),
    {
        &self.log
    }

    /// The stream underneath, given back.
    pub fn into_inner(self) -> (r: P)
        ensures
            r == self.stream(),
    {
        self.inner
    }

    /// Keeps what there is room for of the first `n` bytes of `bytes`.
    fn keep(&mut self, bytes: &[u8], n: usize)
        requires
            n <= bytes@.len(),
        ensures
            final(self).log() == kept(old(self).log(), bytes@.take(n as int), old(self).capacity()),
            final(self).capacity == old(self).capacity,
            final(self).inner == old(self).inner,
    {
        if self.log.len() >= self.capacity {
            return;
        }
        let mut i: usize = 0;
        while i < n && self.log.len() < self.capacity
            invariant
                n <= bytes@.len(),
                i <= n,
                self.capacity == old(self).capacity,
                self.inner == old(self).inner,
                old(self).log@.len() < self.capacity,
                self.log@.len() <= self.capacity,
                self.log@ == old(self).log@ + bytes@.take(i as int),
            decreases n - i,
        {
            self.log.push(bytes[i]);
            i = i + 1;
            proof {
                assert(self.log@ =~= old(self).log@ + bytes@.take(i as int));
            }
        }
        proof {
            let more = bytes@.take(n as int);
            if i == n {
                assert(bytes@.take(i as int) =~= more);
            } else {
                assert(bytes@.take(i as int) =~= more.take(self.capacity - old(self).log@.len()));
            }
        }
    }
}

impl<P: Port> Port for Traced<P> {
    closed spec fn received(&self) -> Seq<u8> {
        self.inner.received()
    }

    closed spec fn sent(&self) -> Seq<u8> {
        self.inner.sent()
    }

    closed spec fn faults(&self) -> nat {
        self.inner.faults()
    }

    closed spec fn supply(&self) -> nat {
        self.inner.supply()
    }

    closed spec fn last_failure(&self) -> ErrorKind {
        self.inner.last_failure()
    }

    closed spec fn ends(&self) -> nat {
        self.inner.ends()
    }

    closed spec fn refusals(&self) -> nat {
        self.inner.refusals()
    }

    closed spec fn flushes(&self) -> nat {
        self.inner.flushes()
    }

    fn read(&mut self, buf: &mut [u8]) -> (r: Result<usize, ErrorKind>)
        ensures
            final(self).capacity() == old(self).capacity(),
            match r {
                Ok(n) => final(self).log() == kept(old(self).log(), final(buf)@.take(n as int), old(self).capacity()),
                Err(_) => final(self).log() == old(self).log(),
            },
    {
        let r = self.inner.read(buf);
        if let Ok(n) = r {
            self.keep(buf, n);
        }
        r
    }

    fn write(&mut self, buf: &[u8]) -> (r: Result<usize, ErrorKind>)
        ensures
            final(self).log() == old(self).log(),
            final(self).capacity() == old(self).capacity(),
    {
        self.inner.write(buf)
    }

    fn flush(&mut self) -> (r: Result<(), ErrorKind>)
        ensures
            final(self).log() == old(self).log(),
            final(self).capacity() == old(self).capacity(),
    {
        self.inner.flush()
    }
}

} // verus!
