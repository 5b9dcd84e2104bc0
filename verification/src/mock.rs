//! An in-memory byte stream: reads are served from a fixed script of reply
//! bytes, writes are recorded. It makes the transaction engine fully
//! deterministic, so its retry and checksum behaviour can be exercised
//! without hardware.

use vstd::prelude::*;

use crate::stream::{ByteStream, StreamError};

verus! {

/// A scripted stream. `inp` is the part of the script not yet served; `out`
/// is everything written. A read that would run past the script's end fails
/// with `StreamError::Timeout`, consuming nothing, like a silent device.
pub struct MockStream {
    input: Vec<u8>,
    consumed: usize,
    written: Vec<u8>,
    broken: bool,
}

impl MockStream {
    pub fn new(input: Vec<u8>) -> (r: Self)
        ensures
            r.inp() == input@,
            r.out() == Seq::<u8>::empty(),
    {
        let r = MockStream { input, consumed: 0, written: Vec::new(), broken: false };
        proof {
            assert(r.inp() =~= r.input@);
        }
        r
    }

    /// Make every later read fail with a hard I/O fault instead of a
    /// timeout, like a link that has gone away.
    pub fn break_reads(&mut self)
        ensures
            final(self).inp() == old(self).inp(),
            final(self).out() == old(self).out(),
    {
        self.broken = true;
    }

    /// Every byte the engine has written, in order.
    pub fn written(&self) -> (r: &Vec<u8>)
        ensures
            r@ == self.out(),
    {
        &self.written
    }

    /// The scripted reply bytes not yet served.
    pub fn unread(&self) -> (r: usize)
        ensures
            r == self.inp().len(),
    {
        if self.consumed <= self.input.len() {
            self.input.len() - self.consumed
        } else {
            0
        }
    }
}

impl ByteStream for MockStream {
    closed spec fn inp(&self) -> Seq<u8> {
        if self.consumed <= self.input@.len() {
            self.input@.skip(self.consumed as int)
        } else {
            Seq::empty()
        }
    }

    closed spec fn out(&self) -> Seq<u8> {
        self.written@
    }

    fn write_all(&mut self, bytes: &[u8]) -> (r: Result<(), StreamError>)
        ensures
            final(self).inp() == old(self).inp(),
            r is Ok ==> final(self).out() == old(self).out() + bytes@,
            r is Err ==> exists|j: int|
                0 <= j <= bytes@.len() && final(self).out() == old(self).out() + bytes@.take(j),
    {
        let mut i: usize = 0;
        while i < bytes.len()
            invariant
                i <= bytes@.len(),
                self.written@ == old(self).written@ + bytes@.take(i as int),
                self.input == old(self).input,
                self.consumed == old(self).consumed,
            decreases bytes@.len() - i,
        {
            self.written.push(bytes[i]);
            i = i + 1;
            proof {
                assert(bytes@.take(i as int) =~= bytes@.take(i - 1).push(bytes@[i - 1]));
            }
        }
        proof {
            assert(bytes@.take(bytes@.len() as int) =~= bytes@);
        }
        Ok(())
    }

    fn read_exact(&mut self, n: usize) -> (r: Result<Vec<u8>, StreamError>)
        ensures
            final(self).out() == old(self).out(),
            match r {
                Ok(v) => v@.len() == n && old(self).inp().len() >= n && v@ == old(self).inp().take(n as int) && final(self).inp() == old(self).inp().skip(n as int),
                Err(_) => exists|j: int|
                    0 <= j <= old(self).inp().len() && final(self).inp() == old(self).inp().skip(
                        j,
                    ),
            },
    {
        if self.broken {
            proof {
                assert(self.inp() =~= old(self).inp().skip(0));
            }
            return Err(StreamError::Io);
        }
        if self.consumed <= self.input.len() && n <= self.input.len() - self.consumed {
            let mut v: Vec<u8> = Vec::new();
            let mut i: usize = 0;
            while i < n
                invariant
                    i <= n,
                    self.consumed + n <= self.input@.len(),
                    self.consumed + n <= usize::MAX,
                    v@ == self.input@.subrange(self.consumed as int, self.consumed + i),
                    self.input == old(self).input,
                    self.consumed == old(self).consumed,
                    self.written == old(self).written,
                decreases n - i,
            {
                v.push(self.input[self.consumed + i]);
                i = i + 1;
                proof {
                    assert(self.input@.subrange(self.consumed as int, self.consumed + i)
                        =~= self.input@.subrange(self.consumed as int, self.consumed + i - 1).push(
                        self.input@[self.consumed + i - 1],
                    ));
                }
            }
            self.consumed = self.consumed + n;
            proof {
                assert(v@ =~= old(self).inp().take(n as int));
                assert(self.inp() =~= old(self).inp().skip(n as int));
            }
            Ok(v)
        } else {
            proof {
                assert(self.inp() =~= old(self).inp().skip(0));
            }
            Err(StreamError::Timeout)
        }
    }

    fn clear_input(&mut self) -> (r: Result<(), StreamError>)
        ensures
            final(self).out() == old(self).out(),
            exists|j: int|
                0 <= j <= old(self).inp().len() && final(self).inp() == old(self).inp().skip(j),
    {
        proof {
            assert(self.inp() =~= old(self).inp().skip(0));
        }
        Ok(())
    }
}

} // verus!
