//! The byte-stream capability that the transaction engine drives: a blocking
//! serial link with a write side, a read side, and a way to discard buffered
//! input. The real serial transport supplies an implementation; an in-memory
//! stream serves deterministic exercise of the engine.

use vstd::prelude::*;

verus! {

/// A failure of one blocking stream operation: either the configured timeout
/// elapsed before the operation finished, or a harder I/O fault occurred.
#[derive(Debug, PartialEq, Eq, Structural, Clone, Copy)]
pub enum StreamError {
    Timeout,
    Io,
}

/// A blocking byte stream with a per-operation timeout.
///
/// The stream is modelled by two ghost byte sequences: `inp`, the bytes the
/// far side delivers from now on, in arrival order, and `out`, every byte
/// written so far. Reading consumes a prefix of `inp`; writing appends to
/// `out`; a failed or discarded read may skip over input, but input is never
/// revisited and never invented: whatever a read returns was the front of
/// `inp` when it was called.
pub trait ByteStream: Sized {
    /// The bytes that remain to be delivered by the far side, in order.
    /// Implementations override this; the body here only stands in for
    /// transports that live outside the proofs.
    open spec fn inp(&self) -> Seq<u8> {
        Seq::empty()
    }

    /// Every byte written to the stream so far, in order. Overridden like
    /// `inp`.
    open spec fn out(&self) -> Seq<u8> {
        Seq::empty()
    }

    /// Block until every byte of `bytes` is handed to the link, or fail. On
    /// failure some prefix may already have left.
    fn write_all(&mut self, bytes: &[u8]) -> (r: Result<(), StreamError>)
        ensures
            final(self).inp() == old(self).inp(),
            r is Ok ==> final(self).out() == old(self).out() + bytes@,
            r is Err ==> exists|j: int|
                0 <= j <= bytes@.len() && final(self).out() == old(self).out() + bytes@.take(j),
    ;

    /// Block until exactly `n` bytes have arrived and return them, or fail.
    /// On failure some input may still have been consumed.
    fn read_exact(&mut self, n: usize) -> (r: Result<Vec<u8>, StreamError>)
        ensures
            final(self).out() == old(self).out(),
            match r {
                Ok(v) => v@.len() == n && old(self).inp().len() >= n && v@ == old(self).inp().take(n as int) && final(self).inp() == old(self).inp().skip(n as int),
                Err(_) => exists|j: int|
                    0 <= j <= old(self).inp().len() && final(self).inp() == old(self).inp().skip(
                        j,
                    ),
            },
    ;

    /// Discard whatever input is buffered but unread.
    fn clear_input(&mut self) -> (r: Result<(), StreamError>)
        ensures
            final(self).out() == old(self).out(),
            exists|j: int|
                0 <= j <= old(self).inp().len() && final(self).inp() == old(self).inp().skip(j),
    ;
}

} // verus!
