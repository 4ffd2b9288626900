//! A counting sink: measures how many bytes are written to it without
//! keeping any of them. Used to know the serialized size of a record
//! before deciding whether it still fits in the current batch.

use vstd::prelude::*;

verus! {

/// Counts bytes handed to `write` without storing them.
pub struct ByteCount(usize);

impl View for ByteCount {
    type V = nat;

    /// The number of bytes counted so far.
    closed spec fn view(&self) -> nat {
        self.0 as nat
    }
}

impl ByteCount {
    /// A fresh counter at zero.
    pub fn new() -> (r: Self)
        ensures
            r@ == 0,
    {
        ByteCount(0)
    }

    /// How many bytes have been written so far.
    pub fn count(&self) -> (r: usize)
        ensures
            r == self@,
    {
        self.0
    }

    /// Accounts for `buf` and reports, like a sink that accepts everything,
    /// that all of it was taken. Saturates at `usize::MAX`.
    pub fn write(&mut self, buf: &[u8]) -> (r: usize)
        ensures
            final(self)@ == old(self)@ + buf@.len() || (final(self)@ == usize::MAX && old(
                self,
            )@ + buf@.len() > usize::MAX),
            r == buf@.len(),
    {
        let n = buf.len();
        self.0 = if usize::MAX - self.0 >= n {
            self.0 + n
        } else {
            usize::MAX
        };
        n
    }

    /// Nothing is buffered, so flushing has nothing to do.
    pub fn flush(&self) {
    }
}

} // verus!
