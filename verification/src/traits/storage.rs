//! "Storage" functionality
//!
//! This trait defines how the "data" part of the ring buffer is stored: inline,
//! as an owned `[u8; N]` array, or on the heap, sized at run time.
use vstd::prelude::*;

verus! {

/// Access to the bytes of the ring. The number of bytes never changes.
pub trait Storage: Sized {
    /// The bytes currently stored.
    spec fn bytes(&self) -> Seq<u8>;

    /// The number of bytes in the ring.
    fn capacity(&self) -> (n: usize)
        ensures
            n == self.bytes().len(),
    ;

    /// The byte at index `i`.
    fn get_byte(&self, i: usize) -> (b: u8)
        requires
            i < self.bytes().len(),
        ensures
            b == self.bytes()[i as int],
    ;

    /// Overwrite the byte at index `i`; every other byte is kept.
    fn set_byte(&mut self, i: usize, b: u8)
        requires
            i < old(self).bytes().len(),
        ensures
            final(self).bytes() == old(self).bytes().update(i as int, b),
    ;
}

/// A marker trait for storage that can be created without arguments, which
/// allows creating a queue with [`crate::queue::BBQueue::new`].
pub trait ConstStorage: Storage {
    /// The number of bytes such storage holds.
    spec fn const_len() -> nat;

    /// Zeroed storage.
    fn init() -> (s: Self)
        ensures
            s.bytes().len() == Self::const_len(),
            forall|i: int| 0 <= i < s.bytes().len() ==> s.bytes()[i] == 0u8,
    ;
}

/// Inline, array-backed storage of `N` bytes.
pub struct Inline<const N: usize> {
    buf: [u8; N],
}

impl<const N: usize> Inline<N> {
    /// Zeroed storage of `N` bytes.
    pub fn new() -> (s: Self)
        ensures
            s.bytes().len() == N,
            forall|i: int| 0 <= i < N ==> s.bytes()[i] == 0u8,
    {
        Inline { buf: [0u8; N] }
    }
}

impl<const N: usize> Default for Inline<N> {
    fn default() -> (s: Self)
        ensures
            s.bytes().len() == N,
            forall|i: int| 0 <= i < N ==> s.bytes()[i] == 0u8,
    {
        Inline::new()
    }
}

impl<const N: usize> Storage for Inline<N> {
    closed spec fn bytes(&self) -> Seq<u8> {
        self.buf@
    }

    fn capacity(&self) -> (n: usize) {
        N
    }

    fn get_byte(&self, i: usize) -> (b: u8) {
        self.buf[i]
    }

    fn set_byte(&mut self, i: usize, b: u8) {
        self.buf[i] = b;
    }
}

impl<const N: usize> ConstStorage for Inline<N> {
    open spec fn const_len() -> nat {
        N as nat
    }

    fn init() -> (s: Self) {
        Inline::new()
    }
}

/// Heap-allocated storage, sized at run time.
pub struct BoxedSlice {
    buf: Vec<u8>,
}

impl BoxedSlice {
    /// Zeroed storage of `len` bytes.
    pub fn new(len: usize) -> (s: Self)
        ensures
            s.bytes().len() == len,
            forall|i: int| 0 <= i < len ==> s.bytes()[i] == 0u8,
    {
        let mut buf: Vec<u8> = Vec::new();
        let mut k: usize = 0;
        while k < len
            invariant
                k <= len,
                buf@.len() == k,
                forall|i: int| 0 <= i < k ==> buf@[i] == 0u8,
            decreases len - k,
        {
            buf.push(0u8);
            k = k + 1;
        }
        BoxedSlice { buf }
    }
}

impl Storage for BoxedSlice {
    closed spec fn bytes(&self) -> Seq<u8> {
        self.buf@
    }

    fn capacity(&self) -> (n: usize) {
        self.buf.len()
    }

    fn get_byte(&self, i: usize) -> (b: u8) {
        self.buf[i]
    }

    fn set_byte(&mut self, i: usize, b: u8) {
        self.buf.set(i, b);
    }
}

} // verus!
