//! A page-sized block of bytes that hands out views of its parts.
use vstd::prelude::*;

verus! {

pub const PAGE_SIZE: usize = 8000;

pub struct CacheCell {
    inner: Vec<u8>,
}

impl View for CacheCell {
    type V = Seq<u8>;

    closed spec fn view(&self) -> Seq<u8> {
        self.inner@
    }
}

impl CacheCell {
    /// A cell always holds one page of `PAGE_SIZE` bytes.
    #[verifier::type_invariant]
    spec fn holds_a_page(&self) -> bool {
        self.inner@.len() == PAGE_SIZE
    }

    /// A block of `PAGE_SIZE` zero bytes.
    pub fn new() -> (c: Self)
        ensures
            c@ == Seq::new(PAGE_SIZE as nat, |i: int| 0u8),
    {
        let c = CacheCell { inner: vec![0u8; PAGE_SIZE] };
        assert(c@ =~= Seq::new(PAGE_SIZE as nat, |i: int| 0u8));
        c
    }

    /// The `len` bytes from `start` on.
    pub fn get_slice(&self, start: usize, len: usize) -> (s: &[u8])
        requires
            start + len <= PAGE_SIZE,
        ensures
            self@.len() == PAGE_SIZE,
            s@ == self@.subrange(start as int, start + len),
    {
        proof {
            use_type_invariant(self);
            assert(self.inner@.len() == self.inner.len());
        }
        let end = start + len;
        vstd::slice::slice_subrange(self.inner.as_slice(), start, end)
    }
}

} // verus!
