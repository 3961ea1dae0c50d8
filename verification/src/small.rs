//! Inline key storage for the short size classes.
//!
//! The key bytes are copied into a fixed-capacity buffer of `N` bytes
//! embedded directly in the slot, with an explicit length — no separate
//! allocation. No hash is cached: rehashing a handful of inline bytes on
//! resize is cheaper than spending eight bytes per entry on a stored hash.

use vstd::prelude::*;
use vstd::slice::slice_subrange;

use crate::common;

verus! {

/// A key of at most `N` bytes, stored inline.
pub struct SlotData<const N: usize> {
    pub key: [u8; N],
    pub len: usize,
}

impl<const N: usize> SlotData<N> {
    /// The stored key bytes.
    pub open spec fn spec_key(self) -> Seq<u8> {
        self.key@.take(self.len as int)
    }

    /// The stored length fits the buffer.
    pub open spec fn spec_wf(self) -> bool {
        self.len <= N
    }

    /// Copy `key` into a fresh inline buffer.
    pub fn new(key: &[u8]) -> (r: Self)
        requires
            key@.len() <= N,
        ensures
            r.spec_wf(),
            r.spec_key() == key@,
    {
        let mut buf: [u8; N] = vstd::array::array_fill_for_copy_types(0u8);
        let n = key.len();
        let mut i: usize = 0;
        while i < n
            invariant
                i <= n,
                n == key@.len() <= N,
                buf@.len() == N,
                forall|j: int| 0 <= j < i ==> buf@[j] == key@[j],
            decreases n - i,
        {
            buf[i] = key[i];
            i = i + 1;
        }
        let r = SlotData { key: buf, len: n };
        proof {
            assert(r.spec_key() =~= key@);
        }
        r
    }
}

impl<const N: usize> common::SlotData for SlotData<N> {
    open spec fn key_seq(&self) -> Seq<u8> {
        self.spec_key()
    }

    open spec fn wf(&self) -> bool {
        self.spec_wf()
    }

    open spec fn cached_spec(&self) -> Option<u64> {
        None
    }

    fn key_bytes<'s>(&'s self) -> (r: &'s [u8]) {
        let whole = self.key.as_slice();
        slice_subrange(whole, 0, self.len)
    }

    fn cached_hash(&self) -> (r: Option<u64>) {
        None
    }
}

/// A table keyed by inline buffers of `N` bytes.
pub type StringMap<T, const N: usize, H> = common::StringMap<SlotData<N>, T, H>;

} // verus!
