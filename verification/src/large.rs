//! Arena key storage for the unbounded large size class.
//!
//! The key bytes are copied once, at insert time, into a shared bump arena;
//! the slot keeps the stable slice together with the hash computed at that
//! moment. The cached hash is reused directly on resize — large keys are
//! expensive to rehash, and one extra eight-byte field is negligible beside
//! a long key. Removed entries' arena bytes are never reclaimed
//! individually; they stay allocated until the arena itself is released, a
//! deliberate amortized-allocation trade-off.

use vstd::prelude::*;

use crate::common;

verus! {

#[verifier::external_type_specification]
#[verifier::external_body]
pub struct ExBump<const MIN_ALIGN: usize>(bumpalo::Bump<MIN_ALIGN>);

/// Copy `bytes` into the arena, returning a stable slice that lives as long
/// as the arena does.
///
/// Relies on `bumpalo::Bump::alloc_slice_copy`: it copies the source slice
/// into freshly reserved arena memory and returns that copy, so the result
/// holds exactly the input bytes. Like the standard collections, the arena
/// aborts rather than returns on allocation failure.
#[verifier::external_body]
pub(crate) fn arena_copy<'a>(arena: &'a bumpalo::Bump, bytes: &[u8]) -> (r: &'a [u8])
    ensures
        r@ == bytes@,
{
    arena.alloc_slice_copy(bytes)
}

/// A key of any length, stored as a stable slice into the shared arena,
/// beside its cached hash.
pub struct SlotData<'a> {
    pub hash: u64,
    pub key: &'a [u8],
}

impl<'a> SlotData<'a> {
    /// The stored key bytes.
    pub open spec fn spec_key(self) -> Seq<u8> {
        self.key@
    }

    /// The hash stored beside the key.
    pub open spec fn spec_hash(self) -> u64 {
        self.hash
    }

    /// Copy `key` into the arena and remember `hash` beside the new slice.
    pub fn new(arena: &'a bumpalo::Bump, key: &[u8], hash: u64) -> (r: Self)
        ensures
            r.spec_key() == key@,
            r.spec_hash() == hash,
    {
        SlotData { hash, key: arena_copy(arena, key) }
    }
}

impl<'a> common::SlotData for SlotData<'a> {
    open spec fn key_seq(&self) -> Seq<u8> {
        self.spec_key()
    }

    open spec fn wf(&self) -> bool {
        true
    }

    open spec fn cached_spec(&self) -> Option<u64> {
        Some(self.hash)
    }

    fn key_bytes<'s>(&'s self) -> (r: &'s [u8]) {
        self.key
    }

    fn cached_hash(&self) -> (r: Option<u64>) {
        Some(self.hash)
    }
}

/// A table keyed by arena-backed slices.
pub type StringMap<'a, T, H> = common::StringMap<SlotData<'a>, T, H>;

} // verus!
