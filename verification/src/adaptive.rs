//! The top-level adaptive map: classify each key by length alone and route
//! the operation to the table tuned for that size class.
//!
//! Zero-length keys occupy a single optional slot and are never hashed; keys
//! of one to 24 bytes go to one of three inline-buffer tables; longer keys
//! go to the arena-backed table. Every public operation classifies the key
//! once, hashes it at most once, and performs exactly one probe sequence in
//! exactly one underlying table.

use vstd::map::*;
use vstd::prelude::*;

use crate::hasher::FnvHasher;
use crate::hasher::KeyHasher;
use crate::large;
use crate::small;

verus! {

/// A borrowed, classified view of a caller's key: which size class the key
/// falls in, decided by byte length alone, never by content.
#[derive(Debug, Clone, Copy)]
pub enum KeyRef<'a> {
    /// The zero-length key.
    Empty,
    /// One to eight bytes.
    S8(&'a [u8]),
    /// Nine to sixteen bytes.
    S16(&'a [u8]),
    /// Seventeen to twenty-four bytes.
    S24(&'a [u8]),
    /// More than twenty-four bytes.
    Large(&'a [u8]),
}

impl<'a> KeyRef<'a> {
    /// The key bytes this classification refers to.
    pub open spec fn spec_key(self) -> Seq<u8> {
        match self {
            KeyRef::Empty => Seq::empty(),
            KeyRef::S8(k) => k@,
            KeyRef::S16(k) => k@,
            KeyRef::S24(k) => k@,
            KeyRef::Large(k) => k@,
        }
    }

    /// The variant matches the length of the bytes it carries.
    pub open spec fn wf(self) -> bool {
        match self {
            KeyRef::Empty => true,
            KeyRef::S8(k) => 1 <= k@.len() <= 8,
            KeyRef::S16(k) => 8 < k@.len() <= 16,
            KeyRef::S24(k) => 16 < k@.len() <= 24,
            KeyRef::Large(k) => 24 < k@.len(),
        }
    }

    /// The underlying key bytes.
    pub fn key(&self) -> (r: &[u8])
        ensures
            r@ == self.spec_key(),
    {
        match self {
            KeyRef::Empty => {
                let r: &[u8] = &[];
                proof {
                    assert(r@ =~= Seq::<u8>::empty());
                }
                r
            },
            KeyRef::S8(key) => key,
            KeyRef::S16(key) => key,
            KeyRef::S24(key) => key,
            KeyRef::Large(key) => key,
        }
    }

    /// Classify a byte string purely by its length:
    /// empty, 1–8, 9–16, 17–24, or more than 24 bytes.
    pub fn classify(key: &'a [u8]) -> (r: KeyRef<'a>)
        ensures
            r.wf(),
            r.spec_key() == key@,
            (r is Empty <==> key@.len() == 0),
            (r is S8 <==> 1 <= key@.len() <= 8),
            (r is S16 <==> 8 < key@.len() <= 16),
            (r is S24 <==> 16 < key@.len() <= 24),
            (r is Large <==> 24 < key@.len()),
    {
        let len = key.len();
        if len == 0 {
            KeyRef::Empty
        } else if len <= 8 {
            KeyRef::S8(key)
        } else if len <= 16 {
            KeyRef::S16(key)
        } else if len <= 24 {
            KeyRef::S24(key)
        } else {
            KeyRef::Large(key)
        }
    }
}

/// The adaptive map: one optional slot for the zero-length key, four
/// class-specific tables, the hasher they all share, and the arena that
/// stores large keys. The arena must outlive the map.
pub struct StringMap<'a, T, H> {
    none_key: Option<T>,
    small8: small::StringMap<T, 8, H>,
    small16: small::StringMap<T, 16, H>,
    small24: small::StringMap<T, 24, H>,
    large: large::StringMap<'a, T, H>,
    hasher: H,
    key_alloc: &'a bumpalo::Bump,
}

impl<'a, T, H: KeyHasher> View for StringMap<'a, T, H> {
    type V = Map<Seq<u8>, T>;

    /// The association this map holds: the union of the empty-key slot and
    /// the four class tables, each read only for keys of its own length
    /// range.
    closed spec fn view(&self) -> Map<Seq<u8>, T> {
        Map::new(
            |k: Seq<u8>|
                if k.len() == 0 {
                    self.none_key is Some
                } else if k.len() <= 8 {
                    self.small8@.dom().contains(k)
                } else if k.len() <= 16 {
                    self.small16@.dom().contains(k)
                } else if k.len() <= 24 {
                    self.small24@.dom().contains(k)
                } else {
                    self.large@.dom().contains(k)
                },
            |k: Seq<u8>|
                if k.len() == 0 {
                    self.none_key->0
                } else if k.len() <= 8 {
                    self.small8@[k]
                } else if k.len() <= 16 {
                    self.small16@[k]
                } else if k.len() <= 24 {
                    self.small24@[k]
                } else {
                    self.large@[k]
                },
        )
    }
}

impl<'a, T, H: KeyHasher> StringMap<'a, T, H> {
    /// Every table is well formed, agrees with the shared hasher, and holds
    /// only keys of its own length range.
    pub closed spec fn inv(self) -> bool {
        &&& self.small8.inv() && self.small8.spec_hasher() == self.hasher
        &&& self.small16.inv() && self.small16.spec_hasher() == self.hasher
        &&& self.small24.inv() && self.small24.spec_hasher() == self.hasher
        &&& self.large.inv() && self.large.spec_hasher() == self.hasher
        &&& forall|k: Seq<u8>| #[trigger] self.small8@.dom().contains(k) ==> 1 <= k.len() <= 8
        &&& forall|k: Seq<u8>| #[trigger] self.small16@.dom().contains(k) ==> 8 < k.len() <= 16
        &&& forall|k: Seq<u8>| #[trigger] self.small24@.dom().contains(k) ==> 16 < k.len() <= 24
        &&& forall|k: Seq<u8>| #[trigger] self.large@.dom().contains(k) ==> 24 < k.len()
    }

    /// The number of stored entries, summed over the empty-key slot and the
    /// four class tables.
    pub closed spec fn spec_len(self) -> nat {
        (if self.none_key is Some {
            1nat
        } else {
            0nat
        }) + self.small8.spec_len() + self.small16.spec_len() + self.small24.spec_len()
            + self.large.spec_len()
    }

    /// The hasher this map was built with.
    pub closed spec fn spec_hasher(self) -> H {
        self.hasher
    }

    /// The hash this map associates with a key: its hasher's, a function of
    /// the bytes alone — never of the size class they were routed to.
    pub open spec fn hash_of(self, k: Seq<u8>) -> u64 {
        self.spec_hasher().hash_spec(k)
    }

    /// Replacing the empty-key slot updates the association at the empty
    /// key alone, in any state whose other components are unchanged.
    proof fn lemma_route_none(pre: Self, v: Option<T>)
        ensures
            forall|post: Self|
                ((#[trigger] post.none_key) == v && post.small8 == pre.small8 && post.small16
                    == pre.small16 && post.small24 == pre.small24 && post.large == pre.large)
                    ==> post@ == (match v {
                    Some(x) => pre@.insert(Seq::empty(), x),
                    None => pre@.remove(Seq::empty()),
                }),
    {
        assert forall|post: Self|
            ((#[trigger] post.none_key) == v && post.small8 == pre.small8 && post.small16
                == pre.small16 && post.small24 == pre.small24 && post.large == pre.large) implies post@
            == (match v {
            Some(x) => pre@.insert(Seq::empty(), x),
            None => pre@.remove(Seq::empty()),
        }) by {
            if v is Some {
                assert_maps_equal!(post@, pre@.insert(Seq::empty(), v->0), q => {
                    if q.len() == 0 {
                        assert(q =~= Seq::<u8>::empty());
                    }
                });
            } else {
                assert_maps_equal!(post@, pre@.remove(Seq::empty()), q => {
                    if q.len() == 0 {
                        assert(q =~= Seq::<u8>::empty());
                    }
                });
            }
        }
    }

    /// Updating the 1–8 byte table at a key of that class updates the map's
    /// association at that key alone, in any state whose other components
    /// are unchanged.
    proof fn lemma_route8(pre: Self, m: Map<Seq<u8>, T>, k: Seq<u8>, v: Option<T>)
        requires
            1 <= k.len() <= 8,
            m == (match v {
                Some(x) => pre.small8@.insert(k, x),
                None => pre.small8@.remove(k),
            }),
        ensures
            forall|post: Self|
                ((#[trigger] post.small8)@ == m && post.none_key == pre.none_key && post.small16
                    == pre.small16 && post.small24 == pre.small24 && post.large == pre.large)
                    ==> post@ == (match v {
                    Some(x) => pre@.insert(k, x),
                    None => pre@.remove(k),
                }),
    {
        assert forall|post: Self|
            ((#[trigger] post.small8)@ == m && post.none_key == pre.none_key && post.small16
                == pre.small16 && post.small24 == pre.small24 && post.large == pre.large) implies post@
            == (match v {
            Some(x) => pre@.insert(k, x),
            None => pre@.remove(k),
        }) by {
            if v is Some {
                assert_maps_equal!(post@, pre@.insert(k, v->0), q => {});
            } else {
                assert_maps_equal!(post@, pre@.remove(k), q => {});
            }
        }
    }

    /// As `lemma_route8`, for the 9–16 byte table.
    proof fn lemma_route16(pre: Self, m: Map<Seq<u8>, T>, k: Seq<u8>, v: Option<T>)
        requires
            8 < k.len() <= 16,
            m == (match v {
                Some(x) => pre.small16@.insert(k, x),
                None => pre.small16@.remove(k),
            }),
        ensures
            forall|post: Self|
                ((#[trigger] post.small16)@ == m && post.none_key == pre.none_key && post.small8
                    == pre.small8 && post.small24 == pre.small24 && post.large == pre.large)
                    ==> post@ == (match v {
                    Some(x) => pre@.insert(k, x),
                    None => pre@.remove(k),
                }),
    {
        assert forall|post: Self|
            ((#[trigger] post.small16)@ == m && post.none_key == pre.none_key && post.small8
                == pre.small8 && post.small24 == pre.small24 && post.large == pre.large) implies post@
            == (match v {
            Some(x) => pre@.insert(k, x),
            None => pre@.remove(k),
        }) by {
            if v is Some {
                assert_maps_equal!(post@, pre@.insert(k, v->0), q => {});
            } else {
                assert_maps_equal!(post@, pre@.remove(k), q => {});
            }
        }
    }

    /// As `lemma_route8`, for the 17–24 byte table.
    proof fn lemma_route24(pre: Self, m: Map<Seq<u8>, T>, k: Seq<u8>, v: Option<T>)
        requires
            16 < k.len() <= 24,
            m == (match v {
                Some(x) => pre.small24@.insert(k, x),
                None => pre.small24@.remove(k),
            }),
        ensures
            forall|post: Self|
                ((#[trigger] post.small24)@ == m && post.none_key == pre.none_key && post.small8
                    == pre.small8 && post.small16 == pre.small16 && post.large == pre.large)
                    ==> post@ == (match v {
                    Some(x) => pre@.insert(k, x),
                    None => pre@.remove(k),
                }),
    {
        assert forall|post: Self|
            ((#[trigger] post.small24)@ == m && post.none_key == pre.none_key && post.small8
                == pre.small8 && post.small16 == pre.small16 && post.large == pre.large) implies post@
            == (match v {
            Some(x) => pre@.insert(k, x),
            None => pre@.remove(k),
        }) by {
            if v is Some {
                assert_maps_equal!(post@, pre@.insert(k, v->0), q => {});
            } else {
                assert_maps_equal!(post@, pre@.remove(k), q => {});
            }
        }
    }

    /// As `lemma_route8`, for the large-key table.
    proof fn lemma_route_large(pre: Self, m: Map<Seq<u8>, T>, k: Seq<u8>, v: Option<T>)
        requires
            24 < k.len(),
            m == (match v {
                Some(x) => pre.large@.insert(k, x),
                None => pre.large@.remove(k),
            }),
        ensures
            forall|post: Self|
                ((#[trigger] post.large)@ == m && post.none_key == pre.none_key && post.small8
                    == pre.small8 && post.small16 == pre.small16 && post.small24 == pre.small24)
                    ==> post@ == (match v {
                    Some(x) => pre@.insert(k, x),
                    None => pre@.remove(k),
                }),
    {
        assert forall|post: Self|
            ((#[trigger] post.large)@ == m && post.none_key == pre.none_key && post.small8
                == pre.small8 && post.small16 == pre.small16 && post.small24 == pre.small24) implies post@
            == (match v {
            Some(x) => pre@.insert(k, x),
            None => pre@.remove(k),
        }) by {
            if v is Some {
                assert_maps_equal!(post@, pre@.insert(k, v->0), q => {});
            } else {
                assert_maps_equal!(post@, pre@.remove(k), q => {});
            }
        }
    }

    /// An empty map over the given hasher and arena.
    pub fn with_hasher(hasher: H, key_alloc: &'a bumpalo::Bump) -> (r: Self)
        ensures
            r.inv(),
            r@ == Map::<Seq<u8>, T>::empty(),
            r.spec_len() == 0,
            r.spec_hasher() == hasher,
    {
        let small8 = small::StringMap::<T, 8, H>::new(&hasher);
        let small16 = small::StringMap::<T, 16, H>::new(&hasher);
        let small24 = small::StringMap::<T, 24, H>::new(&hasher);
        let large = large::StringMap::<'a, T, H>::new(&hasher);
        let r = StringMap { none_key: None, small8, small16, small24, large, hasher, key_alloc };
        proof {
            assert(r.small8@ == Map::<Seq<u8>, T>::empty());
            assert(r.none_key is None);
            assert_maps_equal!(r@, Map::<Seq<u8>, T>::empty(), q => {
                assert(!Map::<Seq<u8>, T>::empty().dom().contains(q));
                assert(!r.small8@.dom().contains(q));
                assert(!r.small16@.dom().contains(q));
                assert(!r.small24@.dom().contains(q));
                assert(!r.large@.dom().contains(q));
            });
        }
        r
    }

    /// The hasher this map was built with.
    pub fn hasher(&self) -> (r: &H)
        ensures
            *r == self.spec_hasher(),
    {
        &self.hasher
    }

    /// The number of stored entries across all five classes.
    pub fn len(&self) -> (r: usize)
        requires
            self.inv(),
            self.spec_len() <= usize::MAX,
        ensures
            r == self.spec_len(),
    {
        let none_count: usize = if self.none_key.is_some() {
            1
        } else {
            0
        };
        none_count + self.small8.len() + self.small16.len() + self.small24.len()
            + self.large.len()
    }

    /// Whether the map stores nothing at all.
    #[must_use]
    pub fn is_empty(&self) -> (r: bool)
        requires
            self.inv(),
        ensures
            r <==> self.spec_len() == 0,
    {
        self.none_key.is_none() && self.small8.is_empty() && self.small16.is_empty()
            && self.small24.is_empty() && self.large.is_empty()
    }

    /// Look up a value with a caller-supplied hash. The hash must be this
    /// map's hash of the key bytes; supplying a mismatched hash is an
    /// unchecked caller error, excluded here by precondition.
    pub fn get_hashed(&self, key: KeyRef, hash: u64) -> (r: Option<&T>)
        requires
            self.inv(),
            key.wf(),
            hash == self.hash_of(key.spec_key()),
        ensures
            match r {
                Some(v) => self@.dom().contains(key.spec_key()) && *v == self@[key.spec_key()],
                None => !self@.dom().contains(key.spec_key()),
            },
    {
        match key {
            KeyRef::Empty => self.none_key.as_ref(),
            KeyRef::S8(k) => {
                proof {
                    self.small8.lemma_hash_spec(k@);
                }
                self.small8.get(k, hash)
            },
            KeyRef::S16(k) => {
                proof {
                    self.small16.lemma_hash_spec(k@);
                }
                self.small16.get(k, hash)
            },
            KeyRef::S24(k) => {
                proof {
                    self.small24.lemma_hash_spec(k@);
                }
                self.small24.get(k, hash)
            },
            KeyRef::Large(k) => {
                proof {
                    self.large.lemma_hash_spec(k@);
                }
                self.large.get(k, hash)
            },
        }
    }

    /// Nothing changes in the association when every component keeps its
    /// contents, whatever the concrete representation became.
    proof fn lemma_route_keep(pre: Self)
        ensures
            forall|post: Self|
                ((#[trigger] post.none_key) == pre.none_key && post.small8@ == pre.small8@
                    && post.small16@ == pre.small16@ && post.small24@ == pre.small24@
                    && post.large@ == pre.large@) ==> post@ == pre@,
    {
        assert forall|post: Self|
            ((#[trigger] post.none_key) == pre.none_key && post.small8@ == pre.small8@
                && post.small16@ == pre.small16@ && post.small24@ == pre.small24@
                && post.large@ == pre.large@) implies post@ == pre@ by {
            assert_maps_equal!(post@, pre@, q => {});
        }
    }

    /// Insert or overwrite with a caller-supplied hash, returning the
    /// previously stored value if the key was present.
    pub fn insert_hashed(&mut self, key: KeyRef, hash: u64, value: T) -> (r: Option<T>)
        requires
            old(self).inv(),
            key.wf(),
            hash == old(self).hash_of(key.spec_key()),
            old(self).spec_len() + 1 <= usize::MAX / 3,
        ensures
            final(self).inv(),
            final(self)@ == old(self)@.insert(key.spec_key(), value),
            final(self).spec_hasher() == old(self).spec_hasher(),
            match r {
                Some(prev) => old(self)@.dom().contains(key.spec_key()) && prev == old(
                    self,
                )@[key.spec_key()] && final(self).spec_len() == old(self).spec_len(),
                None => !old(self)@.dom().contains(key.spec_key()) && final(self).spec_len()
                    == old(self).spec_len() + 1,
            },
    {
        let ghost pre = *self;
        match key {
            KeyRef::Empty => {
                let mut tmp = Some(value);
                core::mem::swap(&mut self.none_key, &mut tmp);
                proof {
                    Self::lemma_route_none(pre, Some(value));
                    assert(key.spec_key() =~= Seq::<u8>::empty());
                }
                tmp
            },
            KeyRef::S8(kb) => {
                proof {
                    self.small8.lemma_hash_spec(kb@);
                }
                let d = small::SlotData::<8>::new(kb);
                let r = self.small8.insert(d, hash, value, &self.hasher);
                proof {
                    Self::lemma_route8(pre, self.small8@, kb@, Some(value));
                }
                r
            },
            KeyRef::S16(kb) => {
                proof {
                    self.small16.lemma_hash_spec(kb@);
                }
                let d = small::SlotData::<16>::new(kb);
                let r = self.small16.insert(d, hash, value, &self.hasher);
                proof {
                    Self::lemma_route16(pre, self.small16@, kb@, Some(value));
                }
                r
            },
            KeyRef::S24(kb) => {
                proof {
                    self.small24.lemma_hash_spec(kb@);
                }
                let d = small::SlotData::<24>::new(kb);
                let r = self.small24.insert(d, hash, value, &self.hasher);
                proof {
                    Self::lemma_route24(pre, self.small24@, kb@, Some(value));
                }
                r
            },
            KeyRef::Large(kb) => {
                proof {
                    self.large.lemma_hash_spec(kb@);
                }
                let d = large::SlotData::new(self.key_alloc, kb, hash);
                let r = self.large.insert(d, hash, value, &self.hasher);
                proof {
                    Self::lemma_route_large(pre, self.large@, kb@, Some(value));
                }
                r
            },
        }
    }

    /// Insert or overwrite, hashing the key here.
    pub fn insert(&mut self, key: KeyRef, value: T) -> (r: Option<T>)
        requires
            old(self).inv(),
            key.wf(),
            old(self).spec_len() + 1 <= usize::MAX / 3,
        ensures
            final(self).inv(),
            final(self)@ == old(self)@.insert(key.spec_key(), value),
            final(self).spec_hasher() == old(self).spec_hasher(),
            match r {
                Some(prev) => old(self)@.dom().contains(key.spec_key()) && prev == old(
                    self,
                )@[key.spec_key()] && final(self).spec_len() == old(self).spec_len(),
                None => !old(self)@.dom().contains(key.spec_key()) && final(self).spec_len()
                    == old(self).spec_len() + 1,
            },
    {
        let hash = self.hasher.hash(key.key());
        self.insert_hashed(key, hash, value)
    }

    /// Remove with a caller-supplied hash, returning the removed value.
    pub fn remove_hashed(&mut self, key: KeyRef, hash: u64) -> (r: Option<T>)
        requires
            old(self).inv(),
            key.wf(),
            hash == old(self).hash_of(key.spec_key()),
        ensures
            final(self).inv(),
            final(self)@ == old(self)@.remove(key.spec_key()),
            final(self).spec_hasher() == old(self).spec_hasher(),
            match r {
                Some(prev) => old(self)@.dom().contains(key.spec_key()) && prev == old(
                    self,
                )@[key.spec_key()] && final(self).spec_len() + 1 == old(self).spec_len(),
                None => !old(self)@.dom().contains(key.spec_key()) && final(self).spec_len()
                    == old(self).spec_len(),
            },
    {
        let ghost pre = *self;
        match key {
            KeyRef::Empty => {
                let r = self.none_key.take();
                proof {
                    Self::lemma_route_none(pre, None);
                    assert(key.spec_key() =~= Seq::<u8>::empty());
                }
                r
            },
            KeyRef::S8(kb) => {
                proof {
                    self.small8.lemma_hash_spec(kb@);
                }
                let r = self.small8.remove(kb, hash, &self.hasher);
                proof {
                    Self::lemma_route8(pre, self.small8@, kb@, None);
                }
                r
            },
            KeyRef::S16(kb) => {
                proof {
                    self.small16.lemma_hash_spec(kb@);
                }
                let r = self.small16.remove(kb, hash, &self.hasher);
                proof {
                    Self::lemma_route16(pre, self.small16@, kb@, None);
                }
                r
            },
            KeyRef::S24(kb) => {
                proof {
                    self.small24.lemma_hash_spec(kb@);
                }
                let r = self.small24.remove(kb, hash, &self.hasher);
                proof {
                    Self::lemma_route24(pre, self.small24@, kb@, None);
                }
                r
            },
            KeyRef::Large(kb) => {
                proof {
                    self.large.lemma_hash_spec(kb@);
                }
                let r = self.large.remove(kb, hash, &self.hasher);
                proof {
                    Self::lemma_route_large(pre, self.large@, kb@, None);
                }
                r
            },
        }
    }

    /// Remove, hashing the key here.
    pub fn remove(&mut self, key: KeyRef) -> (r: Option<T>)
        requires
            old(self).inv(),
            key.wf(),
        ensures
            final(self).inv(),
            final(self)@ == old(self)@.remove(key.spec_key()),
            final(self).spec_hasher() == old(self).spec_hasher(),
            match r {
                Some(prev) => old(self)@.dom().contains(key.spec_key()) && prev == old(
                    self,
                )@[key.spec_key()] && final(self).spec_len() + 1 == old(self).spec_len(),
                None => !old(self)@.dom().contains(key.spec_key()) && final(self).spec_len()
                    == old(self).spec_len(),
            },
    {
        let hash = self.hasher.hash(key.key());
        self.remove_hashed(key, hash)
    }

    /// Look up a mutable reference with a caller-supplied hash. The map's
    /// shape is untouched; only the referenced value may change.
    pub fn get_mut_hashed(&mut self, key: KeyRef, hash: u64) -> (r: Option<&mut T>)
        requires
            old(self).inv(),
            key.wf(),
            hash == old(self).hash_of(key.spec_key()),
        ensures
            match r {
                Some(v) => old(self)@.dom().contains(key.spec_key()) && *v == old(
                    self,
                )@[key.spec_key()] && final(self).inv()
                    && final(self)@ == old(self)@.insert(key.spec_key(), *final(v))
                    && final(self).spec_len() == old(self).spec_len()
                    && final(self).spec_hasher() == old(self).spec_hasher(),
                None => !old(self)@.dom().contains(key.spec_key()) && final(self).inv()
                    && final(self)@ == old(self)@
                    && final(self).spec_len() == old(self).spec_len()
                    && final(self).spec_hasher() == old(self).spec_hasher(),
            },
    {
        let ghost pre = *self;
        match key {
            KeyRef::Empty => {
                match self.none_key.as_mut() {
                    Some(v) => {
                        proof {
                            Self::lemma_route_none(pre, Some(*final(v)));
                            assert(key.spec_key() =~= Seq::<u8>::empty());
                        }
                        Some(v)
                    },
                    None => {
                        proof {
                            Self::lemma_route_keep(pre);
                        }
                        None
                    },
                }
            },
            KeyRef::S8(kb) => {
                proof {
                    self.small8.lemma_hash_spec(kb@);
                }
                match self.small8.get_mut(kb, hash) {
                    Some(v) => {
                        proof {
                            Self::lemma_route8(
                                pre,
                                pre.small8@.insert(kb@, *final(v)),
                                kb@,
                                Some(*final(v)),
                            );
                        }
                        Some(v)
                    },
                    None => {
                        proof {
                            Self::lemma_route_keep(pre);
                        }
                        None
                    },
                }
            },
            KeyRef::S16(kb) => {
                proof {
                    self.small16.lemma_hash_spec(kb@);
                }
                match self.small16.get_mut(kb, hash) {
                    Some(v) => {
                        proof {
                            Self::lemma_route16(
                                pre,
                                pre.small16@.insert(kb@, *final(v)),
                                kb@,
                                Some(*final(v)),
                            );
                        }
                        Some(v)
                    },
                    None => {
                        proof {
                            Self::lemma_route_keep(pre);
                        }
                        None
                    },
                }
            },
            KeyRef::S24(kb) => {
                proof {
                    self.small24.lemma_hash_spec(kb@);
                }
                match self.small24.get_mut(kb, hash) {
                    Some(v) => {
                        proof {
                            Self::lemma_route24(
                                pre,
                                pre.small24@.insert(kb@, *final(v)),
                                kb@,
                                Some(*final(v)),
                            );
                        }
                        Some(v)
                    },
                    None => {
                        proof {
                            Self::lemma_route_keep(pre);
                        }
                        None
                    },
                }
            },
            KeyRef::Large(kb) => {
                proof {
                    self.large.lemma_hash_spec(kb@);
                }
                match self.large.get_mut(kb, hash) {
                    Some(v) => {
                        proof {
                            Self::lemma_route_large(
                                pre,
                                pre.large@.insert(kb@, *final(v)),
                                kb@,
                                Some(*final(v)),
                            );
                        }
                        Some(v)
                    },
                    None => {
                        proof {
                            Self::lemma_route_keep(pre);
                        }
                        None
                    },
                }
            },
        }
    }

    /// Look up a mutable reference, hashing the key here.
    pub fn get_mut(&mut self, key: KeyRef) -> (r: Option<&mut T>)
        requires
            old(self).inv(),
            key.wf(),
        ensures
            match r {
                Some(v) => old(self)@.dom().contains(key.spec_key()) && *v == old(
                    self,
                )@[key.spec_key()] && final(self).inv()
                    && final(self)@ == old(self)@.insert(key.spec_key(), *final(v))
                    && final(self).spec_len() == old(self).spec_len()
                    && final(self).spec_hasher() == old(self).spec_hasher(),
                None => !old(self)@.dom().contains(key.spec_key()) && final(self).inv()
                    && final(self)@ == old(self)@
                    && final(self).spec_len() == old(self).spec_len()
                    && final(self).spec_hasher() == old(self).spec_hasher(),
            },
    {
        let hash = self.hasher.hash(key.key());
        self.get_mut_hashed(key, hash)
    }

    /// If the key is absent, insert it with `value` and return nothing. If
    /// it is present, leave the stored value untouched and hand back a
    /// mutable reference to it together with the rejected `value`, so an
    /// aggregation can merge without a second lookup.
    pub fn try_insert_hashed(&mut self, key: KeyRef, hash: u64, value: T) -> (r: Option<
        (&mut T, T),
    >)
        requires
            old(self).inv(),
            key.wf(),
            hash == old(self).hash_of(key.spec_key()),
            old(self).spec_len() + 1 <= usize::MAX / 3,
        ensures
            match r {
                Some(pair) => old(self)@.dom().contains(key.spec_key()) && *pair.0 == old(
                    self,
                )@[key.spec_key()] && pair.1 == value && final(self).inv()
                    && final(self)@ == old(self)@.insert(key.spec_key(), *final(pair.0))
                    && final(self).spec_len() == old(self).spec_len()
                    && final(self).spec_hasher() == old(self).spec_hasher(),
                None => !old(self)@.dom().contains(key.spec_key()) && final(self).inv()
                    && final(self)@ == old(self)@.insert(key.spec_key(), value)
                    && final(self).spec_len() == old(self).spec_len() + 1
                    && final(self).spec_hasher() == old(self).spec_hasher(),
            },
    {
        let ghost pre = *self;
        match key {
            KeyRef::Empty => {
                proof {
                    assert(key.spec_key() =~= Seq::<u8>::empty());
                }
                if self.none_key.is_some() {
                    match &mut self.none_key {
                        Some(s) => {
                            proof {
                                Self::lemma_route_none(pre, Some(*final(s)));
                            }
                            Some((s, value))
                        },
                        None => {
                            proof {
                                assert(false);
                            }
                            unreached()
                        },
                    }
                } else {
                    self.none_key = Some(value);
                    proof {
                        Self::lemma_route_none(pre, Some(value));
                    }
                    None
                }
            },
            KeyRef::S8(kb) => {
                proof {
                    self.small8.lemma_hash_spec(kb@);
                }
                let d = small::SlotData::<8>::new(kb);
                match self.small8.try_insert(d, hash, value, &self.hasher) {
                    Some(pair) => {
                        let (v, rej) = pair;
                        proof {
                            Self::lemma_route8(
                                pre,
                                pre.small8@.insert(kb@, *final(v)),
                                kb@,
                                Some(*final(v)),
                            );
                        }
                        Some((v, rej))
                    },
                    None => {
                        proof {
                            Self::lemma_route8(pre, pre.small8@.insert(kb@, value), kb@, Some(value));
                        }
                        None
                    },
                }
            },
            KeyRef::S16(kb) => {
                proof {
                    self.small16.lemma_hash_spec(kb@);
                }
                let d = small::SlotData::<16>::new(kb);
                match self.small16.try_insert(d, hash, value, &self.hasher) {
                    Some(pair) => {
                        let (v, rej) = pair;
                        proof {
                            Self::lemma_route16(
                                pre,
                                pre.small16@.insert(kb@, *final(v)),
                                kb@,
                                Some(*final(v)),
                            );
                        }
                        Some((v, rej))
                    },
                    None => {
                        proof {
                            Self::lemma_route16(
                                pre,
                                pre.small16@.insert(kb@, value),
                                kb@,
                                Some(value),
                            );
                        }
                        None
                    },
                }
            },
            KeyRef::S24(kb) => {
                proof {
                    self.small24.lemma_hash_spec(kb@);
                }
                let d = small::SlotData::<24>::new(kb);
                match self.small24.try_insert(d, hash, value, &self.hasher) {
                    Some(pair) => {
                        let (v, rej) = pair;
                        proof {
                            Self::lemma_route24(
                                pre,
                                pre.small24@.insert(kb@, *final(v)),
                                kb@,
                                Some(*final(v)),
                            );
                        }
                        Some((v, rej))
                    },
                    None => {
                        proof {
                            Self::lemma_route24(
                                pre,
                                pre.small24@.insert(kb@, value),
                                kb@,
                                Some(value),
                            );
                        }
                        None
                    },
                }
            },
            KeyRef::Large(kb) => {
                proof {
                    self.large.lemma_hash_spec(kb@);
                }
                let d = large::SlotData::new(self.key_alloc, kb, hash);
                match self.large.try_insert(d, hash, value, &self.hasher) {
                    Some(pair) => {
                        let (v, rej) = pair;
                        proof {
                            Self::lemma_route_large(
                                pre,
                                pre.large@.insert(kb@, *final(v)),
                                kb@,
                                Some(*final(v)),
                            );
                        }
                        Some((v, rej))
                    },
                    None => {
                        proof {
                            Self::lemma_route_large(
                                pre,
                                pre.large@.insert(kb@, value),
                                kb@,
                                Some(value),
                            );
                        }
                        None
                    },
                }
            },
        }
    }

    /// As `try_insert_hashed`, hashing the key here.
    pub fn try_insert(&mut self, key: KeyRef, value: T) -> (r: Option<(&mut T, T)>)
        requires
            old(self).inv(),
            key.wf(),
            old(self).spec_len() + 1 <= usize::MAX / 3,
        ensures
            match r {
                Some(pair) => old(self)@.dom().contains(key.spec_key()) && *pair.0 == old(
                    self,
                )@[key.spec_key()] && pair.1 == value && final(self).inv()
                    && final(self)@ == old(self)@.insert(key.spec_key(), *final(pair.0))
                    && final(self).spec_len() == old(self).spec_len()
                    && final(self).spec_hasher() == old(self).spec_hasher(),
                None => !old(self)@.dom().contains(key.spec_key()) && final(self).inv()
                    && final(self)@ == old(self)@.insert(key.spec_key(), value)
                    && final(self).spec_len() == old(self).spec_len() + 1
                    && final(self).spec_hasher() == old(self).spec_hasher(),
            },
    {
        let hash = self.hasher.hash(key.key());
        self.try_insert_hashed(key, hash, value)
    }

    /// Look up a value, hashing the key here.
    pub fn get(&self, key: KeyRef) -> (r: Option<&T>)
        requires
            self.inv(),
            key.wf(),
        ensures
            match r {
                Some(v) => self@.dom().contains(key.spec_key()) && *v == self@[key.spec_key()],
                None => !self@.dom().contains(key.spec_key()),
            },
    {
        let hash = self.hasher.hash(key.key());
        self.get_hashed(key, hash)
    }
}

/// Inserting a key twice stores the last value: after `insert(k, v1)` the
/// association holds `v1` at `k` — which a second insert of `v2` therefore
/// reports as the previous value — and afterwards it holds `v2`.
pub proof fn lemma_insert_overwrites<T>(m: Map<Seq<u8>, T>, k: Seq<u8>, v1: T, v2: T)
    ensures
        m.insert(k, v1).dom().contains(k),
        m.insert(k, v1)[k] == v1,
        m.insert(k, v1).insert(k, v2).dom().contains(k),
        m.insert(k, v1).insert(k, v2)[k] == v2,
{
}

/// Re-storing the value a key already holds changes nothing: a `try_insert`
/// that hits an existing entry and leaves it unmodified keeps the whole
/// association as it was.
pub proof fn lemma_reinsert_same<T>(m: Map<Seq<u8>, T>, k: Seq<u8>)
    requires
        m.dom().contains(k),
    ensures
        m.insert(k, m[k]) == m,
{
    assert_maps_equal!(m.insert(k, m[k]), m, q => {});
}

/// After a removal the key is gone — a following lookup misses — while the
/// association at every other key is untouched.
pub proof fn lemma_remove_then_get<T>(m: Map<Seq<u8>, T>, k: Seq<u8>)
    ensures
        !m.remove(k).dom().contains(k),
        forall|q: Seq<u8>|
            q != k && m.dom().contains(q) ==> #[trigger] m.remove(k).dom().contains(q) && m.remove(
                k,
            )[q] == m[q],
{
}

/// The hash of a key depends on its bytes alone: two classifications
/// carrying the same bytes hash identically, whichever size classes they
/// fall into.
pub proof fn lemma_hash_class_independent<'x, 'y, H: KeyHasher>(h: H, a: KeyRef<'x>, b: KeyRef<'y>)
    requires
        a.spec_key() == b.spec_key(),
    ensures
        h.hash_spec(a.spec_key()) == h.hash_spec(b.spec_key()),
{
}

impl<'a, T, H: KeyHasher> StringMap<'a, T, H> {
    /// Consume the map and hand back every stored pair, keys copied into
    /// owned buffers, chaining the five classes in the fixed order: the
    /// empty key first, then the 1-8, 9-16 and 17-24 byte tables, then the
    /// large keys. Within a class the order is that class's slot order:
    /// deterministic for a fixed state, but not meaningful.
    #[verifier::rlimit(100)]
    #[verifier::spinoff_prover]
    pub fn into_pairs(self) -> (r: Vec<(Vec<u8>, T)>)
        requires
            self.inv(),
        ensures
            r@.len() == self.spec_len(),
            forall|t: int|
                0 <= t < r@.len() ==> self@.dom().contains(#[trigger] r@[t].0@) && r@[t].1
                    == self@[r@[t].0@],
            forall|t: int, u: int|
                #![trigger r@[t].0@, r@[u].0@]
                0 <= t < u < r@.len() ==> r@[t].0@ != r@[u].0@,
            forall|k: Seq<u8>|
                #[trigger] self@.dom().contains(k) ==> exists|t: int|
                    0 <= t < r@.len() && r@[t].0@ == k,
    {
        let ghost pre = self;
        let StringMap { none_key, small8, small16, small24, large, hasher, key_alloc } = self;
        let mut out: Vec<(Vec<u8>, T)> = Vec::new();
        match none_key {
            Some(v) => {
                out.push((Vec::new(), v));
            },
            None => {},
        }
        let ghost seg0 = out@;
        let mut p8 = small8.into_pairs();
        let ghost s8 = p8@;
        out.append(&mut p8);
        let mut p16 = small16.into_pairs();
        let ghost s16 = p16@;
        out.append(&mut p16);
        let mut p24 = small24.into_pairs();
        let ghost s24 = p24@;
        out.append(&mut p24);
        let mut pl = large.into_pairs();
        let ghost sl = pl@;
        out.append(&mut pl);
        proof {
            let o0 = seg0.len() as int;
            let o1 = o0 + s8.len();
            let o2 = o1 + s16.len();
            let o3 = o2 + s24.len();
            let o4 = o3 + sl.len();
            assert(out@ =~= seg0 + s8 + s16 + s24 + sl);
            assert(out@.len() == o4);
            let ghost m = pre@;
            // Which segment an index falls in, and what is known of its key.
            assert forall|t: int|
                0 <= t < out@.len() implies m.dom().contains(#[trigger] out@[t].0@) && out@[t].1
                == m[out@[t].0@] && (t < o0 ==> out@[t].0@.len() == 0) && (o0 <= t < o1
                ==> 1 <= out@[t].0@.len() <= 8) && (o1 <= t < o2 ==> 8 < out@[t].0@.len() <= 16)
                && (o2 <= t < o3 ==> 16 < out@[t].0@.len() <= 24) && (o3 <= t < o4 ==> 24
                < out@[t].0@.len()) by {
                if t < o0 {
                    assert(out@[t] == seg0[t]);
                    assert(out@[t].0@.len() == 0);
                } else if t < o1 {
                    assert(out@[t] == s8[t - o0]);
                    assert(pre.small8@.dom().contains(s8[t - o0].0@));
                } else if t < o2 {
                    assert(out@[t] == s16[t - o1]);
                    assert(pre.small16@.dom().contains(s16[t - o1].0@));
                } else if t < o3 {
                    assert(out@[t] == s24[t - o2]);
                    assert(pre.small24@.dom().contains(s24[t - o2].0@));
                } else {
                    assert(out@[t] == sl[t - o3]);
                    assert(pre.large@.dom().contains(sl[t - o3].0@));
                }
            }
            assert forall|t: int, u: int|
                #![trigger out@[t].0@, out@[u].0@]
                0 <= t < u < out@.len() implies out@[t].0@ != out@[u].0@ by {
                if t < o0 {
                } else if t < o1 {
                    if o0 <= u < o1 {
                        assert(out@[t] == s8[t - o0] && out@[u] == s8[u - o0]);
                        assert(s8[t - o0].0@ != s8[u - o0].0@);
                    }
                } else if t < o2 {
                    if o1 <= u < o2 {
                        assert(out@[t] == s16[t - o1] && out@[u] == s16[u - o1]);
                        assert(s16[t - o1].0@ != s16[u - o1].0@);
                    }
                } else if t < o3 {
                    if o2 <= u < o3 {
                        assert(out@[t] == s24[t - o2] && out@[u] == s24[u - o2]);
                        assert(s24[t - o2].0@ != s24[u - o2].0@);
                    }
                } else {
                    assert(out@[t] == sl[t - o3] && out@[u] == sl[u - o3]);
                    assert(sl[t - o3].0@ != sl[u - o3].0@);
                }
            }
            assert forall|k: Seq<u8>|
                #[trigger] m.dom().contains(k) implies exists|t: int|
                0 <= t < out@.len() && out@[t].0@ == k by {
                if k.len() == 0 {
                    assert(pre.none_key is Some);
                    assert(seg0[0].0@ =~= k);
                    assert(out@[0].0@ == k);
                } else if k.len() <= 8 {
                    assert(pre.small8@.dom().contains(k));
                    let t = choose|t: int| 0 <= t < s8.len() && s8[t].0@ == k;
                    assert(out@[o0 + t].0@ == k);
                } else if k.len() <= 16 {
                    assert(pre.small16@.dom().contains(k));
                    let t = choose|t: int| 0 <= t < s16.len() && s16[t].0@ == k;
                    assert(out@[o1 + t].0@ == k);
                } else if k.len() <= 24 {
                    assert(pre.small24@.dom().contains(k));
                    let t = choose|t: int| 0 <= t < s24.len() && s24[t].0@ == k;
                    assert(out@[o2 + t].0@ == k);
                } else {
                    assert(pre.large@.dom().contains(k));
                    let t = choose|t: int| 0 <= t < sl.len() && sl[t].0@ == k;
                    assert(out@[o3 + t].0@ == k);
                }
            }
        }
        out
    }
}

impl<'a, T> StringMap<'a, T, FnvHasher> {
    /// An empty map over the default FNV-1a hasher.
    pub fn new(key_alloc: &'a bumpalo::Bump) -> (r: Self)
        ensures
            r.inv(),
            r@ == Map::<Seq<u8>, T>::empty(),
            r.spec_len() == 0,
    {
        Self::with_hasher(FnvHasher, key_alloc)
    }
}

} // verus!
