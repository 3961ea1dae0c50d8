//! A direct-indexed table for keys of exactly two bytes.
//!
//! Instead of hashing and probing, the two key bytes are read as an integer
//! index into a flat table of 65536 optional values. Every operation is one
//! bounds-free array access; there are no collisions, no tombstones and no
//! resizes.

use vstd::map::*;
use vstd::prelude::*;

verus! {

/// Number of slots: one per possible two-byte key.
pub const TABLE_SIZE: usize = 65536;

/// The index a two-byte key maps to: little-endian, low byte first.
pub open spec fn index_spec(k: Seq<u8>) -> int {
    k[0] + 256 * k[1]
}

/// The two-byte key a table index stands for; inverse of `index_spec`.
pub open spec fn key_spec(i: int) -> Seq<u8> {
    seq![(i % 256) as u8, (i / 256) as u8]
}

/// Number of occupied (`Some`) slots in the table, counted front to back.
pub open spec fn count_some<T>(s: Seq<Option<T>>) -> nat
    decreases s.len(),
{
    if s.len() == 0 {
        0
    } else {
        (if s.first() is Some {
            1nat
        } else {
            0nat
        }) + count_some(s.drop_first())
    }
}

/// The association a slot sequence holds: each two-byte key whose slot is
/// occupied maps to that slot's value.
pub open spec fn table_view<T>(data: Seq<Option<T>>) -> Map<Seq<u8>, T> {
    Map::new(
        |k: Seq<u8>| k.len() == 2 && 0 <= index_spec(k) < data.len() && data[index_spec(k)] is Some,
        |k: Seq<u8>| data[index_spec(k)]->0,
    )
}

/// Two distinct two-byte keys map to distinct indices.
proof fn lemma_index_injective(k1: Seq<u8>, k2: Seq<u8>)
    requires
        k1.len() == 2,
        k2.len() == 2,
        index_spec(k1) == index_spec(k2),
    ensures
        k1 == k2,
{
    assert(k1[0] == k2[0] && k1[1] == k2[1]);
    assert(k1 =~= k2);
}

/// `index_spec` and `key_spec` are inverses on the table's index range.
proof fn lemma_key_of_index(i: int)
    requires
        0 <= i < 65536,
    ensures
        key_spec(i).len() == 2,
        index_spec(key_spec(i)) == i,
{
}

/// A two-byte key survives the round trip through its index.
proof fn lemma_key_roundtrip(k: Seq<u8>)
    requires
        k.len() == 2,
    ensures
        0 <= index_spec(k) < 65536,
        key_spec(index_spec(k)) == k,
{
    lemma_key_of_index(index_spec(k));
    lemma_index_injective(key_spec(index_spec(k)), k);
}

/// Updating one slot updates the association at that slot's key alone:
/// storing a value inserts it, clearing the slot removes the key.
proof fn lemma_table_view_update<T>(data: Seq<Option<T>>, i: int, v: Option<T>)
    requires
        data.len() == 65536,
        0 <= i < 65536,
    ensures
        v is Some ==> table_view(data.update(i, v)) == table_view(data).insert(
            key_spec(i),
            v->0,
        ),
        v is None ==> table_view(data.update(i, v)) == table_view(data).remove(key_spec(i)),
{
    lemma_key_of_index(i);
    if v is Some {
        assert_maps_equal!(table_view(data.update(i, v)), table_view(data).insert(key_spec(i), v->0), k => {
            if k.len() == 2 && index_spec(k) == i {
                lemma_index_injective(k, key_spec(i));
            }
        });
    } else {
        assert_maps_equal!(table_view(data.update(i, v)), table_view(data).remove(key_spec(i)), k => {
            if k.len() == 2 && index_spec(k) == i {
                lemma_index_injective(k, key_spec(i));
            }
        });
    }
}

/// Updating one slot changes the occupancy count by the difference at that
/// slot alone.
proof fn lemma_count_some_update<T>(s: Seq<Option<T>>, i: int, v: Option<T>)
    requires
        0 <= i < s.len(),
    ensures
        count_some(s.update(i, v)) == count_some(s) - (if s[i] is Some {
            1int
        } else {
            0int
        }) + (if v is Some {
            1int
        } else {
            0int
        }),
    decreases s.len(),
{
    let su = s.update(i, v);
    assert(su.len() == s.len());
    if i == 0 {
        assert(su.drop_first() =~= s.drop_first());
    } else {
        assert(su.first() == s.first());
        assert(su.drop_first() =~= s.drop_first().update(i - 1, v));
        lemma_count_some_update(s.drop_first(), i - 1, v);
    }
}

/// The occupancy count never exceeds the table length.
proof fn lemma_count_some_le_len<T>(s: Seq<Option<T>>)
    ensures
        count_some(s) <= s.len(),
    decreases s.len(),
{
    if s.len() > 0 {
        lemma_count_some_le_len(s.drop_first());
    }
}

/// Appending an empty slot leaves the occupancy count unchanged.
proof fn lemma_count_some_push_none<T>(s: Seq<Option<T>>)
    ensures
        count_some(s.push(None)) == count_some(s),
    decreases s.len(),
{
    let sp = s.push(None);
    if s.len() == 0 {
        assert(sp.first() is None);
        assert(sp.drop_first() =~= Seq::<Option<T>>::empty());
        assert(count_some(sp.drop_first()) == 0);
    } else {
        assert(sp.first() == s.first());
        assert(sp.drop_first() =~= s.drop_first().push(None));
        lemma_count_some_push_none(s.drop_first());
    }
}

/// A prefix never counts more occupied slots than the whole.
proof fn lemma_count_some_take<T>(s: Seq<Option<T>>, i: int)
    requires
        0 <= i < s.len(),
    ensures
        count_some(s.take(i + 1)) == count_some(s.take(i)) + (if s[i] is Some {
            1nat
        } else {
            0nat
        }),
        count_some(s.take(i + 1)) <= count_some(s),
    decreases s.len() - i,
{
    assert(s.take(i + 1) =~= s.take(i).push(s[i]));
    lemma_count_some_push(s.take(i), s[i]);
    if i + 1 == s.len() {
        assert(s.take(i + 1) =~= s);
    } else {
        lemma_count_some_take(s, i + 1);
    }
}

/// Appending a slot adds its own occupancy to the count.
proof fn lemma_count_some_push<T>(s: Seq<Option<T>>, v: Option<T>)
    ensures
        count_some(s.push(v)) == count_some(s) + (if v is Some {
            1nat
        } else {
            0nat
        }),
    decreases s.len(),
{
    let sp = s.push(v);
    if s.len() == 0 {
        assert(sp.first() == v);
        assert(sp.drop_first() =~= Seq::<Option<T>>::empty());
        assert(count_some(sp.drop_first()) == 0);
    } else {
        assert(sp.first() == s.first());
        assert(sp.drop_first() =~= s.drop_first().push(v));
        lemma_count_some_push(s.drop_first(), v);
    }
}

/// Read a two-byte key as a table index.
pub fn to_index(key: &[u8]) -> (r: usize)
    requires
        key@.len() == 2,
    ensures
        r == index_spec(key@),
        r < 65536,
{
    key[0] as usize + 256 * (key[1] as usize)
}

/// Write a table index back as its two-byte key.
pub fn from_index(index: usize) -> (r: [u8; 2])
    requires
        index < 65536,
    ensures
        r@ == key_spec(index as int),
{
    let r: [u8; 2] = [(index % 256) as u8, (index / 256) as u8];
    proof {
        assert(r@ =~= key_spec(index as int));
    }
    r
}

/// A map from two-byte keys to values, stored as a flat table indexed by the
/// key bytes.
pub struct StringMap<T> {
    data: Vec<Option<T>>,
    len: usize,
}

impl<T> View for StringMap<T> {
    type V = Map<Seq<u8>, T>;

    /// The association this table holds.
    closed spec fn view(&self) -> Map<Seq<u8>, T> {
        table_view(self.data@)
    }
}

impl<T> StringMap<T> {
    /// The table is fully allocated and `len` counts the occupied slots.
    pub closed spec fn inv(&self) -> bool {
        &&& self.data@.len() == 65536
        &&& self.len == count_some(self.data@)
    }

    /// The number of occupied slots.
    pub closed spec fn spec_len(&self) -> nat {
        count_some(self.data@)
    }

    /// The backing sequence of optional values.
    pub closed spec fn slots(self) -> Seq<Option<T>> {
        self.data@
    }

    /// An empty table: every slot unoccupied.
    pub fn new() -> (r: Self)
        ensures
            r.inv(),
            r@ == Map::<Seq<u8>, T>::empty(),
            r.spec_len() == 0,
    {
        let mut data: Vec<Option<T>> = Vec::new();
        let mut i: usize = 0;
        while i < TABLE_SIZE
            invariant
                i <= TABLE_SIZE,
                data@.len() == i,
                count_some(data@) == 0,
                forall|j: int| 0 <= j < i ==> data@[j] is None,
            decreases TABLE_SIZE - i,
        {
            proof {
                lemma_count_some_push_none(data@);
            }
            data.push(None);
            i = i + 1;
        }
        let r = StringMap { data, len: 0 };
        proof {
            assert(r@ =~= Map::<Seq<u8>, T>::empty());
        }
        r
    }

    pub fn len(&self) -> (r: usize)
        requires
            self.inv(),
        ensures
            r == self.spec_len(),
    {
        self.len
    }

    #[must_use]
    pub fn is_empty(&self) -> (r: bool)
        requires
            self.inv(),
        ensures
            r <==> self.spec_len() == 0,
    {
        self.len == 0
    }

    pub fn get(&self, key: &[u8]) -> (r: Option<&T>)
        requires
            self.inv(),
            key@.len() == 2,
        ensures
            match r {
                Some(v) => self@.contains_key(key@) && *v == self@[key@],
                None => !self@.contains_key(key@),
            },
    {
        let i = to_index(key);
        let slot = &self.data[i];
        slot.as_ref()
    }

    pub fn get_mut(&mut self, key: &[u8]) -> (r: Option<&mut T>)
        requires
            old(self).inv(),
            key@.len() == 2,
        ensures
            match r {
                Some(v) => old(self)@.contains_key(key@) && *v == old(self)@[key@]
                    && final(self).inv() && final(self)@ == old(self)@.insert(key@, *final(v))
                    && final(self).spec_len() == old(self).spec_len(),
                None => !old(self)@.contains_key(key@) && final(self).inv()
                    && final(self)@ == old(self)@
                    && final(self).spec_len() == old(self).spec_len(),
            },
    {
        let ghost prior = *self;
        let i = to_index(key);
        proof {
            lemma_key_roundtrip(key@);
        }
        let slot = &mut self.data[i];
        match slot.as_mut() {
            Some(v) => {
                proof {
                    lemma_count_some_update(prior.data@, i as int, Some(*final(v)));
                    lemma_table_view_update(prior.data@, i as int, Some(*final(v)));
                }
                Some(v)
            },
            None => {
                proof {
                    assert(prior.data@.update(i as int, Option::<T>::None) =~= prior.data@);
                }
                None
            },
        }
    }

    pub fn insert(&mut self, key: &[u8], value: T) -> (r: Option<T>)
        requires
            old(self).inv(),
            key@.len() == 2,
        ensures
            final(self).inv(),
            final(self)@ == old(self)@.insert(key@, value),
            match r {
                Some(prev) => old(self)@.contains_key(key@) && prev == old(self)@[key@]
                    && final(self).spec_len() == old(self).spec_len(),
                None => !old(self)@.contains_key(key@)
                    && final(self).spec_len() == old(self).spec_len() + 1,
            },
    {
        let ghost prior = *self;
        let i = to_index(key);
        proof {
            lemma_count_some_le_len(self.data@);
        }
        let slot = &mut self.data[i];
        let mut tmp: Option<T> = Some(value);
        core::mem::swap(slot, &mut tmp);
        if tmp.is_none() {
            self.len = self.len + 1;
        }
        proof {
            lemma_count_some_update(prior.data@, i as int, Some(value));
            lemma_key_roundtrip(key@);
            lemma_table_view_update(prior.data@, i as int, Some(value));
        }
        tmp
    }

    pub fn try_insert(&mut self, key: &[u8], value: T) -> (r: Option<(&mut T, T)>)
        requires
            old(self).inv(),
            key@.len() == 2,
        ensures
            match r {
                Some(pair) => old(self)@.contains_key(key@) && *pair.0 == old(self)@[key@]
                    && pair.1 == value && final(self).inv()
                    && final(self)@ == old(self)@.insert(key@, *final(pair.0))
                    && final(self).spec_len() == old(self).spec_len(),
                None => !old(self)@.contains_key(key@) && final(self).inv()
                    && final(self)@ == old(self)@.insert(key@, value)
                    && final(self).spec_len() == old(self).spec_len() + 1,
            },
    {
        let ghost prior = *self;
        let i = to_index(key);
        proof {
            lemma_count_some_le_len(self.data@);
            lemma_key_roundtrip(key@);
        }
        let slot = &mut self.data[i];
        if slot.is_none() {
            *slot = Some(value);
            self.len = self.len + 1;
            proof {
                lemma_count_some_update(prior.data@, i as int, Some(value));
                lemma_table_view_update(prior.data@, i as int, Some(value));
            }
            None
        } else {
            match slot.as_mut() {
                Some(v) => {
                    proof {
                        lemma_count_some_update(prior.data@, i as int, Some(*final(v)));
                        lemma_table_view_update(prior.data@, i as int, Some(*final(v)));
                    }
                    Some((v, value))
                },
                None => None,
            }
        }
    }

    pub fn remove(&mut self, key: &[u8]) -> (r: Option<T>)
        requires
            old(self).inv(),
            key@.len() == 2,
        ensures
            final(self).inv(),
            final(self)@ == old(self)@.remove(key@),
            match r {
                Some(prev) => old(self)@.contains_key(key@) && prev == old(self)@[key@]
                    && final(self).spec_len() + 1 == old(self).spec_len(),
                None => !old(self)@.contains_key(key@)
                    && final(self).spec_len() == old(self).spec_len(),
            },
    {
        let ghost prior = *self;
        let i = to_index(key);
        let slot = &mut self.data[i];
        let r = slot.take();
        proof {
            lemma_count_some_update(prior.data@, i as int, None);
        }
        if r.is_some() {
            self.len = self.len - 1;
        }
        proof {
            lemma_key_roundtrip(key@);
            lemma_table_view_update(prior.data@, i as int, None);
        }
        r
    }
}

impl<T> StringMap<T> {
    /// The first `i` slots have been folded into the pair list `rs`.
    /// `srcs[t]` names the slot pair `t` came from and `pos` is its inverse
    /// on occupied slots.
    spec fn pairs_linked(self, rs: Seq<([u8; 2], T)>, srcs: Seq<int>, pos: Map<int, int>, i: int) -> bool {
        &&& srcs.len() == rs.len()
        &&& rs.len() == count_some(self.data@.take(i))
        &&& forall|t: int|
            #![trigger srcs[t]]
            0 <= t < srcs.len() ==> 0 <= srcs[t] < i && self.data@[srcs[t]] is Some
                && rs[t].0@ == key_spec(srcs[t]) && self.data@[srcs[t]] == Some(rs[t].1)
                && pos.dom().contains(srcs[t]) && pos[srcs[t]] == t
        &&& forall|j: int|
            #![trigger pos.dom().contains(j)]
            #![trigger pos[j]]
            0 <= j < i && self.data@[j] is Some ==> pos.dom().contains(j) && 0 <= pos[j]
                < rs.len() && srcs[pos[j]] == j
    }

    /// Folding an unoccupied slot into the pair list changes nothing.
    #[verifier::rlimit(100)]
    #[verifier::spinoff_prover]
    proof fn lemma_pairs_skip(self, rs: Seq<([u8; 2], T)>, srcs: Seq<int>, pos: Map<int, int>, i: int)
        requires
            0 <= i < self.data@.len(),
            !(self.data@[i] is Some),
            self.pairs_linked(rs, srcs, pos, i),
        ensures
            self.pairs_linked(rs, srcs, pos, i + 1),
    {
        lemma_count_some_take(self.data@, i);
        assert forall|j: int|
            #![trigger pos.dom().contains(j)]
            #![trigger pos[j]]
            0 <= j < i + 1 && self.data@[j] is Some implies pos.dom().contains(j) && 0 <= pos[j]
            < rs.len() && srcs[pos[j]] == j by {
            assert(j < i);
        }
    }

    /// Folding an occupied slot into the pair list appends exactly its pair.
    #[verifier::rlimit(100)]
    #[verifier::spinoff_prover]
    proof fn lemma_pairs_push(
        self,
        rs: Seq<([u8; 2], T)>,
        srcs: Seq<int>,
        pos: Map<int, int>,
        p: ([u8; 2], T),
        i: int,
    )
        requires
            0 <= i < self.data@.len(),
            self.data@[i] is Some,
            p.0@ == key_spec(i),
            self.data@[i] == Some(p.1),
            self.pairs_linked(rs, srcs, pos, i),
        ensures
            self.pairs_linked(rs.push(p), srcs.push(i), pos.insert(i, rs.len() as int), i + 1),
    {
        lemma_count_some_take(self.data@, i);
        let rn = rs.push(p);
        let sn = srcs.push(i);
        let pn = pos.insert(i, rs.len() as int);
        assert forall|t: int|
            #![trigger sn[t]]
            0 <= t < sn.len() implies 0 <= sn[t] < i + 1 && self.data@[sn[t]] is Some && rn[t].0@
            == key_spec(sn[t]) && self.data@[sn[t]] == Some(rn[t].1) && pn.dom().contains(sn[t])
            && pn[sn[t]] == t by {
            if t < srcs.len() {
                assert(sn[t] == srcs[t]);
                assert(rn[t] == rs[t]);
                assert(srcs[t] != i);
            } else {
                assert(sn[t] == i);
                assert(rn[t] == p);
            }
        }
        assert forall|j: int|
            #![trigger pn.dom().contains(j)]
            #![trigger pn[j]]
            0 <= j < i + 1 && self.data@[j] is Some implies pn.dom().contains(j) && 0 <= pn[j]
            < rn.len() && sn[pn[j]] == j by {
            if j < i {
                assert(pos.dom().contains(j));
                assert(pn[j] == pos[j]);
                assert(sn[pos[j]] == srcs[pos[j]]);
            } else {
                assert(pn[j] == rs.len());
                assert(sn[rs.len() as int] == i);
            }
        }
    }

    /// An occupied slot among the folded prefix has its pair in the list.
    proof fn lemma_pairs_linked_lookup(
        self,
        rs: Seq<([u8; 2], T)>,
        srcs: Seq<int>,
        pos: Map<int, int>,
        i: int,
        j: int,
    )
        requires
            self.pairs_linked(rs, srcs, pos, i),
            0 <= j < i,
            self.data@[j] is Some,
        ensures
            pos.dom().contains(j),
            0 <= pos[j] < rs.len(),
            srcs[pos[j]] == j,
    {
    }

    /// Once every slot is folded, the pair list enumerates the association.
    #[verifier::rlimit(100)]
    #[verifier::spinoff_prover]
    proof fn lemma_pairs_complete(
        self,
        rs: Seq<([u8; 2], T)>,
        srcs: Seq<int>,
        pos: Map<int, int>,
        n: int,
    )
        requires
            n == 65536,
            self.data@.len() == n,
            self.pairs_linked(rs, srcs, pos, n),
        ensures
            rs.len() == count_some(self.data@),
            forall|t: int|
                0 <= t < rs.len() ==> self@.dom().contains(#[trigger] rs[t].0@) && rs[t].1
                    == self@[rs[t].0@],
            forall|t: int, u: int|
                #![trigger rs[t].0@, rs[u].0@]
                0 <= t < u < rs.len() ==> rs[t].0@ != rs[u].0@,
            forall|k: Seq<u8>|
                #[trigger] self@.dom().contains(k) ==> exists|t: int|
                    0 <= t < rs.len() && rs[t].0@ == k,
    {
        assert(self.data@.take(n) =~= self.data@);
        assert forall|t: int|
            0 <= t < rs.len() implies self@.dom().contains(#[trigger] rs[t].0@) && rs[t].1
            == self@[rs[t].0@] by {
            let j = srcs[t];
            lemma_key_of_index(j);
        }
        assert forall|t: int, u: int|
            #![trigger rs[t].0@, rs[u].0@]
            0 <= t < u < rs.len() implies rs[t].0@ != rs[u].0@ by {
            let jt = srcs[t];
            let ju = srcs[u];
            if jt == ju {
                assert(pos[jt] == t && pos[ju] == u);
            } else {
                lemma_key_of_index(jt);
                lemma_key_of_index(ju);
                if rs[t].0@ == rs[u].0@ {
                    assert(index_spec(key_spec(jt)) == index_spec(key_spec(ju)));
                }
            }
        }
        assert forall|k: Seq<u8>|
            #[trigger] self@.dom().contains(k) implies exists|t: int|
            0 <= t < rs.len() && rs[t].0@ == k by {
            let j = index_spec(k);
            lemma_key_roundtrip(k);
            assert(self.data@[j] is Some);
            assert(0 <= j < n);
            self.lemma_pairs_linked_lookup(rs, srcs, pos, n, j);
            assert(0 <= pos[j] < rs.len() && rs[pos[j]].0@ == k);
        }
    }

    /// Consume the table and hand back every stored pair in slot order.
    pub fn into_pairs(self) -> (r: Vec<([u8; 2], T)>)
        requires
            self.inv(),
        ensures
            r@.len() == self.spec_len(),
            forall|t: int|
                0 <= t < r@.len() ==> self@.dom().contains(#[trigger] r@[t].0@) && r@[t].1
                    == self@[r@[t].0@],
            forall|t: int, u: int|
                #![trigger r@[t].0@, r@[u].0@]
                0 <= t < u < r@.len() ==> r@[t].0@ != r@[u].0@,
            forall|k: Seq<u8>|
                #[trigger] self@.dom().contains(k) ==> exists|t: int|
                    0 <= t < r@.len() && r@[t].0@ == k,
    {
        let ghost pre = self;
        let ghost pres = pre.data@;
        let mut this = self;
        let mut r: Vec<([u8; 2], T)> = Vec::new();
        let ghost mut srcs: Seq<int> = Seq::empty();
        let ghost mut pos: Map<int, int> = Map::empty();
        let mut i: usize = 0;
        let end = this.data.len();
        proof {
            assert(pres.take(0) =~= Seq::<Option<T>>::empty());
        }
        while i < end
            invariant
                i <= end,
                pres == pre.data@,
                end == pres.len(),
                end == 65536,
                this.data@.len() == pres.len(),
                forall|j: int| i <= j < pres.len() ==> this.data@[j] == pres[j],
                pre.pairs_linked(r@, srcs, pos, i as int),
            decreases end - i,
        {
            proof {
                assert(this.data@[i as int] == pres[i as int]);
            }
            let slot = &mut this.data[i];
            let taken = slot.take();
            let ghost rsnap = r@;
            match taken {
                Some(v) => {
                    let kb = from_index(i);
                    r.push((kb, v));
                    proof {
                        assert(r@ == rsnap.push(r@[rsnap.len() as int]));
                        pre.lemma_pairs_push(rsnap, srcs, pos, r@[rsnap.len() as int], i as int);
                        srcs = srcs.push(i as int);
                        pos = pos.insert(i as int, rsnap.len() as int);
                    }
                },
                None => {
                    proof {
                        pre.lemma_pairs_skip(rsnap, srcs, pos, i as int);
                    }
                },
            }
            i = i + 1;
        }
        proof {
            pre.lemma_pairs_complete(r@, srcs, pos, end as int);
        }
        r
    }
}

impl<T> StringMap<T> {
    /// A lazy borrowing iterator over this table's occupied slots, in index
    /// order; restartable per call and deterministic for a fixed state.
    pub fn iter<'s>(&'s self) -> (r: Iter<'s, T>)
        requires
            self.inv(),
        ensures
            r.inv(),
            r.slots_view() == self.slots(),
            r.spec_index() == 0,
            r.spec_rem() == self.spec_len(),
    {
        proof {
            assert(self.data@.skip(0) =~= self.data@);
        }
        Iter { bucket: self.data.as_slice(), index: 0, rem: self.len }
    }
}

/// Removing one leading slot removes its own occupancy from the count of
/// what remains.
proof fn lemma_count_some_skip<T>(s: Seq<Option<T>>, i: int)
    requires
        0 <= i < s.len(),
    ensures
        count_some(s.skip(i)) == (if s[i] is Some {
            1nat
        } else {
            0nat
        }) + count_some(s.skip(i + 1)),
{
    assert(s.skip(i).first() == s[i]);
    assert(s.skip(i).drop_first() =~= s.skip(i + 1));
}

/// A lazy, borrowing view of the table's occupied slots: scans the backing
/// sequence in index order, rebuilding each slot's two-byte key from its
/// position, and counts down the entries still to be yielded.
pub struct Iter<'a, T> {
    bucket: &'a [Option<T>],
    index: usize,
    rem: usize,
}

impl<'a, T> Iter<'a, T> {
    /// The backing sequence this iterator walks.
    pub closed spec fn slots_view(self) -> Seq<Option<T>> {
        self.bucket@
    }

    /// The next slot to visit.
    pub closed spec fn spec_index(self) -> int {
        self.index as int
    }

    /// How many occupied slots remain to be yielded.
    pub closed spec fn spec_rem(self) -> nat {
        self.rem as nat
    }

    /// The position is in range and `rem` counts the occupied slots not yet
    /// visited.
    pub closed spec fn inv(self) -> bool {
        &&& self.bucket@.len() == 65536
        &&& self.index <= self.bucket@.len()
        &&& self.rem == count_some(self.bucket@.skip(self.index as int))
    }

    /// Yield the next occupied slot: its two-byte key and value, or nothing
    /// once every occupied slot has been yielded.
    #[verifier::loop_isolation(false)]
    pub fn next(&mut self) -> (r: Option<([u8; 2], &'a T)>)
        requires
            old(self).inv(),
        ensures
            final(self).inv(),
            final(self).slots_view() == old(self).slots_view(),
            match r {
                None => old(self).spec_rem() == 0 && final(self).spec_rem() == 0 && count_some(
                    old(self).slots_view().skip(old(self).spec_index()),
                ) == 0,
                Some(pair) => {
                    let j = final(self).spec_index() - 1;
                    &&& old(self).spec_index() <= j < old(self).slots_view().len()
                    &&& old(self).slots_view()[j] is Some
                    &&& pair.0@ == key_spec(j)
                    &&& *pair.1 == old(self).slots_view()[j]->0
                    &&& forall|t: int|
                        old(self).spec_index() <= t < j ==> !(#[trigger] old(self).slots_view()[t] is Some)
                    &&& final(self).spec_rem() + 1 == old(self).spec_rem()
                },
            },
    {
        let ghost pre = *self;
        if self.rem == 0 {
            return None;
        }
        let ghost start = self.index as int;
        let ghost s = self.bucket@;
        let n = self.bucket.len();
        loop
            invariant
                s == self.bucket@,
                s == pre.bucket@,
                start == pre.index as int,
                self.rem == pre.rem,
                pre.index <= pre.bucket@.len(),
                start <= self.index as int <= s.len(),
                self.rem == count_some(s.skip(self.index as int)),
                self.rem > 0,
                forall|t: int| start <= t < self.index as int ==> !(#[trigger] s[t] is Some),
            decreases s.len() - self.index,
        {
            proof {
                if self.index as int == s.len() {
                    assert(s.skip(self.index as int) =~= Seq::<Option<T>>::empty());
                }
                assert(self.index < s.len());
                lemma_count_some_skip(s, self.index as int);
            }
            let i = self.index;
            self.index = self.index + 1;
            match vstd::slice::slice_index_get(self.bucket, i) {
                Some(v) => {
                    self.rem = self.rem - 1;
                    return Some((from_index(i), v));
                },
                None => {},
            }
        }
    }
}

impl<T> Default for StringMap<T> {
    fn default() -> (r: Self)
        ensures
            r.inv(),
            r@ == Map::<Seq<u8>, T>::empty(),
            r.spec_len() == 0,
    {
        Self::new()
    }
}

} // verus!
