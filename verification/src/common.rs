//! The shared open-addressing engine.
//!
//! One generic table implements probing, insertion, deletion and resizing for
//! every size class; the classes differ only in how a slot stores its key,
//! which the [`SlotData`] trait abstracts. The backing sequence holds
//! tri-state slots: never-used `Empty` cells, `Deleted` tombstones left by
//! removals, and `Data` cells holding one key/value entry. Probing is linear
//! with wraparound; a lookup skips tombstones and stops at the first empty
//! cell or exact key match.

use vstd::map::*;
use vstd::prelude::*;

use crate::hasher::KeyHasher;

verus! {

/// Load factor numerator: grow at 2/3 full, shrink at 1/3.
pub const LOAD_FACTOR_N: usize = 3;

/// Load factor denominator.
pub const LOAD_FACTOR_D: usize = 2;

/// The smallest capacity a table ever has. Every class uses the same
/// minimum, and capacities are always powers of two.
pub const MIN_CAPACITY: usize = 8;

/// How one size class stores a key inside a table slot.
///
/// Inline strategies copy the key into a fixed-capacity buffer embedded in
/// the slot and cache no hash; the arena strategy stores a stable slice into
/// a bump arena together with the hash computed at insertion time.
pub trait SlotData: Sized {
    /// The key bytes this representation stores.
    spec fn key_seq(&self) -> Seq<u8>;

    /// Whether the representation is internally consistent.
    spec fn wf(&self) -> bool;

    /// The hash cached beside the key, if this strategy caches one.
    spec fn cached_spec(&self) -> Option<u64>;

    /// Borrow the stored key bytes.
    fn key_bytes<'s>(&'s self) -> (r: &'s [u8])
        requires
            self.wf(),
        ensures
            r@ == self.key_seq(),
    ;

    /// The cached hash, if any.
    fn cached_hash(&self) -> (r: Option<u64>)
        ensures
            r == self.cached_spec(),
    ;
}

/// One stored key/value pair: the key in its class's representation, plus
/// the value.
pub struct Entry<D, V> {
    pub data: D,
    pub value: V,
}

/// A tri-state cell of a table's backing sequence.
pub enum Slot<D> {
    /// Never held data.
    Empty,
    /// Held data once; a tombstone that probes must skip.
    Deleted,
    /// Holds one live entry.
    Data(D),
}

impl<D> Slot<D> {
    /// Store `data` here, returning the entry this slot held before, if any.
    pub fn insert(&mut self, data: D) -> (r: Option<D>)
        ensures
            *final(self) == Slot::Data(data),
            match r {
                Some(prev) => *old(self) == Slot::Data(prev),
                None => !(*old(self) is Data),
            },
    {
        let prev = self.remove();
        *self = Slot::Data(data);
        prev
    }

    /// Store `data` only if this slot is free; otherwise hand back a mutable
    /// reference to the entry already here together with the rejected `data`.
    pub fn try_insert(&mut self, data: D) -> (r: Option<(&mut D, D)>)
        ensures
            match r {
                Some(pair) => *old(self) matches Slot::Data(prev) && *pair.0 == prev && pair.1
                    == data && *final(self) == Slot::Data(*final(pair.0)),
                None => !(*old(self) is Data) && *final(self) == Slot::Data(data),
            },
    {
        match self {
            Slot::Deleted | Slot::Empty => {
                *self = Slot::Data(data);
                None
            },
            Slot::Data(d) => Some((d, data)),
        }
    }

    /// Clear this slot to a tombstone, returning the entry it held, if any.
    pub fn remove(&mut self) -> (r: Option<D>)
        ensures
            *final(self) == Slot::<D>::Deleted,
            match r {
                Some(prev) => *old(self) == Slot::Data(prev),
                None => !(*old(self) is Data),
            },
    {
        let mut tmp = Slot::Deleted;
        core::mem::swap(self, &mut tmp);
        match tmp {
            Slot::Data(data) => Some(data),
            _ => None,
        }
    }
}

/// Number of live (`Data`) slots, counted front to back.
pub open spec fn count_live<D>(s: Seq<Slot<D>>) -> nat
    decreases s.len(),
{
    if s.len() == 0 {
        0
    } else {
        (if s.first() is Data {
            1nat
        } else {
            0nat
        }) + count_live(s.drop_first())
    }
}

/// Updating one slot changes the live count by the difference at that slot
/// alone.
pub proof fn lemma_count_live_update<D>(s: Seq<Slot<D>>, i: int, v: Slot<D>)
    requires
        0 <= i < s.len(),
    ensures
        count_live(s.update(i, v)) == count_live(s) - (if s[i] is Data {
            1int
        } else {
            0int
        }) + (if v is Data {
            1int
        } else {
            0int
        }),
    decreases s.len(),
{
    let su = s.update(i, v);
    assert(su.len() == s.len());
    if i == 0 {
        assert(su.drop_first() =~= s.drop_first());
    } else {
        assert(su.first() == s.first());
        assert(su.drop_first() =~= s.drop_first().update(i - 1, v));
        lemma_count_live_update(s.drop_first(), i - 1, v);
    }
}

/// Appending a slot adds its own liveness to the count.
pub proof fn lemma_count_live_push<D>(s: Seq<Slot<D>>, v: Slot<D>)
    ensures
        count_live(s.push(v)) == count_live(s) + (if v is Data {
            1nat
        } else {
            0nat
        }),
    decreases s.len(),
{
    let sp = s.push(v);
    if s.len() == 0 {
        assert(sp.first() == v);
        assert(sp.drop_first() =~= Seq::<Slot<D>>::empty());
        assert(count_live(sp.drop_first()) == 0);
    } else {
        assert(sp.first() == s.first());
        assert(sp.drop_first() =~= s.drop_first().push(v));
        lemma_count_live_push(s.drop_first(), v);
    }
}

/// The live count never exceeds the sequence length.
pub proof fn lemma_count_live_le_len<D>(s: Seq<Slot<D>>)
    ensures
        count_live(s) <= s.len(),
    decreases s.len(),
{
    if s.len() > 0 {
        lemma_count_live_le_len(s.drop_first());
    }
}

/// A prefix never counts more live slots than the whole.
pub proof fn lemma_count_live_take<D>(s: Seq<Slot<D>>, i: int)
    requires
        0 <= i < s.len(),
    ensures
        count_live(s.take(i + 1)) == count_live(s.take(i)) + (if s[i] is Data {
            1nat
        } else {
            0nat
        }),
        count_live(s.take(i + 1)) <= count_live(s),
    decreases s.len() - i,
{
    assert(s.take(i + 1) =~= s.take(i).push(s[i]));
    lemma_count_live_push(s.take(i), s[i]);
    if i + 1 == s.len() {
        assert(s.take(i + 1) =~= s);
    } else {
        lemma_count_live_take(s, i + 1);
    }
}

/// A sequence of live slots only is fully counted.
pub proof fn lemma_count_live_all<D>(s: Seq<Slot<D>>)
    requires
        forall|j: int| 0 <= j < s.len() ==> s[j] is Data,
    ensures
        count_live(s) == s.len(),
    decreases s.len(),
{
    if s.len() > 0 {
        assert(s[0] is Data);
        assert forall|j: int| 0 <= j < s.drop_first().len() implies s.drop_first()[j] is Data by {
            assert(s.drop_first()[j] == s[j + 1]);
        }
        lemma_count_live_all(s.drop_first());
    }
}

/// Removing one leading slot removes its own liveness from the count of
/// what remains.
pub proof fn lemma_count_live_skip<D>(s: Seq<Slot<D>>, i: int)
    requires
        0 <= i < s.len(),
    ensures
        count_live(s.skip(i)) == (if s[i] is Data {
            1nat
        } else {
            0nat
        }) + count_live(s.skip(i + 1)),
{
    assert(s.skip(i).first() == s[i]);
    assert(s.skip(i).drop_first() =~= s.skip(i + 1));
}

/// Whether `n` is a power of two.
pub open spec fn is_pow2(n: int) -> bool
    decreases n,
{
    if n <= 0 {
        false
    } else if n == 1 {
        true
    } else {
        n % 2 == 0 && is_pow2(n / 2)
    }
}

/// The slot visited at step `t` of a linear probe starting at `s`, in a
/// table of `cap` slots: consecutive indices, wrapping at the end.
pub open spec fn wrap(s: int, t: int, cap: int) -> int {
    if s + t < cap {
        s + t
    } else {
        s + t - cap
    }
}

/// How many probe steps lead from start `s` to index `j`.
pub open spec fn dist(s: int, j: int, cap: int) -> int {
    if j >= s {
        j - s
    } else {
        j - s + cap
    }
}

/// `wrap` and `dist` are inverses: stepping `dist(s, j)` probes from `s`
/// lands on `j`, and the step count of any index is below the capacity.
pub proof fn lemma_wrap_dist(s: int, j: int, cap: int)
    requires
        0 <= s < cap,
        0 <= j < cap,
    ensures
        0 <= dist(s, j, cap) < cap,
        wrap(s, dist(s, j, cap), cap) == j,
{
}

/// Stepping `t` probes from `s` lands on an index whose step count is `t`.
pub proof fn lemma_dist_wrap(s: int, t: int, cap: int)
    requires
        0 <= s < cap,
        0 <= t < cap,
    ensures
        0 <= wrap(s, t, cap) < cap,
        dist(s, wrap(s, t, cap), cap) == t,
{
}

/// Byte-for-byte slice equality.
fn bytes_eq(a: &[u8], b: &[u8]) -> (r: bool)
    ensures
        r <==> a@ == b@,
{
    if a.len() != b.len() {
        proof {
            assert(a@.len() != b@.len());
        }
        return false;
    }
    let mut i: usize = 0;
    while i < a.len()
        invariant
            i <= a@.len(),
            a@.len() == b@.len(),
            forall|j: int| 0 <= j < i ==> a@[j] == b@[j],
        decreases a@.len() - i,
    {
        if a[i] != b[i] {
            return false;
        }
        i = i + 1;
    }
    proof {
        assert(a@ =~= b@);
    }
    true
}

/// The generic open-addressing table: a backing sequence of slots, the count
/// of live entries, and a ghost snapshot of the hasher every stored hash was
/// computed with.
pub struct StringMap<D, V, H> {
    bucket: Vec<Slot<Entry<D, V>>>,
    len: usize,
    hasher_snap: Ghost<H>,
}

impl<D: SlotData, V, H: KeyHasher> StringMap<D, V, H> {
    /// The backing sequence.
    pub closed spec fn slots(self) -> Seq<Slot<Entry<D, V>>> {
        self.bucket@
    }

    /// The table capacity.
    pub closed spec fn cap(self) -> int {
        self.slots().len() as int
    }

    /// The number of live entries.
    pub closed spec fn spec_len(self) -> nat {
        self.len as nat
    }

    /// The hasher this table's stored hashes were computed with.
    pub closed spec fn spec_hasher(self) -> H {
        self.hasher_snap@
    }

    /// The hash this table associates with a key.
    pub closed spec fn hash_of(self, k: Seq<u8>) -> u64 {
        self.spec_hasher().hash_spec(k)
    }

    /// The key stored at slot `i`.
    pub closed spec fn key_at(self, i: int) -> Seq<u8> {
        self.slots()[i]->0.data.key_seq()
    }

    /// The value stored at slot `i`.
    pub closed spec fn value_at(self, i: int) -> V {
        self.slots()[i]->0.value
    }

    /// Whether slot `i` holds a live entry.
    pub closed spec fn live_at(self, i: int) -> bool {
        0 <= i < self.cap() && self.slots()[i] is Data
    }

    /// The probe start of the key stored at slot `i`.
    pub closed spec fn start_at(self, i: int) -> int {
        self.hash_of(self.key_at(i)) as int % self.cap()
    }

    /// The slot visited `u` steps into the probe for the key of slot `i`.
    pub closed spec fn probe_slot(self, i: int, u: int) -> Slot<Entry<D, V>> {
        self.slots()[wrap(self.start_at(i), u, self.cap())]
    }

    /// The entry at slot `i` is internally consistent: its representation is
    /// well formed and a cached hash, if present, is the hash of its key.
    pub closed spec fn entry_ok(self, i: int) -> bool {
        self.slots()[i] is Data ==> {
            let d = self.slots()[i]->0.data;
            &&& d.wf()
            &&& (d.cached_spec() matches Some(h) ==> h == self.hash_of(d.key_seq()))
        }
    }

    /// The probe path of the entry at slot `i` crosses no empty slot: a
    /// lookup walking from its hash's start position reaches it.
    pub closed spec fn probe_ok(self, i: int) -> bool {
        self.slots()[i] is Data ==> forall|u: int|
            0 <= u < dist(self.start_at(i), i, self.cap()) ==> !(#[trigger] self.probe_slot(
                i,
                u,
            ) is Empty)
    }

    /// No key is stored in two live slots.
    pub closed spec fn keys_unique(self) -> bool {
        forall|i: int, j: int|
            0 <= i < j < self.cap() && self.slots()[i] is Data && self.slots()[j] is Data
                ==> #[trigger] self.key_at(i) != #[trigger] self.key_at(j)
    }

    /// The table's invariant.
    pub closed spec fn inv(self) -> bool {
        &&& MIN_CAPACITY <= self.cap()
        &&& is_pow2(self.cap())
        &&& self.len == count_live(self.slots())
        &&& (self.len as int) < self.cap()
        &&& self.len <= usize::MAX / 3
        &&& self.len * 3 / 2 <= self.cap()
        &&& forall|i: int| 0 <= i < self.cap() ==> #[trigger] self.entry_ok(i)
        &&& forall|i: int| 0 <= i < self.cap() ==> #[trigger] self.probe_ok(i)
        &&& self.keys_unique()
    }

    /// Whether some live slot stores `k`.
    pub closed spec fn contains_spec(self, k: Seq<u8>) -> bool {
        exists|i: int| 0 <= i < self.cap() && self.slots()[i] is Data && self.key_at(i) == k
    }

    /// The slot index storing `k`; meaningful only when `contains_spec(k)`.
    pub closed spec fn idx_of(self, k: Seq<u8>) -> int {
        choose|i: int| 0 <= i < self.cap() && self.slots()[i] is Data && self.key_at(i) == k
    }

    /// A live slot is the unique index found for its key.
    proof fn lemma_idx_unique(self, i: int)
        requires
            self.keys_unique(),
            self.live_at(i),
        ensures
            self.contains_spec(self.key_at(i)),
            self.idx_of(self.key_at(i)) == i,
    {
        let k = self.key_at(i);
        assert(self.contains_spec(k));
        let j = self.idx_of(k);
        if i != j {
            assert(self.key_at(i) != self.key_at(j));
        }
    }

    /// Writing a live entry into a correctly probed slot keeps every
    /// structural invariant, and the stored association gains exactly that
    /// entry's key. The target slot either already stores the same key (an
    /// overwrite) or is a free slot whose probe path crosses no empty cell
    /// while the key is absent (a fresh insertion).
    proof fn lemma_write_entry(pre: Self, post: Self, i: int, e: Entry<D, V>)
        requires
            forall|j: int| 0 <= j < pre.cap() ==> #[trigger] pre.entry_ok(j),
            forall|j: int| 0 <= j < pre.cap() ==> #[trigger] pre.probe_ok(j),
            pre.keys_unique(),
            post.slots() == pre.slots().update(i, Slot::Data(e)),
            post.spec_hasher() == pre.spec_hasher(),
            0 <= i < pre.cap(),
            e.data.wf(),
            (e.data.cached_spec() matches Some(h) ==> h == pre.hash_of(e.data.key_seq())),
            (pre.slots()[i] is Data && pre.key_at(i) == e.data.key_seq()) || (!(
            pre.slots()[i] is Data) && !pre.contains_spec(e.data.key_seq()) && forall|u: int|
                0 <= u < dist(pre.hash_of(e.data.key_seq()) as int % pre.cap(), i, pre.cap())
                    ==> !(pre.slots()[#[trigger] wrap(
                    pre.hash_of(e.data.key_seq()) as int % pre.cap(),
                    u,
                    pre.cap(),
                )] is Empty)),
        ensures
            post.cap() == pre.cap(),
            forall|j: int| 0 <= j < post.cap() ==> #[trigger] post.entry_ok(j),
            forall|j: int| 0 <= j < post.cap() ==> #[trigger] post.probe_ok(j),
            post.keys_unique(),
            count_live(post.slots()) == count_live(pre.slots()) + (if pre.slots()[i] is Data {
                0int
            } else {
                1int
            }),
            post@ == pre@.insert(e.data.key_seq(), e.value),
            pre.slots()[i] is Data ==> pre.contains_spec(e.data.key_seq()) && pre.idx_of(
                e.data.key_seq(),
            ) == i,
    {
        let k = e.data.key_seq();
        let cap = pre.cap();
        let s_pre = pre.slots();
        let s_post = post.slots();
        let overwrite = s_pre[i] is Data;
        assert(post.cap() == cap);
        assert forall|q: Seq<u8>| #[trigger] post.hash_of(q) == pre.hash_of(q) by {}
        assert(post.key_at(i) == k);
        assert(post.value_at(i) == e.value);
        if overwrite {
            pre.lemma_idx_unique(i);
        }
        // Entries stay internally consistent.
        assert forall|j: int| 0 <= j < cap implies #[trigger] post.entry_ok(j) by {
            assert(pre.entry_ok(j));
        }
        // Every live entry's probe path still crosses no empty slot: the
        // written slot is live, so no path position became empty.
        assert forall|j: int| 0 <= j < cap implies #[trigger] post.probe_ok(j) by {
            if s_post[j] is Data {
                assert forall|u: int|
                    0 <= u < dist(post.start_at(j), j, cap) implies !(#[trigger] post.probe_slot(
                    j,
                    u,
                ) is Empty) by {
                    let stj = post.start_at(j);
                    let p = wrap(stj, u, cap);
                    assert(0 <= stj < cap);
                    assert(0 <= p < cap);
                    if j == i {
                        if overwrite {
                            assert(pre.probe_ok(i));
                            assert(pre.key_at(i) == k);
                            assert(pre.start_at(i) == stj);
                            assert(!(pre.probe_slot(i, u) is Empty));
                            assert(pre.probe_slot(i, u) == s_pre[p]);
                        } else {
                            assert(!(s_pre[wrap(
                                pre.hash_of(k) as int % cap,
                                u,
                                cap,
                            )] is Empty));
                        }
                    } else {
                        assert(s_post[j] == s_pre[j]);
                        assert(pre.probe_ok(j));
                        assert(post.key_at(j) == pre.key_at(j));
                        assert(post.start_at(j) == pre.start_at(j));
                        assert(!(pre.probe_slot(j, u) is Empty));
                        assert(pre.probe_slot(j, u) == s_pre[p]);
                    }
                    if p == i {
                        assert(s_post[p] is Data);
                    } else {
                        assert(s_post[p] == s_pre[p]);
                    }
                    assert(post.probe_slot(j, u) == s_post[p]);
                }
            }
        }
        // No key is duplicated: an overwrite reuses the key's unique slot,
        // and a fresh insertion adds a key no other slot stores.
        assert forall|a: int, b: int|
            0 <= a < b < cap && s_post[a] is Data && s_post[b] is Data implies #[trigger] post.key_at(
            a,
        ) != #[trigger] post.key_at(b) by {
            if a != i && b != i {
                assert(pre.key_at(a) != pre.key_at(b));
            } else {
                let c = if a == i {
                    b
                } else {
                    a
                };
                assert(s_post[c] == s_pre[c]);
                assert(post.key_at(c) == pre.key_at(c));
                if overwrite {
                    assert(pre.key_at(i) == k);
                    assert(pre.key_at(a) != pre.key_at(b));
                } else {
                    if pre.key_at(c) == k {
                        assert(pre.contains_spec(k));
                    }
                }
            }
        }
        lemma_count_live_update(s_pre, i, Slot::Data(e));
        post.lemma_idx_unique(i);
        assert_maps_equal!(post@, pre@.insert(k, e.value), q => {
            if q != k {
                if post.contains_spec(q) {
                    let j = post.idx_of(q);
                    assert(0 <= j < cap && s_post[j] is Data && post.key_at(j) == q);
                    assert(j != i);
                    assert(s_pre[j] == s_post[j]);
                    assert(pre.key_at(j) == q);
                    assert(pre.contains_spec(q));
                    pre.lemma_idx_unique(j);
                    post.lemma_idx_unique(j);
                }
                if pre.contains_spec(q) {
                    let j = pre.idx_of(q);
                    assert(0 <= j < cap && s_pre[j] is Data && pre.key_at(j) == q);
                    assert(j != i);
                    assert(s_post[j] == s_pre[j]);
                    assert(post.key_at(j) == q);
                    assert(post.contains_spec(q));
                    pre.lemma_idx_unique(j);
                    post.lemma_idx_unique(j);
                }
            }
        });
    }
}

impl<D: SlotData, V, H: KeyHasher> View for StringMap<D, V, H> {
    type V = Map<Seq<u8>, V>;

    /// The association this table holds: each stored key maps to the value
    /// in its unique live slot.
    closed spec fn view(&self) -> Map<Seq<u8>, V> {
        Map::new(
            |k: Seq<u8>| self.contains_spec(k),
            |k: Seq<u8>| self.value_at(self.idx_of(k)),
        )
    }
}

impl<D: SlotData, V, H: KeyHasher> StringMap<D, V, H> {
    /// An empty table at the minimum capacity.
    pub fn new(hasher: &H) -> (r: Self)
        ensures
            r.inv(),
            r@ == Map::<Seq<u8>, V>::empty(),
            r.spec_len() == 0,
            r.cap() == MIN_CAPACITY,
            r.spec_hasher() == *hasher,
            forall|k: Seq<u8>| #[trigger] r.hash_of(k) == hasher.hash_spec(k),
    {
        Self::with_capacity(MIN_CAPACITY, hasher)
    }

    /// An empty table whose capacity is the smallest power of two that is at
    /// least `cap` and at least the minimum capacity.
    pub fn with_capacity(cap: usize, hasher: &H) -> (r: Self)
        requires
            cap <= usize::MAX / 2,
        ensures
            r.inv(),
            r@ == Map::<Seq<u8>, V>::empty(),
            r.spec_len() == 0,
            r.cap() >= cap,
            cap <= MIN_CAPACITY ==> r.cap() == MIN_CAPACITY,
            r.spec_hasher() == *hasher,
            forall|k: Seq<u8>| #[trigger] r.hash_of(k) == hasher.hash_spec(k),
    {
        let mut target: usize = MIN_CAPACITY;
        proof {
            reveal_with_fuel(is_pow2, 5);
            assert(is_pow2(MIN_CAPACITY as int));
        }
        while target < cap
            invariant
                cap <= usize::MAX / 2,
                MIN_CAPACITY <= target,
                is_pow2(target as int),
                cap <= MIN_CAPACITY ==> target == MIN_CAPACITY,
            decreases 2 * cap - target,
        {
            target = target * 2;
        }
        let mut bucket: Vec<Slot<Entry<D, V>>> = Vec::new();
        let mut i: usize = 0;
        while i < target
            invariant
                i <= target,
                bucket@.len() == i,
                count_live(bucket@) == 0,
                forall|j: int| 0 <= j < i ==> bucket@[j] is Empty,
            decreases target - i,
        {
            proof {
                lemma_count_live_push(bucket@, Slot::<Entry<D, V>>::Empty);
            }
            bucket.push(Slot::Empty);
            i = i + 1;
        }
        let r = StringMap { bucket, len: 0usize, hasher_snap: Ghost(*hasher) };
        proof {
            assert forall|k: Seq<u8>| !r.contains_spec(k) by {
                if r.contains_spec(k) {
                    let j = r.idx_of(k);
                    assert(r.slots()[j] is Data);
                }
            }
            assert(r@ =~= Map::<Seq<u8>, V>::empty());
            assert forall|j: int| 0 <= j < r.cap() implies #[trigger] r.entry_ok(j)
                && r.probe_ok(j) by {
                assert(!(r.slots()[j] is Data));
            }
        }
        r
    }

    /// The number of stored entries.
    pub fn len(&self) -> (r: usize)
        requires
            self.inv(),
        ensures
            r == self.spec_len(),
    {
        self.len
    }

    /// Whether the table stores nothing.
    #[must_use]
    pub fn is_empty(&self) -> (r: bool)
        requires
            self.inv(),
        ensures
            r <==> self.spec_len() == 0,
    {
        self.len == 0
    }

    /// Walk the probe sequence of `key` and return the index of the live
    /// slot storing it, or nothing if no live slot does. Skips tombstones;
    /// stops at the first empty slot or exact match.
    fn lookup(&self, key: &[u8], hash: u64) -> (r: Option<usize>)
        requires
            self.inv(),
            hash == self.hash_of(key@),
        ensures
            match r {
                Some(i) => self.live_at(i as int) && self.key_at(i as int) == key@
                    && self.contains_spec(key@) && self.idx_of(key@) == i as int,
                None => !self.contains_spec(key@),
            },
    {
        let cap = self.bucket.len();
        let base = (hash % (cap as u64)) as usize;
        let ghost basei = base as int;
        let ghost capi = cap as int;
        let mut t: usize = 0;
        let mut idx = base;
        while t < cap
            invariant
                self.inv(),
                hash == self.hash_of(key@),
                capi == self.cap(),
                cap == capi,
                basei == self.hash_of(key@) as int % capi,
                base == basei,
                0 <= basei < capi,
                t <= cap,
                idx as int == wrap(basei, t as int, capi),
                0 <= idx < cap,
                forall|u: int|
                    0 <= u < t ==> !(self.slots()[#[trigger] wrap(basei, u, capi)] is Empty) && (
                    self.slots()[wrap(basei, u, capi)] is Data ==> self.key_at(
                        wrap(basei, u, capi),
                    ) != key@),
            decreases cap - t,
        {
            match &self.bucket[idx] {
                Slot::Empty => {
                    proof {
                        self.lemma_absent(key@, basei, t as int);
                    }
                    return None;
                },
                Slot::Data(e) => {
                    proof {
                        assert(self.entry_ok(idx as int));
                    }
                    let kb = e.data.key_bytes();
                    if bytes_eq(kb, key) {
                        proof {
                            self.lemma_idx_unique(idx as int);
                        }
                        return Some(idx);
                    }
                },
                Slot::Deleted => {},
            }
            t = t + 1;
            idx = if idx + 1 == cap {
                0
            } else {
                idx + 1
            };
        }
        proof {
            self.lemma_absent(key@, basei, cap as int);
        }
        None
    }

    /// If every probe position before `t` is a miss for `key`, and position
    /// `t` is empty or the whole table has been walked, the key is absent.
    proof fn lemma_absent(self, key: Seq<u8>, base: int, t: int)
        requires
            self.inv(),
            base == self.hash_of(key) as int % self.cap(),
            0 <= t <= self.cap(),
            forall|u: int|
                0 <= u < t ==> !(self.slots()[#[trigger] wrap(base, u, self.cap())] is Empty) && (
                self.slots()[wrap(base, u, self.cap())] is Data ==> self.key_at(
                    wrap(base, u, self.cap()),
                ) != key),
            t < self.cap() ==> self.slots()[wrap(base, t, self.cap())] is Empty,
        ensures
            !self.contains_spec(key),
    {
        let cap = self.cap();
        if self.contains_spec(key) {
            let j = choose|i: int| 0 <= i < cap && self.slots()[i] is Data && self.key_at(i) == key;
            let d = dist(base, j, cap);
            lemma_wrap_dist(base, j, cap);
            assert(self.start_at(j) == base);
            if d < t {
                assert(self.slots()[wrap(base, d, cap)] is Data ==> self.key_at(
                    wrap(base, d, cap),
                ) != key);
                assert(wrap(base, d, cap) == j);
            } else if d == t {
                assert(t < cap);
                assert(wrap(base, t, cap) == j);
            } else {
                assert(self.probe_ok(j));
                assert(!(self.probe_slot(j, t) is Empty));
                assert(self.probe_slot(j, t) == self.slots()[wrap(base, t, cap)]);
            }
        }
    }

    /// Walk the probe sequence of `key` and return the index to insert at:
    /// the live slot already storing the key, or else the first reusable
    /// slot on the path — preferring the earliest tombstone, so removed
    /// slots are reclaimed, but never stopping at a tombstone before the
    /// key itself has been ruled out, which keeps stored keys unique.
    ///
    /// Because the invariant keeps the table strictly less than full, a free
    /// or matching slot always exists: probe-cycle exhaustion is impossible.
    fn probe_free(&self, key: &[u8], hash: u64) -> (r: usize)
        requires
            self.inv(),
            hash == self.hash_of(key@),
        ensures
            r < self.cap(),
            self.contains_spec(key@) ==> self.slots()[r as int] is Data && self.key_at(r as int)
                == key@ && self.idx_of(key@) == r as int,
            !self.contains_spec(key@) ==> !(self.slots()[r as int] is Data) && (forall|u: int|
                0 <= u < dist(self.hash_of(key@) as int % self.cap(), r as int, self.cap())
                    ==> !(self.slots()[#[trigger] wrap(
                    self.hash_of(key@) as int % self.cap(),
                    u,
                    self.cap(),
                )] is Empty)),
    {
        let cap = self.bucket.len();
        let base = (hash % (cap as u64)) as usize;
        let ghost basei = base as int;
        let ghost capi = cap as int;
        let mut t: usize = 0;
        let mut idx = base;
        let mut reuse: Option<usize> = None;
        while t < cap
            invariant
                self.inv(),
                hash == self.hash_of(key@),
                capi == self.cap(),
                cap == capi,
                basei == self.hash_of(key@) as int % capi,
                base == basei,
                0 <= basei < capi,
                t <= cap,
                idx as int == wrap(basei, t as int, capi),
                0 <= idx < cap,
                forall|u: int|
                    0 <= u < t ==> !(self.slots()[#[trigger] wrap(basei, u, capi)] is Empty) && (
                    self.slots()[wrap(basei, u, capi)] is Data ==> self.key_at(
                        wrap(basei, u, capi),
                    ) != key@),
                match reuse {
                    Some(f) => 0 <= f < cap && self.slots()[f as int] is Deleted && dist(
                        basei,
                        f as int,
                        capi,
                    ) < t as int,
                    None => forall|u: int|
                        0 <= u < t ==> self.slots()[#[trigger] wrap(basei, u, capi)] is Data,
                },
            decreases cap - t,
        {
            match &self.bucket[idx] {
                Slot::Empty => {
                    proof {
                        self.lemma_absent(key@, basei, t as int);
                    }
                    match reuse {
                        Some(f) => {
                            return f;
                        },
                        None => {
                            return idx;
                        },
                    }
                },
                Slot::Data(e) => {
                    proof {
                        assert(self.entry_ok(idx as int));
                    }
                    let kb = e.data.key_bytes();
                    if bytes_eq(kb, key) {
                        proof {
                            self.lemma_idx_unique(idx as int);
                        }
                        return idx;
                    }
                },
                Slot::Deleted => {
                    if reuse.is_none() {
                        reuse = Some(idx);
                        proof {
                            lemma_dist_wrap(basei, t as int, capi);
                        }
                    }
                },
            }
            t = t + 1;
            idx = if idx + 1 == cap {
                0
            } else {
                idx + 1
            };
        }
        proof {
            self.lemma_absent(key@, basei, cap as int);
        }
        match reuse {
            Some(f) => f,
            None => {
                proof {
                    assert forall|j: int| 0 <= j < capi implies self.slots()[j] is Data by {
                        lemma_wrap_dist(basei, j, capi);
                        assert(self.slots()[wrap(basei, dist(basei, j, capi), capi)] is Data);
                    }
                    lemma_count_live_all(self.slots());
                }
                unreached()
            },
        }
    }

    /// `lemma_write_entry`, quantified over the resulting state: every table
    /// whose slots are the updated sequence (and whose hasher is unchanged)
    /// has the lemma's conclusions. Operations that hand out a mutable
    /// borrow into the table use this, since the borrow rules keep their
    /// proofs from naming the table's final state directly.
    proof fn lemma_write_entry_all(pre: Self, i: int, e: Entry<D, V>)
        requires
            forall|j: int| 0 <= j < pre.cap() ==> #[trigger] pre.entry_ok(j),
            forall|j: int| 0 <= j < pre.cap() ==> #[trigger] pre.probe_ok(j),
            pre.keys_unique(),
            0 <= i < pre.cap(),
            e.data.wf(),
            (e.data.cached_spec() matches Some(h) ==> h == pre.hash_of(e.data.key_seq())),
            (pre.slots()[i] is Data && pre.key_at(i) == e.data.key_seq()) || (!(
            pre.slots()[i] is Data) && !pre.contains_spec(e.data.key_seq()) && forall|u: int|
                0 <= u < dist(pre.hash_of(e.data.key_seq()) as int % pre.cap(), i, pre.cap())
                    ==> !(pre.slots()[#[trigger] wrap(
                    pre.hash_of(e.data.key_seq()) as int % pre.cap(),
                    u,
                    pre.cap(),
                )] is Empty)),
        ensures
            forall|post: Self|
                ((#[trigger] post.slots()) == pre.slots().update(i, Slot::Data(e))
                    && post.spec_hasher() == pre.spec_hasher()) ==> {
                    &&& post.cap() == pre.cap()
                    &&& forall|j: int| 0 <= j < post.cap() ==> #[trigger] post.entry_ok(j)
                    &&& forall|j: int| 0 <= j < post.cap() ==> #[trigger] post.probe_ok(j)
                    &&& post.keys_unique()
                    &&& count_live(post.slots()) == count_live(pre.slots()) + (
                    if pre.slots()[i] is Data {
                        0int
                    } else {
                        1int
                    })
                    &&& post@ == pre@.insert(e.data.key_seq(), e.value)
                },
            pre.slots()[i] is Data ==> pre.contains_spec(e.data.key_seq()) && pre.idx_of(
                e.data.key_seq(),
            ) == i,
    {
        if pre.slots()[i] is Data {
            pre.lemma_idx_unique(i);
            assert(pre.key_at(i) == e.data.key_seq());
        }
        assert forall|post: Self|
            ((#[trigger] post.slots()) == pre.slots().update(i, Slot::Data(e))
                && post.spec_hasher() == pre.spec_hasher()) implies {
            &&& post.cap() == pre.cap()
            &&& forall|j: int| 0 <= j < post.cap() ==> #[trigger] post.entry_ok(j)
            &&& forall|j: int| 0 <= j < post.cap() ==> #[trigger] post.probe_ok(j)
            &&& post.keys_unique()
            &&& count_live(post.slots()) == count_live(pre.slots()) + (
            if pre.slots()[i] is Data {
                0int
            } else {
                1int
            })
            &&& post@ == pre@.insert(e.data.key_seq(), e.value)
        } by {
            Self::lemma_write_entry(pre, post, i, e);
        }
    }

    /// Clearing a live slot to a tombstone keeps every structural invariant
    /// and removes exactly that slot's key from the stored association.
    proof fn lemma_remove_entry(pre: Self, post: Self, i: int)
        requires
            forall|j: int| 0 <= j < pre.cap() ==> #[trigger] pre.entry_ok(j),
            forall|j: int| 0 <= j < pre.cap() ==> #[trigger] pre.probe_ok(j),
            pre.keys_unique(),
            post.slots() == pre.slots().update(i, Slot::Deleted),
            post.spec_hasher() == pre.spec_hasher(),
            0 <= i < pre.cap(),
            pre.slots()[i] is Data,
        ensures
            post.cap() == pre.cap(),
            forall|j: int| 0 <= j < post.cap() ==> #[trigger] post.entry_ok(j),
            forall|j: int| 0 <= j < post.cap() ==> #[trigger] post.probe_ok(j),
            post.keys_unique(),
            count_live(post.slots()) == count_live(pre.slots()) - 1,
            post@ == pre@.remove(pre.key_at(i)),
            pre.contains_spec(pre.key_at(i)),
            pre.idx_of(pre.key_at(i)) == i,
    {
        let k = pre.key_at(i);
        let cap = pre.cap();
        let s_pre = pre.slots();
        let s_post = post.slots();
        assert(post.cap() == cap);
        assert forall|q: Seq<u8>| #[trigger] post.hash_of(q) == pre.hash_of(q) by {}
        pre.lemma_idx_unique(i);
        assert forall|j: int| 0 <= j < cap implies #[trigger] post.entry_ok(j) by {
            assert(pre.entry_ok(j));
            if j != i {
                assert(s_post[j] == s_pre[j]);
            }
        }
        assert forall|j: int| 0 <= j < cap implies #[trigger] post.probe_ok(j) by {
            if s_post[j] is Data {
                assert(j != i);
                assert forall|u: int|
                    0 <= u < dist(post.start_at(j), j, cap) implies !(#[trigger] post.probe_slot(
                    j,
                    u,
                ) is Empty) by {
                    let stj = post.start_at(j);
                    let p = wrap(stj, u, cap);
                    assert(0 <= stj < cap);
                    assert(0 <= p < cap);
                    assert(s_post[j] == s_pre[j]);
                    assert(pre.probe_ok(j));
                    assert(post.key_at(j) == pre.key_at(j));
                    assert(post.start_at(j) == pre.start_at(j));
                    assert(!(pre.probe_slot(j, u) is Empty));
                    assert(pre.probe_slot(j, u) == s_pre[p]);
                    if p == i {
                        assert(s_post[p] is Deleted);
                    } else {
                        assert(s_post[p] == s_pre[p]);
                    }
                    assert(post.probe_slot(j, u) == s_post[p]);
                }
            }
        }
        assert forall|a: int, b: int|
            0 <= a < b < cap && s_post[a] is Data && s_post[b] is Data implies #[trigger] post.key_at(
            a,
        ) != #[trigger] post.key_at(b) by {
            assert(a != i && b != i);
            assert(pre.key_at(a) != pre.key_at(b));
        }
        lemma_count_live_update(s_pre, i, Slot::<Entry<D, V>>::Deleted);
        assert_maps_equal!(post@, pre@.remove(k), q => {
            if post.contains_spec(q) {
                let j = post.idx_of(q);
                assert(0 <= j < cap && s_post[j] is Data && post.key_at(j) == q);
                assert(j != i);
                assert(s_pre[j] == s_post[j]);
                assert(pre.key_at(j) == q);
                assert(pre.contains_spec(q));
                if q == k {
                    assert(pre.key_at(j) != pre.key_at(i));
                }
                pre.lemma_idx_unique(j);
                post.lemma_idx_unique(j);
            }
            if q != k && pre.contains_spec(q) {
                let j = pre.idx_of(q);
                assert(0 <= j < cap && s_pre[j] is Data && pre.key_at(j) == q);
                assert(j != i);
                assert(s_post[j] == s_pre[j]);
                assert(post.key_at(j) == q);
                assert(post.contains_spec(q));
                pre.lemma_idx_unique(j);
                post.lemma_idx_unique(j);
            }
        });
    }

    /// The hash this table associates with a key is its hasher's.
    pub proof fn lemma_hash_spec(self, k: Seq<u8>)
        ensures
            self.hash_of(k) == self.spec_hasher().hash_spec(k),
    {
    }

    /// A well-formed table's capacity never falls below the class minimum,
    /// is always a power of two, and strictly exceeds the occupancy.
    pub proof fn lemma_capacity_floor(self)
        requires
            self.inv(),
        ensures
            MIN_CAPACITY <= self.cap(),
            is_pow2(self.cap()),
            self.spec_len() < self.cap(),
    {
    }

    /// Insert an entry whose key is known to be absent, without checking
    /// the load factor. The resize routine refills a fresh table with this.
    fn place(&mut self, e: Entry<D, V>, hash: u64)
        requires
            old(self).inv(),
            e.data.wf(),
            hash == old(self).hash_of(e.data.key_seq()),
            (e.data.cached_spec() matches Some(h) ==> h == hash),
            !old(self).contains_spec(e.data.key_seq()),
            old(self).spec_len() + 1 < old(self).cap(),
            (old(self).spec_len() + 1) * 3 / 2 <= old(self).cap(),
            old(self).spec_len() + 1 <= usize::MAX / 3,
        ensures
            final(self).inv(),
            final(self)@ == old(self)@.insert(e.data.key_seq(), e.value),
            final(self).spec_len() == old(self).spec_len() + 1,
            final(self).cap() == old(self).cap(),
            final(self).spec_hasher() == old(self).spec_hasher(),
    {
        let ghost pre = *self;
        let ghost ge = e;
        let i = {
            let kb = e.data.key_bytes();
            self.probe_free(kb, hash)
        };
        let slot = &mut self.bucket[i];
        let prev = slot.insert(e);
        proof {
            assert(prev is None);
        }
        self.len = self.len + 1;
        proof {
            Self::lemma_write_entry(pre, *self, i as int, ge);
        }
    }

    /// Rebuild the table into a fresh backing sequence of `new_cap` slots,
    /// re-probing every live entry and discarding tombstones. The hash of
    /// each entry is taken from its cached copy when the strategy stores
    /// one, and recomputed by `hasher` otherwise. Growth and shrink share
    /// this routine; only the target capacity differs.
    fn resize(&mut self, new_cap: usize, hasher: &H)
        requires
            old(self).len == count_live(old(self).slots()),
            old(self).spec_len() <= usize::MAX / 3,
            forall|i: int| 0 <= i < old(self).cap() ==> #[trigger] old(self).entry_ok(i),
            old(self).keys_unique(),
            (old(self).spec_len() as int) < new_cap,
            old(self).spec_len() * 3 / 2 <= new_cap,
            MIN_CAPACITY <= new_cap,
            is_pow2(new_cap as int),
            *hasher == old(self).spec_hasher(),
        ensures
            final(self).inv(),
            final(self)@ == old(self)@,
            final(self).spec_len() == old(self).spec_len(),
            final(self).cap() == new_cap,
            final(self).spec_hasher() == old(self).spec_hasher(),
    {
        let ghost pre = *self;
        let ghost pres = pre.slots();
        let mut fresh: Vec<Slot<Entry<D, V>>> = Vec::new();
        let mut n: usize = 0;
        while n < new_cap
            invariant
                n <= new_cap,
                fresh@.len() == n,
                count_live(fresh@) == 0,
                forall|j: int| 0 <= j < n ==> fresh@[j] is Empty,
            decreases new_cap - n,
        {
            proof {
                lemma_count_live_push(fresh@, Slot::<Entry<D, V>>::Empty);
            }
            fresh.push(Slot::Empty);
            n = n + 1;
        }
        core::mem::swap(&mut self.bucket, &mut fresh);
        self.len = 0;
        proof {
            assert forall|k: Seq<u8>| !self.contains_spec(k) by {
                if self.contains_spec(k) {
                    let j = self.idx_of(k);
                    assert(self.slots()[j] is Data);
                }
            }
            assert(self@ =~= Map::<Seq<u8>, V>::empty());
            assert forall|j: int| 0 <= j < self.cap() implies #[trigger] self.entry_ok(j)
                && self.probe_ok(j) by {
                assert(!(self.slots()[j] is Data));
            }
            assert(pres.take(0) =~= Seq::<Slot<Entry<D, V>>>::empty());
        }
        let mut i: usize = 0;
        let end = fresh.len();
        while i < end
            invariant
                i <= end,
                pres == pre.slots(),
                end == pres.len(),
                self.inv(),
                self.cap() == new_cap,
                MIN_CAPACITY <= new_cap,
                is_pow2(new_cap as int),
                self.spec_hasher() == pre.spec_hasher(),
                *hasher == pre.spec_hasher(),
                pre.len == count_live(pres),
                pre.spec_len() <= usize::MAX / 3,
                (pre.spec_len() as int) < new_cap,
                pre.spec_len() * 3 / 2 <= new_cap,
                forall|j: int| 0 <= j < pre.cap() ==> #[trigger] pre.entry_ok(j),
                pre.keys_unique(),
                fresh@.len() == pres.len(),
                forall|j: int| i <= j < pres.len() ==> fresh@[j] == pres[j],
                self.len == count_live(pres.take(i as int)),
                forall|j: int|
                    0 <= j < i && pres[j] is Data ==> self@.dom().contains(
                        #[trigger] pre.key_at(j),
                    ) && self@[pre.key_at(j)] == pre.value_at(j),
                forall|k: Seq<u8>| #![trigger self@.dom().contains(k)]
                    self@.dom().contains(k) ==> exists|j: int|
                        0 <= j < i && pres[j] is Data && pre.key_at(j) == k,
            decreases end - i,
        {
            let ghost before = *self;
            proof {
                assert(fresh@[i as int] == pres[i as int]);
            }
            let mut tmp: Slot<Entry<D, V>> = Slot::Empty;
            core::mem::swap(&mut fresh[i], &mut tmp);
            proof {
                assert(tmp == pres[i as int]);
                lemma_count_live_take(pres, i as int);
            }
            match tmp {
                Slot::Data(e) => {
                    proof {
                        assert(pre.entry_ok(i as int));
                        assert(pres[i as int]->0 == e);
                        assert(pre.key_at(i as int) == e.data.key_seq());
                        assert(pre.value_at(i as int) == e.value);
                        if self@.dom().contains(e.data.key_seq()) {
                            let j = choose|j: int|
                                0 <= j < i && pres[j] is Data && pre.key_at(j)
                                    == e.data.key_seq();
                            assert(pre.key_at(j) != pre.key_at(i as int));
                        }
                    }
                    let h = match e.data.cached_hash() {
                        Some(h) => h,
                        None => hasher.hash(e.data.key_bytes()),
                    };
                    proof {
                        assert(h == self.hash_of(e.data.key_seq()));
                    }
                    self.place(e, h);
                    i = i + 1;
                    proof {
                        assert forall|j: int|
                            0 <= j < i && pres[j] is Data implies self@.dom().contains(
                            #[trigger] pre.key_at(j),
                        ) && self@[pre.key_at(j)] == pre.value_at(j) by {
                            if j < i - 1 {
                                assert(before@.dom().contains(pre.key_at(j)));
                                if pre.key_at(j) == e.data.key_seq() {
                                    assert(pre.key_at(j) != pre.key_at(i - 1));
                                }
                            }
                        }
                        assert forall|k: Seq<u8>| #![trigger self@.dom().contains(k)]
                            self@.dom().contains(k) implies exists|j: int|
                            0 <= j < i && pres[j] is Data && pre.key_at(j) == k by {
                            if k != e.data.key_seq() {
                                assert(before@.dom().contains(k));
                                let j = choose|j: int|
                                    0 <= j < i - 1 && pres[j] is Data && pre.key_at(j) == k;
                                assert(0 <= j < i && pres[j] is Data && pre.key_at(j) == k);
                            } else {
                                assert(0 <= i - 1 < i && pres[i - 1] is Data && pre.key_at(i - 1)
                                    == k);
                            }
                        }
                    }
                },
                _ => {
                    i = i + 1;
                    proof {
                        assert forall|j: int|
                            0 <= j < i && pres[j] is Data implies self@.dom().contains(
                            #[trigger] pre.key_at(j),
                        ) && self@[pre.key_at(j)] == pre.value_at(j) by {
                            assert(j < i - 1 || !(pres[j] is Data));
                        }
                    }
                },
            }
        }
        proof {
            assert(pres.take(pres.len() as int) =~= pres);
            assert_maps_equal!(self@, pre@, q => {
                if self@.dom().contains(q) {
                    let j = choose|j: int| 0 <= j < end && pres[j] is Data && pre.key_at(j) == q;
                    assert(pre.contains_spec(q));
                    pre.lemma_idx_unique(j);
                }
                if pre.contains_spec(q) {
                    let j = pre.idx_of(q);
                    assert(0 <= j < end && pres[j] is Data && pre.key_at(j) == q);
                    assert(self@.dom().contains(pre.key_at(j)));
                    pre.lemma_idx_unique(j);
                }
            });
        }
    }

    /// Insert or overwrite: store `value` under the key of `data`,
    /// returning the previously stored value if the key was present. The
    /// load factor is checked afterwards and the table grows — doubling its
    /// capacity — once it is about two thirds full.
    pub fn insert(&mut self, data: D, hash: u64, value: V, hasher: &H) -> (r: Option<V>)
        requires
            old(self).inv(),
            data.wf(),
            hash == old(self).hash_of(data.key_seq()),
            (data.cached_spec() matches Some(h) ==> h == hash),
            *hasher == old(self).spec_hasher(),
            old(self).spec_len() + 1 <= usize::MAX / 3,
        ensures
            final(self).inv(),
            final(self)@ == old(self)@.insert(data.key_seq(), value),
            final(self).spec_hasher() == old(self).spec_hasher(),
            old(self).cap() <= final(self).cap(),
            match r {
                Some(prev) => old(self)@.dom().contains(data.key_seq()) && prev == old(self)@[data.key_seq()]
                    && final(self).spec_len() == old(self).spec_len(),
                None => !old(self)@.dom().contains(data.key_seq())
                    && final(self).spec_len() == old(self).spec_len() + 1,
            },
    {
        let ghost pre = *self;
        let ghost k = data.key_seq();
        let i = {
            let kb = data.key_bytes();
            self.probe_free(kb, hash)
        };
        let ghost ge = Entry { data, value };
        let slot = &mut self.bucket[i];
        let prev = slot.insert(Entry { data, value });
        let r = match prev {
            Some(e0) => {
                proof {
                    Self::lemma_write_entry(pre, *self, i as int, ge);
                }
                Some(e0.value)
            },
            None => {
                self.len = self.len + 1;
                proof {
                    Self::lemma_write_entry(pre, *self, i as int, ge);
                }
                None
            },
        };
        if self.len * 3 / 2 >= self.bucket.len() {
            proof {
                lemma_count_live_le_len(self.slots());
                reveal_with_fuel(is_pow2, 2);
            }
            let newcap = self.bucket.len() * 2;
            self.resize(newcap, hasher);
        }
        r
    }

    /// Look up a value by key. `hash` must be the key's hash under this
    /// table's hasher; there are no side effects.
    pub fn get(&self, key: &[u8], hash: u64) -> (r: Option<&V>)
        requires
            self.inv(),
            hash == self.hash_of(key@),
        ensures
            match r {
                Some(v) => self@.contains_key(key@) && *v == self@[key@],
                None => !self@.contains_key(key@),
            },
    {
        match self.lookup(key, hash) {
            Some(i) => match &self.bucket[i] {
                Slot::Data(e) => Some(&e.value),
                _ => {
                    proof {
                        assert(false);
                    }
                    unreached()
                },
            },
            None => None,
        }
    }

    /// Look up a mutable reference to the value stored under `key`. The
    /// table's shape is untouched; only the referenced value may change.
    pub fn get_mut(&mut self, key: &[u8], hash: u64) -> (r: Option<&mut V>)
        requires
            old(self).inv(),
            hash == old(self).hash_of(key@),
        ensures
            match r {
                Some(v) => old(self)@.dom().contains(key@) && *v == old(self)@[key@]
                    && final(self).inv() && final(self)@ == old(self)@.insert(key@, *final(v))
                    && final(self).spec_len() == old(self).spec_len()
                    && final(self).cap() == old(self).cap()
                    && final(self).spec_hasher() == old(self).spec_hasher(),
                None => !old(self)@.dom().contains(key@) && final(self).inv()
                    && final(self)@ == old(self)@
                    && final(self).spec_len() == old(self).spec_len()
                    && final(self).cap() == old(self).cap()
                    && final(self).spec_hasher() == old(self).spec_hasher(),
            },
    {
        let ghost pre = *self;
        match self.lookup(key, hash) {
            Some(i) => {
                let slot = &mut self.bucket[i];
                match slot {
                    Slot::Data(e) => {
                        let v = &mut e.value;
                        proof {
                            let ge = Entry { data: pre.slots()[i as int]->0.data, value: *final(v) };
                            assert(pre.entry_ok(i as int));
                            Self::lemma_write_entry_all(pre, i as int, ge);
                        }
                        Some(v)
                    },
                    _ => {
                        proof {
                            assert(false);
                        }
                        unreached()
                    },
                }
            },
            None => None,
        }
    }

    /// If the key of `data` is absent, insert it with `value` and return
    /// nothing; the table then grows once it is about two thirds full. If
    /// the key is present, leave the stored value untouched and hand back a
    /// mutable reference to it together with the rejected `value`, so the
    /// caller can merge without a second lookup.
    pub fn try_insert(&mut self, data: D, hash: u64, value: V, hasher: &H) -> (r: Option<
        (&mut V, V),
    >)
        requires
            old(self).inv(),
            data.wf(),
            hash == old(self).hash_of(data.key_seq()),
            (data.cached_spec() matches Some(h) ==> h == hash),
            *hasher == old(self).spec_hasher(),
            old(self).spec_len() + 1 <= usize::MAX / 3,
        ensures
            match r {
                Some(pair) => old(self)@.dom().contains(data.key_seq()) && *pair.0 == old(
                    self,
                )@[data.key_seq()] && pair.1 == value && final(self).inv()
                    && final(self)@ == old(self)@.insert(data.key_seq(), *final(pair.0))
                    && final(self).spec_len() == old(self).spec_len()
                    && final(self).cap() == old(self).cap()
                    && final(self).spec_hasher() == old(self).spec_hasher(),
                None => !old(self)@.dom().contains(data.key_seq()) && final(self).inv()
                    && final(self)@ == old(self)@.insert(data.key_seq(), value)
                    && final(self).spec_len() == old(self).spec_len() + 1
                    && final(self).cap() >= old(self).cap()
                    && final(self).spec_hasher() == old(self).spec_hasher(),
            },
    {
        let ghost pre = *self;
        let ghost k = data.key_seq();
        let i = {
            let kb = data.key_bytes();
            self.probe_free(kb, hash)
        };
        let occupied = match &self.bucket[i] {
            Slot::Data(_) => true,
            _ => false,
        };
        if occupied {
            let slot = &mut self.bucket[i];
            match slot {
                Slot::Data(stored) => {
                    let v = &mut stored.value;
                    proof {
                        let gv = Entry { data: pre.slots()[i as int]->0.data, value: *final(v) };
                        assert(pre.entry_ok(i as int));
                        Self::lemma_write_entry_all(pre, i as int, gv);
                    }
                    Some((v, value))
                },
                _ => {
                    proof {
                        assert(false);
                    }
                    unreached()
                },
            }
        } else {
            let ghost ge = Entry { data, value };
            let slot = &mut self.bucket[i];
            let prev = slot.insert(Entry { data, value });
            proof {
                assert(prev is None);
            }
            self.len = self.len + 1;
            proof {
                Self::lemma_write_entry(pre, *self, i as int, ge);
            }
            if self.len * 3 / 2 >= self.bucket.len() {
                proof {
                    lemma_count_live_le_len(self.slots());
                    reveal_with_fuel(is_pow2, 2);
                }
                let newcap = self.bucket.len() * 2;
                self.resize(newcap, hasher);
            }
            None
        }
    }

    /// The first `i` slots have been folded into the pair list `rs`.
    /// `srcs[t]` names the slot pair `t` came from, and `pos` is its
    /// inverse on live slots: every pair comes from a live slot among the
    /// first `i`, and every live slot among them is represented exactly
    /// once.
    spec fn pairs_linked(
        self,
        rs: Seq<(Vec<u8>, V)>,
        srcs: Seq<int>,
        pos: Map<int, int>,
        i: int,
    ) -> bool {
        &&& srcs.len() == rs.len()
        &&& rs.len() == count_live(self.slots().take(i))
        &&& forall|t: int|
            #![trigger srcs[t]]
            0 <= t < srcs.len() ==> 0 <= srcs[t] < i && self.slots()[srcs[t]] is Data
                && self.key_at(srcs[t]) == rs[t].0@ && self.value_at(srcs[t]) == rs[t].1
                && pos.dom().contains(srcs[t]) && pos[srcs[t]] == t
        &&& forall|j: int|
            #![trigger pos.dom().contains(j)]
            0 <= j < i && self.slots()[j] is Data ==> pos.dom().contains(j) && 0 <= pos[j]
                < rs.len() && srcs[pos[j]] == j
    }

    /// Folding a non-live slot into the pair list changes nothing.
    proof fn lemma_pairs_skip(
        self,
        rs: Seq<(Vec<u8>, V)>,
        srcs: Seq<int>,
        pos: Map<int, int>,
        i: int,
    )
        requires
            0 <= i < self.cap(),
            !(self.slots()[i] is Data),
            self.pairs_linked(rs, srcs, pos, i),
        ensures
            self.pairs_linked(rs, srcs, pos, i + 1),
    {
        lemma_count_live_take(self.slots(), i);
        assert forall|j: int|
            #![trigger pos.dom().contains(j)]
            0 <= j < i + 1 && self.slots()[j] is Data implies pos.dom().contains(j) && 0 <= pos[j]
            < rs.len() && srcs[pos[j]] == j by {
            assert(j < i);
        }
    }

    /// Folding a live slot into the pair list appends exactly its pair.
    proof fn lemma_pairs_push(
        self,
        rs: Seq<(Vec<u8>, V)>,
        srcs: Seq<int>,
        pos: Map<int, int>,
        p: (Vec<u8>, V),
        i: int,
    )
        requires
            0 <= i < self.cap(),
            self.slots()[i] is Data,
            p.0@ == self.key_at(i),
            p.1 == self.value_at(i),
            self.pairs_linked(rs, srcs, pos, i),
        ensures
            self.pairs_linked(
                rs.push(p),
                srcs.push(i),
                pos.insert(i, rs.len() as int),
                i + 1,
            ),
    {
        lemma_count_live_take(self.slots(), i);
        let rn = rs.push(p);
        let sn = srcs.push(i);
        let pn = pos.insert(i, rs.len() as int);
        assert forall|t: int|
            #![trigger sn[t]]
            0 <= t < sn.len() implies 0 <= sn[t] < i + 1 && self.slots()[sn[t]] is Data
            && self.key_at(sn[t]) == rn[t].0@ && self.value_at(sn[t]) == rn[t].1
            && pn.dom().contains(sn[t]) && pn[sn[t]] == t by {
            if t < srcs.len() {
                assert(sn[t] == srcs[t]);
                assert(rn[t] == rs[t]);
                assert(srcs[t] != i);
            } else {
                assert(sn[t] == i);
                assert(rn[t] == p);
            }
        }
        assert forall|j: int|
            #![trigger pn.dom().contains(j)]
            0 <= j < i + 1 && self.slots()[j] is Data implies pn.dom().contains(j) && 0 <= pn[j]
            < rn.len() && sn[pn[j]] == j by {
            if j < i {
                assert(pos.dom().contains(j));
                assert(pn[j] == pos[j]);
                assert(sn[pos[j]] == srcs[pos[j]]);
            } else {
                assert(pn[j] == rs.len());
                assert(sn[rs.len() as int] == i);
            }
        }
    }

    /// Once every slot is folded, the pair list enumerates the association.
    proof fn lemma_pairs_complete(
        self,
        rs: Seq<(Vec<u8>, V)>,
        srcs: Seq<int>,
        pos: Map<int, int>,
    )
        requires
            self.keys_unique(),
            self.pairs_linked(rs, srcs, pos, self.cap()),
        ensures
            rs.len() == count_live(self.slots()),
            forall|t: int|
                0 <= t < rs.len() ==> self@.dom().contains(#[trigger] rs[t].0@) && rs[t].1
                    == self@[rs[t].0@],
            forall|t: int, u: int|
                #![trigger rs[t].0@, rs[u].0@]
                0 <= t < u < rs.len() ==> rs[t].0@ != rs[u].0@,
            forall|k: Seq<u8>|
                #[trigger] self@.dom().contains(k) ==> exists|t: int|
                    0 <= t < rs.len() && rs[t].0@ == k,
    {
        assert(self.slots().take(self.cap()) =~= self.slots());
        assert forall|t: int|
            0 <= t < rs.len() implies self@.dom().contains(#[trigger] rs[t].0@) && rs[t].1
            == self@[rs[t].0@] by {
            let j = srcs[t];
            self.lemma_idx_unique(j);
        }
        assert forall|t: int, u: int|
            #![trigger rs[t].0@, rs[u].0@]
            0 <= t < u < rs.len() implies rs[t].0@ != rs[u].0@ by {
            let jt = srcs[t];
            let ju = srcs[u];
            if jt == ju {
                assert(pos[jt] == t && pos[ju] == u);
            } else {
                if rs[t].0@ == rs[u].0@ {
                    assert(self.key_at(jt) != self.key_at(ju));
                }
            }
        }
        assert forall|k: Seq<u8>|
            #[trigger] self@.dom().contains(k) implies exists|t: int|
            0 <= t < rs.len() && rs[t].0@ == k by {
            let j = self.idx_of(k);
            assert(0 <= j < self.cap() && self.slots()[j] is Data && self.key_at(j) == k);
            assert(pos.dom().contains(j) && srcs[pos[j]] == j);
            assert(0 <= pos[j] < rs.len() && rs[pos[j]].0@ == k);
        }
    }

    /// Consume the table and hand back every stored pair, keys copied out
    /// into owned buffers. The order is the backing sequence's slot order:
    /// deterministic for a fixed table state, but not meaningful.
    pub fn into_pairs(self) -> (r: Vec<(Vec<u8>, V)>)
        requires
            self.inv(),
        ensures
            r@.len() == self.spec_len(),
            forall|t: int|
                0 <= t < r@.len() ==> self@.dom().contains(#[trigger] r@[t].0@) && r@[t].1
                    == self@[r@[t].0@],
            forall|t: int, u: int|
                #![trigger r@[t].0@, r@[u].0@]
                0 <= t < u < r@.len() ==> r@[t].0@ != r@[u].0@,
            forall|k: Seq<u8>|
                #[trigger] self@.dom().contains(k) ==> exists|t: int|
                    0 <= t < r@.len() && r@[t].0@ == k,
    {
        let ghost pre = self;
        let ghost pres = pre.slots();
        let mut this = self;
        let mut r: Vec<(Vec<u8>, V)> = Vec::new();
        let ghost mut srcs: Seq<int> = Seq::empty();
        let ghost mut pos: Map<int, int> = Map::empty();
        let mut i: usize = 0;
        let end = this.bucket.len();
        proof {
            assert(pres.take(0) =~= Seq::<Slot<Entry<D, V>>>::empty());
        }
        while i < end
            invariant
                i <= end,
                pres == pre.slots(),
                end == pres.len(),
                forall|j: int| 0 <= j < pre.cap() ==> #[trigger] pre.entry_ok(j),
                pre.keys_unique(),
                this.bucket@.len() == pres.len(),
                forall|j: int| i <= j < pres.len() ==> this.bucket@[j] == pres[j],
                pre.pairs_linked(r@, srcs, pos, i as int),
            decreases end - i,
        {
            proof {
                assert(this.bucket@[i as int] == pres[i as int]);
            }
            let mut tmp: Slot<Entry<D, V>> = Slot::Empty;
            core::mem::swap(&mut this.bucket[i], &mut tmp);
            let ghost rsnap = r@;
            match tmp {
                Slot::Data(e) => {
                    proof {
                        assert(pre.entry_ok(i as int));
                    }
                    let kb = vstd::slice::slice_to_vec(e.data.key_bytes());
                    r.push((kb, e.value));
                    proof {
                        assert(r@ == rsnap.push(r@[rsnap.len() as int]));
                        pre.lemma_pairs_push(rsnap, srcs, pos, r@[rsnap.len() as int], i as int);
                        srcs = srcs.push(i as int);
                        pos = pos.insert(i as int, rsnap.len() as int);
                    }
                },
                _ => {
                    proof {
                        pre.lemma_pairs_skip(rsnap, srcs, pos, i as int);
                    }
                },
            }
            i = i + 1;
        }
        proof {
            pre.lemma_pairs_complete(r@, srcs, pos);
        }
        r
    }

    /// A lazy borrowing iterator over this table's live entries, in slot
    /// order; restartable per call and deterministic for a fixed state.
    pub fn iter<'s>(&'s self) -> (r: Iter<'s, D, V>)
        requires
            self.inv(),
        ensures
            r.inv(),
            r.slots_view() == self.slots(),
            r.spec_index() == 0,
            r.spec_rem() == self.spec_len(),
    {
        proof {
            assert(self.slots().skip(0) =~= self.slots());
            assert forall|j: int|
                0 <= j < self.slots().len() && self.slots()[j] is Data implies (#[trigger] self.slots()[j])->0.data.wf() by {
                assert(self.entry_ok(j));
            }
        }
        Iter { bucket: self.bucket.as_slice(), index: 0, rem: self.len }
    }

    /// Remove the entry stored under `key`, returning its value. The slot
    /// becomes a tombstone; afterwards the table shrinks — halving its
    /// capacity — once occupancy drops to about a third, but never below the
    /// minimum capacity.
    pub fn remove(&mut self, key: &[u8], hash: u64, hasher: &H) -> (r: Option<V>)
        requires
            old(self).inv(),
            hash == old(self).hash_of(key@),
            *hasher == old(self).spec_hasher(),
        ensures
            final(self).inv(),
            final(self)@ == old(self)@.remove(key@),
            final(self).spec_hasher() == old(self).spec_hasher(),
            final(self).cap() <= old(self).cap(),
            MIN_CAPACITY <= final(self).cap(),
            final(self).cap() < old(self).cap() ==> final(self).spec_len() > MIN_CAPACITY
                && final(self).spec_len() * 3 / 2 <= old(self).cap() / 2,
            match r {
                Some(prev) => old(self)@.dom().contains(key@) && prev == old(self)@[key@]
                    && final(self).spec_len() + 1 == old(self).spec_len(),
                None => !old(self)@.dom().contains(key@)
                    && final(self).spec_len() == old(self).spec_len(),
            },
    {
        let ghost pre = *self;
        match self.lookup(key, hash) {
            None => {
                proof {
                    assert(pre@.remove(key@) =~= pre@);
                }
                None
            },
            Some(i) => {
                let slot = &mut self.bucket[i];
                let prev = slot.remove();
                proof {
                    lemma_count_live_update(
                        pre.slots(),
                        i as int,
                        Slot::<Entry<D, V>>::Deleted,
                    );
                }
                self.len = self.len - 1;
                proof {
                    Self::lemma_remove_entry(pre, *self, i as int);
                }
                if self.len > MIN_CAPACITY && self.len * 3 / 2 <= self.bucket.len() / 2 {
                    proof {
                        let capi = self.cap();
                        assert(is_pow2(capi / 2));
                    }
                    let newcap = self.bucket.len() / 2;
                    self.resize(newcap, hasher);
                }
                match prev {
                    Some(e) => Some(e.value),
                    None => {
                        proof {
                            assert(false);
                        }
                        unreached()
                    },
                }
            },
        }
    }
}

/// A lazy, borrowing view of a table's live entries: scans the backing
/// sequence in slot order, skipping empty cells and tombstones, and counts
/// down the entries still to be yielded.
pub struct Iter<'a, D, V> {
    bucket: &'a [Slot<Entry<D, V>>],
    index: usize,
    rem: usize,
}

impl<'a, D: SlotData, V> Iter<'a, D, V> {
    /// The backing sequence this iterator walks.
    pub closed spec fn slots_view(self) -> Seq<Slot<Entry<D, V>>> {
        self.bucket@
    }

    /// The next slot to visit.
    pub closed spec fn spec_index(self) -> int {
        self.index as int
    }

    /// How many live entries remain to be yielded.
    pub closed spec fn spec_rem(self) -> nat {
        self.rem as nat
    }

    /// The position is in range, `rem` counts the live slots not yet
    /// visited, and every live slot stores a well-formed key.
    pub closed spec fn inv(self) -> bool {
        &&& self.index <= self.bucket@.len()
        &&& self.rem == count_live(self.bucket@.skip(self.index as int))
        &&& forall|j: int|
            0 <= j < self.bucket@.len() && self.bucket@[j] is Data ==> (#[trigger] self.bucket@[j])->0.data.wf()
    }

    /// Yield the next live entry: the key-view and value of the first live
    /// slot at or past the current position, or nothing once every live
    /// slot has been yielded.
    #[verifier::loop_isolation(false)]
    pub fn next(&mut self) -> (r: Option<(&'a [u8], &'a V)>)
        requires
            old(self).inv(),
        ensures
            final(self).inv(),
            final(self).slots_view() == old(self).slots_view(),
            match r {
                None => old(self).spec_rem() == 0 && final(self).spec_rem() == 0 && count_live(
                    old(self).slots_view().skip(old(self).spec_index()),
                ) == 0,
                Some(pair) => {
                    let j = final(self).spec_index() - 1;
                    &&& old(self).spec_index() <= j < old(self).slots_view().len()
                    &&& old(self).slots_view()[j] is Data
                    &&& pair.0@ == old(self).slots_view()[j]->0.data.key_seq()
                    &&& *pair.1 == old(self).slots_view()[j]->0.value
                    &&& forall|t: int|
                        old(self).spec_index() <= t < j ==> !(#[trigger] old(self).slots_view()[t] is Data)
                    &&& final(self).spec_rem() + 1 == old(self).spec_rem()
                },
            },
    {
        let ghost pre = *self;
        if self.rem == 0 {
            return None;
        }
        let ghost start = self.index as int;
        let ghost s = self.bucket@;
        let n = self.bucket.len();
        loop
            invariant
                s == self.bucket@,
                s == pre.bucket@,
                start == pre.index as int,
                self.rem == pre.rem,
                pre.index <= pre.bucket@.len(),
                start <= self.index as int <= s.len(),
                self.rem == count_live(s.skip(self.index as int)),
                self.rem > 0,
                forall|t: int| start <= t < self.index as int ==> !(#[trigger] s[t] is Data),
                forall|j: int|
                    0 <= j < s.len() && s[j] is Data ==> (#[trigger] s[j])->0.data.wf(),
            decreases s.len() - self.index,
        {
            proof {
                if self.index as int == s.len() {
                    assert(s.skip(self.index as int) =~= Seq::<Slot<Entry<D, V>>>::empty());
                }
                assert(self.index < s.len());
                lemma_count_live_skip(s, self.index as int);
            }
            let i = self.index;
            self.index = self.index + 1;
            match vstd::slice::slice_index_get(self.bucket, i) {
                Slot::Data(e) => {
                    self.rem = self.rem - 1;
                    return Some((e.data.key_bytes(), &e.value));
                },
                _ => {},
            }
        }
    }
}

} // verus!
