//! The hash-consing dictionary: maps a variable-length sequence of
//! primitives to a stable, 1-based integer id, storing exactly one copy of
//! each distinct sequence in a backing `ListArray`. Id 0 is reserved to
//! mean "absent". The dedup index keeps backing-store positions, not value
//! copies: a keyed hash table, seeded per instance, maps the hash of a
//! sequence's keys to the candidate positions, and equality against the
//! backing store is the authoritative check.

use vstd::prelude::*;

use crate::Array;
use crate::ListArray;
use crate::primitive::Primitive;

verus! {

/// The dedup index of a dictionary: backing-store positions bucketed by
/// the keyed hash of the stored sequence's element keys. The hash state is
/// seeded per instance, so the table is opaque to specifications; its
/// contents are tracked through `index_entries`.
#[verifier::external_body]
pub struct DedupIndex {
    state: ahash::RandomState,
    table: hashbrown::HashMap<u64, Vec<usize>>,
}

/// The positions recorded in a dedup index, each with the key sequence it
/// was recorded under.
pub uninterp spec fn index_entries(d: DedupIndex) -> Map<usize, Seq<u64>>;

/// Relies on ahash::RandomState::new and hashbrown::HashMap::new: a fresh
/// index records no positions.
#[verifier::external_body]
fn index_new() -> (r: DedupIndex)
    ensures
        index_entries(r).dom() == Set::<usize>::empty(),
{
    DedupIndex { state: ahash::RandomState::new(), table: hashbrown::HashMap::new() }
}

/// Relies on ahash::RandomState::hash_one and hashbrown's entry API: the
/// position is pushed into the bucket of its key sequence's hash, and no
/// other bucket changes.
#[verifier::external_body]
fn index_insert(d: &mut DedupIndex, keys: &Vec<u64>, pos: usize)
    ensures
        index_entries(*final(d)) == index_entries(*old(d)).insert(pos, keys@),
{
    let h = d.state.hash_one(keys.as_slice());
    d.table.entry(h).or_default().push(pos);
}

/// Relies on ahash::RandomState::hash_one and hashbrown::HashMap::get: a
/// fixed `RandomState` instance assigns equal hashes to equal key
/// sequences, so the bucket of a key sequence's hash holds every position
/// recorded under an equal key sequence; and buckets hold only recorded
/// positions.
#[verifier::external_body]
fn index_bucket(d: &DedupIndex, keys: &Vec<u64>) -> (r: Vec<usize>)
    ensures
        forall|p: usize| r@.contains(p) ==> index_entries(*d).dom().contains(p),
        forall|p: usize|
            index_entries(*d).dom().contains(p) && index_entries(*d)[p] == keys@
                ==> r@.contains(p),
{
    let h = d.state.hash_one(keys.as_slice());
    match d.table.get(&h) {
        Some(b) => b.clone(),
        None => Vec::new(),
    }
}

/// The keys of a sequence of primitives, element by element.
pub open spec fn seq_keys<P: Primitive>(s: Seq<P>) -> Seq<u64> {
    s.map(|i: int, p: P| p.key_spec())
}

/// Computes the key of each element of `value`, in order.
fn keys_of<P: Primitive>(value: &[P]) -> (r: Vec<u64>)
    ensures
        r@ == seq_keys(value@),
{
    let mut r: Vec<u64> = Vec::new();
    let mut j: usize = 0;
    while j < value.len()
        invariant
            j <= value@.len(),
            r@.len() == j,
            forall|k: int| 0 <= k < j ==> r@[k] == seq_keys(value@)[k],
        decreases value@.len() - j,
    {
        r.push(value[j].key());
        j += 1;
    }
    proof {
        assert(r@ =~= seq_keys(value@));
    }
    r
}

/// Decides whether two slices hold equal sequences.
fn slice_eq<P: Primitive>(a: &[P], b: &[P]) -> (r: bool)
    ensures
        r == (a@ == b@),
{
    if a.len() != b.len() {
        return false;
    }
    let mut j: usize = 0;
    while j < a.len()
        invariant
            j <= a@.len(),
            a@.len() == b@.len(),
            forall|k: int| 0 <= k < j ==> a@[k] == b@[k],
        decreases a@.len() - j,
    {
        if !a[j].eq_prim(&b[j]) {
            return false;
        }
        j += 1;
    }
    proof {
        assert(a@ =~= b@);
    }
    true
}

/// Decides whether the sequence stored at position `pos` of `data` exists
/// and equals `value`.
fn entry_matches<P: Primitive>(data: &ListArray<P>, pos: usize, value: &[P]) -> (r: bool)
    requires
        data.valid(),
    ensures
        r == (pos < data.elements().len() && data.elements()[pos as int] == value@),
{
    match data.get(pos) {
        Some(s) => slice_eq(s, value),
        None => false,
    }
}

/// Whether some position of `s` holds the sequence `v`.
pub open spec fn store_contains<P>(s: Seq<Seq<P>>, v: Seq<P>) -> bool {
    exists|i: int| 0 <= i < s.len() && s[i] == v
}

/// A position of `s` that holds `v`; meaningful only when `store_contains`
/// holds, and unique when `s` has no duplicates.
pub open spec fn store_index_of<P>(s: Seq<Seq<P>>, v: Seq<P>) -> int {
    choose|i: int| 0 <= i < s.len() && s[i] == v
}

/// No two positions of `s` hold equal sequences.
pub open spec fn store_nodup<P>(s: Seq<Seq<P>>) -> bool {
    forall|i: int, j: int| 0 <= i < j < s.len() ==> s[i] != s[j]
}

/// The store after a lookup-or-insert of `v`: unchanged when `v` is
/// already present, extended by one copy of `v` otherwise.
pub open spec fn store_insert<P>(s: Seq<Seq<P>>, v: Seq<P>) -> Seq<Seq<P>> {
    if store_contains(s, v) {
        s
    } else {
        s.push(v)
    }
}

/// The 1-based id a lookup-or-insert of `v` returns on store `s`.
pub open spec fn store_id<P>(s: Seq<Seq<P>>, v: Seq<P>) -> int {
    if store_contains(s, v) {
        store_index_of(s, v) + 1
    } else {
        s.len() as int + 1
    }
}

/// Dedup idempotence: looking up or inserting `v` twice in a row yields
/// the same id both times, the second call leaves the store exactly as the
/// first left it, and the store grows by at most one across both calls.
pub proof fn lemma_dedup_idempotent<P>(s: Seq<Seq<P>>, v: Seq<P>)
    ensures
        store_id(store_insert(s, v), v) == store_id(s, v),
        store_insert(store_insert(s, v), v) == store_insert(s, v),
        store_insert(store_insert(s, v), v).len() <= s.len() + 1,
{
    if !store_contains(s, v) {
        let s1 = s.push(v);
        assert(s1[s.len() as int] == v);
        assert(store_contains(s1, v));
        let i = store_index_of(s1, v);
        assert(0 <= i < s1.len() && s1[i] == v);
        if i < s.len() {
            assert(s[i] == v);
            assert(store_contains(s, v));
        }
        assert(i == s.len() as int);
    }
}

/// Distinctness: for two unequal sequences, looking up or inserting the
/// first and then the second yields two different ids.
pub proof fn lemma_distinct_ids<P>(s: Seq<Seq<P>>, v1: Seq<P>, v2: Seq<P>)
    requires
        v1 != v2,
    ensures
        store_id(s, v1) != store_id(store_insert(s, v1), v2),
{
    let s1 = store_insert(s, v1);
    let id1 = store_id(s, v1);
    if store_contains(s, v1) {
        let i = store_index_of(s, v1);
        assert(0 <= i < s.len() && s[i] == v1);
    } else {
        assert(s1[s.len() as int] == v1);
    }
    assert(1 <= id1 <= s1.len());
    assert(s1[id1 - 1] == v1);
    if store_contains(s1, v2) {
        let j = store_index_of(s1, v2);
        assert(0 <= j < s1.len() && s1[j] == v2);
        if j == id1 - 1 {
            assert(v1 == v2);
        }
    }
}

/// Id stability under growth: once `v` is stored, a lookup-or-insert of
/// any sequence `w` leaves `v`'s id unchanged. The store may hold no
/// duplicates, as every store reachable through a dictionary does.
pub proof fn lemma_id_stable<P>(s: Seq<Seq<P>>, v: Seq<P>, w: Seq<P>)
    requires
        store_nodup(s),
        store_contains(s, v),
    ensures
        store_id(store_insert(s, w), v) == store_id(s, v),
{
    let i = store_index_of(s, v);
    assert(0 <= i < s.len() && s[i] == v);
    let s1 = store_insert(s, w);
    assert(s1[i] == v);
    assert(store_contains(s1, v));
    let j = store_index_of(s1, v);
    assert(0 <= j < s1.len() && s1[j] == v);
    if j != i {
        if j < s.len() {
            assert(s[j] == v);
            if i < j {
                assert(s[i] != s[j]);
            } else {
                assert(s[j] != s[i]);
            }
            assert(false);
        } else {
            assert(!store_contains(s, w));
            assert(s1 == s.push(w));
            assert(s1[j] == w);
            assert(s[i] == w);
            assert(store_contains(s, w));
            assert(false);
        }
    }
}

/// A hash-consing layer over a `ListArray`: every distinct sequence is
/// stored once, and each stored sequence has a stable 1-based id (its
/// backing-store position plus one); id 0 means "absent".
pub struct ListDictionary<P: Primitive> {
    dedup: DedupIndex,
    data: ListArray<P>,
}

impl<P: Primitive> ListDictionary<P> {
    /// The deduplicated sequences, in insertion order; the sequence with
    /// id `k` stands at position `k - 1`.
    pub closed spec fn store(&self) -> Seq<Seq<P>> {
        self.data.elements()
    }

    /// Whether the backing store still has address space for `v`.
    pub closed spec fn can_insert(&self, v: Seq<P>) -> bool {
        self.data.can_append(v)
    }

    /// Internal consistency: the backing store is well formed, the dedup
    /// index records exactly the backing-store positions, each under the
    /// key sequence of the sequence stored there, and no two positions
    /// hold equal sequences.
    pub closed spec fn wf(&self) -> bool {
        &&& self.data.valid()
        &&& forall|p: usize|
            index_entries(self.dedup).dom().contains(p)
                ==> (p as int) < self.store().len() && #[trigger] index_entries(self.dedup)[p]
                == seq_keys(self.store()[p as int])
        &&& forall|p: int|
            0 <= p < self.store().len() ==> #[trigger] index_entries(self.dedup).dom().contains(
                p as usize,
            )
        &&& store_nodup(self.store())
    }

    /// Creates an empty dictionary.
    pub fn new() -> (r: Self)
        ensures
            r.wf(),
            r.store() == Seq::<Seq<P>>::empty(),
            forall|v: Seq<P>| v.len() <= usize::MAX ==> #[trigger] r.can_insert(v),
    {
        ListDictionary { dedup: index_new(), data: ListArray::new() }
    }

    /// The number of stored sequences.
    pub fn len(&self) -> (r: usize)
        requires
            self.wf(),
        ensures
            r == self.store().len(),
    {
        self.data.len()
    }

    /// A well-formed dictionary's store holds no duplicates.
    pub proof fn lemma_store_nodup(&self)
        requires
            self.wf(),
        ensures
            store_nodup(self.store()),
    {
    }

    /// Probes the dedup index for a backing-store position holding a
    /// sequence equal to `value`.
    fn probe_pos(&self, value: &[P]) -> (r: Option<usize>)
        requires
            self.wf(),
        ensures
            match r {
                Some(p) => p < self.store().len() && self.store()[p as int] == value@,
                None => !store_contains(self.store(), value@),
            },
    {
        let keys = keys_of(value);
        let bucket = index_bucket(&self.dedup, &keys);
        let mut j: usize = 0;
        while j < bucket.len()
            invariant
                self.wf(),
                keys@ == seq_keys(value@),
                forall|p: usize|
                    index_entries(self.dedup).dom().contains(p) && index_entries(self.dedup)[p]
                        == keys@ ==> bucket@.contains(p),
                j <= bucket@.len(),
                forall|k: int|
                    0 <= k < j ==> !((bucket@[k] as int) < self.store().len()
                        && self.store()[bucket@[k] as int] == value@),
            decreases bucket@.len() - j,
        {
            let p = bucket[j];
            if entry_matches(&self.data, p, value) {
                return Some(p);
            }
            j += 1;
        }
        proof {
            if store_contains(self.store(), value@) {
                self.data.lemma_count_bound();
                let i = choose|i: int| 0 <= i < self.store().len() && self.store()[i] == value@;
                let pi = i as usize;
                assert(index_entries(self.dedup).dom().contains(pi));
                assert(index_entries(self.dedup)[pi] == seq_keys(self.store()[i]));
                assert(index_entries(self.dedup)[pi] == keys@);
                assert(bucket@.contains(pi));
                let k = choose|k: int| 0 <= k < bucket@.len() && bucket@[k] == pi;
                assert(!((bucket@[k] as int) < self.store().len()
                    && self.store()[bucket@[k] as int] == value@));
                assert(false);
            }
        }
        None
    }

    /// Returns the id of the stored sequence equal to `value`, or nothing
    /// when no such sequence is stored. Read-only: no insertion happens.
    pub fn lookup(&self, value: &[P]) -> (r: Option<usize>)
        requires
            self.wf(),
        ensures
            match r {
                Some(id) => 1 <= id <= self.store().len() && self.store()[id - 1] == value@,
                None => !store_contains(self.store(), value@),
            },
            r.is_some() <==> store_contains(self.store(), value@),
    {
        match self.probe_pos(value) {
            Some(p) => {
                proof {
                    self.data.lemma_count_bound();
                }
                Some(p + 1)
            },
            None => None,
        }
    }

    /// Returns the id of `value`, storing it first when it is not yet
    /// present: the store grows by the one sequence `value` when absent
    /// and is unchanged when present, and the returned id addresses
    /// `value` from now on.
    pub fn lookup_or_insert(&mut self, value: &[P]) -> (r: usize)
        requires
            old(self).wf(),
            store_contains(old(self).store(), value@) || old(self).can_insert(value@),
        ensures
            final(self).wf(),
            final(self).store() == store_insert(old(self).store(), value@),
            r as int == store_id(old(self).store(), value@),
            1 <= r <= final(self).store().len(),
            final(self).store()[r - 1] == value@,
            forall|w: Seq<P>|
                old(self).can_insert(value@ + w) ==> #[trigger] final(self).can_insert(w),
    {
        match self.probe_pos(value) {
            Some(p) => {
                proof {
                    let s = self.store();
                    assert(0 <= (p as int) < s.len() && s[p as int] == value@);
                    assert(store_contains(s, value@));
                    let i = store_index_of(s, value@);
                    assert(0 <= i < s.len() && s[i] == value@);
                    if i != p as int {
                        assert(s[i] != s[p as int]);
                        assert(false);
                    }
                    self.data.lemma_count_bound();
                }
                p + 1
            },
            None => {
                let keys = keys_of(value);
                let p = self.data.append(value);
                index_insert(&mut self.dedup, &keys, p);
                proof {
                    self.data.lemma_count_bound();
                    let olds = old(self).store();
                    let news = self.store();
                    let ent0 = index_entries(old(self).dedup);
                    let ent1 = index_entries(self.dedup);
                    assert(news == olds.push(value@));
                    assert(ent1 == ent0.insert(p, keys@));
                    assert(news[p as int] == value@);
                    assert(!store_contains(olds, value@));
                    assert forall|i: int, j: int| 0 <= i < j < news.len() implies news[i]
                        != news[j] by {
                        if j == olds.len() {
                            if news[i] == value@ {
                                assert(olds[i] == value@);
                                assert(store_contains(olds, value@));
                            }
                        }
                    }
                    assert forall|q: usize| #[trigger] ent1.dom().contains(q) implies (q as int)
                        < news.len() && ent1[q] == seq_keys(news[q as int]) by {
                        if q != p {
                            assert(ent0.dom().contains(q));
                            assert(ent0[q] == seq_keys(olds[q as int]));
                            assert((q as int) < olds.len());
                            assert(news[q as int] == olds[q as int]);
                            assert(ent1[q] == ent0[q]);
                        }
                    }
                    assert forall|q: int| 0 <= q < news.len() implies #[trigger] ent1.dom()
                        .contains(q as usize) by {
                        if q < olds.len() {
                            assert(ent0.dom().contains(q as usize));
                        } else {
                            assert(q == p as int);
                        }
                    }
                    assert(store_insert(olds, value@) == news);
                    assert(store_id(olds, value@) == olds.len() as int + 1);
                }
                p + 1
            },
        }
    }

    /// Returns the sequence with id `id`: nothing when `id` is 0 (the
    /// reserved sentinel) or beyond the store, else the stored sequence at
    /// position `id - 1`.
    pub fn get(&self, id: usize) -> (r: Option<&[P]>)
        requires
            self.wf(),
        ensures
            id == 0 ==> r.is_none(),
            id >= 1 ==> match r {
                Some(s) => id <= self.store().len() && s@ == self.store()[id - 1],
                None => id > self.store().len(),
            },
    {
        if id == 0 {
            None
        } else {
            self.data.get(id - 1)
        }
    }
}

impl<P: Primitive> Default for ListDictionary<P> {
    /// Same as `new`: an empty dictionary.
    fn default() -> (r: Self)
        ensures
            r.wf(),
            r.store() == Seq::<Seq<P>>::empty(),
            forall|v: Seq<P>| v.len() <= usize::MAX ==> #[trigger] r.can_insert(v),
    {
        ListDictionary::new()
    }
}

} // verus!
