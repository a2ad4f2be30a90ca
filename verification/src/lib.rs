//! Columnar containers for sequences of fixed-width primitive elements:
//! an append-only variable-length list store (`ListArray`), a fixed-size
//! list store with a validity bitmap (`NullableFixedSizeListArray`), and a
//! hash-consing dictionary (`ListDictionary`, in `dictionary`) with its
//! dictionary-encoded array (`IdListArray`).

use vstd::prelude::*;

mod bitmap;
pub mod dictionary;
pub mod primitive;

use crate::bitmap::Bitmap;
use crate::dictionary::ListDictionary;
use crate::dictionary::store_contains;
use crate::dictionary::store_id;
use crate::dictionary::store_insert;
use crate::primitive::Primitive;

verus! {

use vstd::pervasive::VecAdditionalExecFns;

/// A uniform abstraction over an indexable, appendable sequence of logical
/// elements, each element itself a sequence of primitives read back as a
/// borrowed slice.
pub trait Array<P: Primitive>: Sized {
    /// The stored elements, one sequence of primitives per position.
    spec fn elements(&self) -> Seq<Seq<P>>;

    /// Well-formedness of the container's internal state.
    spec fn valid(&self) -> bool;

    /// Whether the container still has address space for `v`.
    spec fn can_append(&self, v: Seq<P>) -> bool;

    /// Returns a borrowed view of the element at position `id`, or nothing
    /// when `id` is out of range.
    fn get(&self, id: usize) -> (r: Option<&[P]>)
        requires
            self.valid(),
        ensures
            match r {
                Some(s) => id < self.elements().len() && s@ == self.elements()[id as int],
                None => id >= self.elements().len(),
            },
    ;

    /// Stores a copy of `value` and returns the position assigned to it;
    /// positions are assigned densely and monotonically starting at 0.
    fn append(&mut self, value: &[P]) -> (r: usize)
        requires
            old(self).valid(),
            old(self).can_append(value@),
        ensures
            final(self).valid(),
            final(self).elements() == old(self).elements().push(value@),
            forall|w: Seq<P>|
                old(self).can_append(value@ + w) ==> #[trigger] final(self).can_append(w),
            r == old(self).elements().len(),
    ;
}

/// Appends a copy of every element of `src` to `dst`, in order.
fn push_all<P: Primitive>(dst: &mut Vec<P>, src: &[P])
    ensures
        final(dst)@ == old(dst)@ + src@,
{
    let mut j: usize = 0;
    while j < src.len()
        invariant
            j <= src@.len(),
            dst@ == old(dst)@ + src@.subrange(0, j as int),
        decreases src@.len() - j,
    {
        dst.push(src[j]);
        proof {
            assert(dst@ =~= old(dst)@ + src@.subrange(0, j + 1 as int));
        }
        j += 1;
    }
    proof {
        assert(dst@ =~= old(dst)@ + src@);
    }
}

/// An append-only store of variable-length sequences, backed by one flat
/// value buffer and a monotonically increasing offsets sequence: sequence
/// `i` occupies `[offsets[i], offsets[i+1])` in the value buffer.
pub struct ListArray<P: Primitive> {
    offsets: Vec<usize>,
    data: Vec<P>,
}

impl<P: Primitive> ListArray<P> {
    /// The offsets buffer, as seen by specifications.
    pub closed spec fn offsets_spec(&self) -> Seq<usize> {
        self.offsets@
    }

    /// The flat value buffer, as seen by specifications.
    pub closed spec fn values_spec(&self) -> Seq<P> {
        self.data@
    }

    /// The number of stored sequences.
    pub open spec fn count(&self) -> int {
        self.offsets_spec().len() - 1
    }

    /// The two buffers satisfy the layout invariant: offsets is non-empty,
    /// starts at 0, is non-decreasing, and ends at the value buffer's length.
    pub open spec fn wf(&self) -> bool {
        &&& self.offsets_spec().len() >= 1
        &&& self.offsets_spec()[0] == 0
        &&& forall|i: int, j: int|
            0 <= i <= j < self.offsets_spec().len()
                ==> #[trigger] self.offsets_spec()[i] <= #[trigger] self.offsets_spec()[j]
        &&& self.offsets_spec()[self.count()] == self.values_spec().len()
    }

    /// The sequence stored at position `i`.
    pub open spec fn seq_at(&self, i: int) -> Seq<P> {
        self.values_spec().subrange(
            self.offsets_spec()[i] as int,
            self.offsets_spec()[i + 1] as int,
        )
    }

    /// Creates an empty store: offsets holds the single entry 0 and the
    /// value buffer is empty.
    pub fn new() -> (r: Self)
        ensures
            r.wf(),
            r.elements() == Seq::<Seq<P>>::empty(),
            r.offsets_spec() == seq![0usize],
            r.values_spec() == Seq::<P>::empty(),
    {
        let mut offsets: Vec<usize> = Vec::new();
        offsets.push(0);
        let r = ListArray { offsets, data: Vec::new() };
        proof {
            assert(r.elements() =~= Seq::<Seq<P>>::empty());
            assert(r.offsets_spec() =~= seq![0usize]);
        }
        r
    }

    /// The number of stored sequences.
    pub fn len(&self) -> (r: usize)
        requires
            self.wf(),
        ensures
            r == self.elements().len(),
    {
        self.offsets.len() - 1
    }

    /// The offsets buffer: cumulative lengths demarcating the stored
    /// sequences within the value buffer.
    pub fn offsets(&self) -> (r: &Vec<usize>)
        ensures
            r@ == self.offsets_spec(),
    {
        &self.offsets
    }

    /// The flat value buffer holding every stored sequence back to back.
    pub fn values(&self) -> (r: &Vec<P>)
        ensures
            r@ == self.values_spec(),
    {
        &self.data
    }

    /// The element count fits the machine: the offsets buffer is a `Vec`,
    /// so its length, one more than the count, is at most `usize::MAX`.
    pub proof fn lemma_count_bound(&self)
        requires
            self.wf(),
        ensures
            self.elements().len() < usize::MAX,
    {
        assert(vstd::std_specs::vec::spec_vec_len(&self.offsets) == self.offsets@.len());
    }

    /// Every state reachable through `append` keeps the offsets invariant:
    /// offsets starts at 0, is non-decreasing, has length one more than the
    /// element count, and brackets each stored sequence in the value buffer.
    pub proof fn lemma_offsets_invariant(&self)
        requires
            self.wf(),
        ensures
            self.offsets_spec().len() == self.elements().len() + 1,
            self.offsets_spec()[0] == 0,
            forall|i: int, j: int|
                0 <= i <= j < self.offsets_spec().len()
                    ==> #[trigger] self.offsets_spec()[i] <= #[trigger] self.offsets_spec()[j],
            self.offsets_spec()[self.elements().len() as int] == self.values_spec().len(),
            forall|i: int|
                0 <= i < self.elements().len()
                    ==> #[trigger] self.elements()[i] == self.values_spec().subrange(
                    self.offsets_spec()[i] as int,
                    self.offsets_spec()[i + 1] as int,
                ),
    {
    }
}

impl<P: Primitive> Default for ListArray<P> {
    /// Same as `new`: an empty store whose offsets buffer holds 0.
    fn default() -> (r: Self)
        ensures
            r.wf(),
            r.elements() == Seq::<Seq<P>>::empty(),
    {
        ListArray::new()
    }
}

impl<P: Primitive> Array<P> for ListArray<P> {
    open spec fn elements(&self) -> Seq<Seq<P>> {
        Seq::new((self.offsets_spec().len() - 1) as nat, |i: int| self.seq_at(i))
    }

    open spec fn valid(&self) -> bool {
        self.wf()
    }

    open spec fn can_append(&self, v: Seq<P>) -> bool {
        self.values_spec().len() + v.len() <= usize::MAX
    }

    fn get(&self, id: usize) -> (r: Option<&[P]>) {
        if id < self.offsets.len() - 1 {
            let start = self.offsets[id];
            let end = self.offsets[id + 1];
            Some(vstd::slice::slice_subrange(self.data.as_slice(), start, end))
        } else {
            None
        }
    }

    fn append(&mut self, value: &[P]) -> (r: usize) {
        let id = self.offsets.len() - 1;
        let end = self.offsets[id] + value.len();
        self.offsets.push(end);
        push_all(&mut self.data, value);
        proof {
            let olds = *old(self);
            assert forall|i: int| 0 <= i < olds.elements().len() implies self.elements()[i]
                == olds.elements()[i] by {
                assert(self.seq_at(i) =~= olds.seq_at(i));
            }
            assert(self.offsets_spec()[id as int] == olds.values_spec().len());
            assert(self.offsets_spec()[id + 1] == olds.values_spec().len() + value@.len());
            assert(self.values_spec() == olds.values_spec() + value@);
            assert forall|k: int| 0 <= k < value@.len() implies self.values_spec()[olds.values_spec().len() + k] == value@[k] by {}
            assert(self.seq_at(id as int) =~= value@);
            assert(self.elements() =~= olds.elements().push(value@));
        }
        id
    }
}

/// One stored group lies inside the buffer: for a group index `i` below
/// the count `c`, the group's range `[i * l, i * l + l)` lies within
/// `[0, c * l)`.
proof fn lemma_group_bound(i: int, c: int, l: int)
    requires
        0 <= i < c,
        0 <= l,
    ensures
        0 <= i * l,
        i * l + l <= c * l,
{
    vstd::arithmetic::mul::lemma_mul_inequality(0, i, l);
    vstd::arithmetic::mul::lemma_mul_inequality(i + 1, c, l);
    assert((i + 1) * l == i * l + l) by (nonlinear_arith);
    assert(0 * l == 0) by (nonlinear_arith);
}

/// Two distinct groups occupy disjoint ranges of the buffer.
proof fn lemma_group_disjoint(i: int, id: int, l: int)
    requires
        0 <= i,
        0 <= id,
        0 <= l,
        i != id,
    ensures
        i < id ==> i * l + l <= id * l,
        id < i ==> id * l + l <= i * l,
{
    if i < id {
        vstd::arithmetic::mul::lemma_mul_inequality(i + 1, id, l);
        assert((i + 1) * l == i * l + l) by (nonlinear_arith);
    } else {
        vstd::arithmetic::mul::lemma_mul_inequality(id + 1, i, l);
        assert((id + 1) * l == id * l + l) by (nonlinear_arith);
    }
}

/// A borrowed read view of one element of a `NullableFixedSizeListArray`:
/// its validity bit and its group of primitives.
pub struct NullableFixedSizeListRef<'a, P: Primitive> {
    pub validity: bool,
    pub data: &'a [P],
}

/// A write view for one element of a `NullableFixedSizeListArray`: the
/// validity bit and the group of primitives to store, handed to `set`.
pub struct NullableFixedSizeListRefMut<P: Primitive> {
    pub validity: bool,
    pub data: Vec<P>,
}

/// A store of fixed-size groups of primitives with a validity bitmap: one
/// flat value buffer of length `list_size * count`, and one validity bit
/// per group. A group's values are defined when its bit is set and
/// unspecified otherwise; the buffer holds them either way.
pub struct NullableFixedSizeListArray<P: Primitive> {
    validity: Bitmap,
    data: Vec<P>,
    list_size: usize,
}

impl<P: Primitive> NullableFixedSizeListArray<P> {
    /// The fixed number of primitives in each group.
    pub closed spec fn list_size_spec(&self) -> int {
        self.list_size as int
    }

    /// The number of stored groups.
    pub closed spec fn count(&self) -> int {
        self.validity.bits_spec().len() as int
    }

    /// The validity bit of group `i`.
    pub closed spec fn valid_at(&self, i: int) -> bool {
        self.validity.bits_spec()[i]
    }

    /// The group of primitives stored at index `i`.
    pub closed spec fn group_at(&self, i: int) -> Seq<P> {
        self.data@.subrange(
            i * self.list_size_spec(),
            i * self.list_size_spec() + self.list_size_spec(),
        )
    }

    /// The flat value buffer, as seen by specifications.
    pub closed spec fn values_spec(&self) -> Seq<P> {
        self.data@
    }

    /// Layout invariant: the value buffer holds exactly `list_size`
    /// primitives for each of the `count` groups.
    pub closed spec fn wf(&self) -> bool {
        self.values_spec().len() == self.count() * self.list_size_spec()
    }

    /// Whether the buffer still has address space for one more group.
    pub open spec fn can_append(&self) -> bool {
        self.values_spec().len() + self.list_size_spec() <= usize::MAX
    }

    /// The buffer length fits the machine, being the length of a `Vec`.
    proof fn lemma_buffer_bound(&self)
        ensures
            self.values_spec().len() <= usize::MAX,
    {
        assert(vstd::std_specs::vec::spec_vec_len(&self.data) == self.data@.len());
    }

    /// Creates an empty store of groups of `list_size` primitives.
    pub fn new(list_size: usize) -> (r: Self)
        ensures
            r.wf(),
            r.count() == 0,
            r.list_size_spec() == list_size,
            r.values_spec() == Seq::<P>::empty(),
    {
        let r = NullableFixedSizeListArray { validity: Bitmap::new(), data: Vec::new(), list_size };
        proof {
            assert(0 * (list_size as int) == 0) by (nonlinear_arith);
        }
        r
    }

    /// The number of stored groups.
    pub fn len(&self) -> (r: usize)
        ensures
            r == self.count(),
    {
        self.validity.len()
    }

    /// The fixed group size.
    pub fn list_size(&self) -> (r: usize)
        ensures
            r == self.list_size_spec(),
    {
        self.list_size
    }

    /// Appends one group with its validity bit and returns the position
    /// assigned to it.
    pub fn append(&mut self, value: &[P], validity: bool) -> (r: usize)
        requires
            old(self).wf(),
            old(self).can_append(),
            value@.len() == old(self).list_size_spec(),
        ensures
            final(self).wf(),
            final(self).count() == old(self).count() + 1,
            final(self).list_size_spec() == old(self).list_size_spec(),
            final(self).valid_at(old(self).count()) == validity,
            final(self).group_at(old(self).count()) == value@,
            final(self).values_spec() == old(self).values_spec() + value@,
            forall|i: int|
                0 <= i < old(self).count() ==> final(self).valid_at(i) == old(self).valid_at(i)
                    && #[trigger] final(self).group_at(i) == old(self).group_at(i),
            r == old(self).count(),
    {
        let r = self.validity.len();
        self.validity.push(validity);
        push_all(&mut self.data, value);
        proof {
            let olds = *old(self);
            let c = olds.count();
            let l = olds.list_size_spec();
            assert((c + 1) * l == c * l + l) by (nonlinear_arith);
            assert(self.group_at(c) =~= value@);
            assert forall|i: int| 0 <= i < c implies self.valid_at(i) == olds.valid_at(i)
                && #[trigger] self.group_at(i) == olds.group_at(i) by {
                lemma_group_bound(i, c, l);
                assert(self.group_at(i) =~= olds.group_at(i));
            }
        }
        r
    }

    /// Returns a borrowed view of group `i`, its validity bit and its
    /// primitives, or nothing when `i` is out of range.
    pub fn get(&self, id: usize) -> (r: Option<NullableFixedSizeListRef<'_, P>>)
        requires
            self.wf(),
        ensures
            match r {
                Some(v) => id < self.count() && v.validity == self.valid_at(id as int) && v.data@
                    == self.group_at(id as int),
                None => id >= self.count(),
            },
    {
        if id < self.validity.len() {
            proof {
                self.lemma_buffer_bound();
                lemma_group_bound(id as int, self.count(), self.list_size_spec());
            }
            let start = id * self.list_size;
            let end = start + self.list_size;
            Some(
                NullableFixedSizeListRef {
                    validity: self.validity.is_valid(id),
                    data: vstd::slice::slice_subrange(self.data.as_slice(), start, end),
                },
            )
        } else {
            None
        }
    }

    /// Overwrites group `id` with the write view's validity bit and
    /// primitives; all other groups are unchanged.
    pub fn set(&mut self, id: usize, value: &NullableFixedSizeListRefMut<P>)
        requires
            old(self).wf(),
            id < old(self).count(),
            value.data@.len() == old(self).list_size_spec(),
        ensures
            final(self).wf(),
            final(self).count() == old(self).count(),
            final(self).list_size_spec() == old(self).list_size_spec(),
            final(self).valid_at(id as int) == value.validity,
            final(self).group_at(id as int) == value.data@,
            forall|i: int|
                0 <= i < old(self).count() && i != id ==> final(self).valid_at(i) == old(
                    self,
                ).valid_at(i) && #[trigger] final(self).group_at(i) == old(self).group_at(i),
    {
        proof {
            self.lemma_buffer_bound();
            lemma_group_bound(id as int, old(self).count(), old(self).list_size_spec());
        }
        self.validity.set(id, value.validity);
        let start = id * self.list_size;
        let mut j: usize = 0;
        while j < self.list_size
            invariant
                j <= self.list_size,
                self.list_size == old(self).list_size,
                start == id * self.list_size_spec(),
                start + self.list_size <= self.data@.len(),
                self.data@.len() <= usize::MAX,
                value.data@.len() == self.list_size as int,
                self.validity.bits_spec() == old(self).validity.bits_spec().update(
                    id as int,
                    value.validity,
                ),
                self.data@.len() == old(self).data@.len(),
                forall|k: int|
                    0 <= k < self.data@.len() ==> #[trigger] self.data@[k] == (if start <= k
                        < start + j {
                        value.data@[k - start]
                    } else {
                        old(self).data@[k]
                    }),
            decreases self.list_size - j,
        {
            self.data.set(start + j, value.data[j]);
            j += 1;
        }
        proof {
            let olds = *old(self);
            let c = olds.count();
            let l = olds.list_size_spec();
            assert(self.group_at(id as int) =~= value.data@);
            assert forall|i: int| 0 <= i < c && i != id implies self.valid_at(i) == olds.valid_at(
                i,
            ) && #[trigger] self.group_at(i) == olds.group_at(i) by {
                lemma_group_bound(i, c, l);
                lemma_group_disjoint(i, id as int, l);
                assert(self.group_at(i) =~= olds.group_at(i));
            }
        }
    }
}

/// A dictionary-encoded array: an ordered sequence of dictionary ids, one
/// per appended sequence, referencing deduplicated values in its own
/// `ListDictionary`.
pub struct IdListArray<P: Primitive> {
    values: ListDictionary<P>,
    data: Vec<usize>,
}

impl<P: Primitive> IdListArray<P> {
    /// The deduplicated store backing this array.
    pub closed spec fn store(&self) -> Seq<Seq<P>> {
        self.values.store()
    }

    /// The assigned ids, in append order.
    pub closed spec fn ids(&self) -> Seq<usize> {
        self.data@
    }

    /// Internal consistency: the dictionary is well formed, and every
    /// recorded id was produced by it, so it addresses a stored sequence.
    pub closed spec fn wf(&self) -> bool {
        &&& self.values.wf()
        &&& forall|i: int| 0 <= i < self.ids().len() ==> 1 <= #[trigger] self.ids()[i] <= self.store().len()
    }

    /// Whether the backing store still has address space for `v`.
    pub closed spec fn can_append(&self, v: Seq<P>) -> bool {
        self.values.can_insert(v)
    }

    /// Creates an empty array over an empty dictionary.
    pub fn new() -> (r: Self)
        ensures
            r.wf(),
            r.elements() == Seq::<Seq<P>>::empty(),
            r.ids() == Seq::<usize>::empty(),
            r.store() == Seq::<Seq<P>>::empty(),
            forall|v: Seq<P>| v.len() <= usize::MAX ==> #[trigger] r.can_append(v),
    {
        let r = IdListArray { values: ListDictionary::new(), data: Vec::new() };
        proof {
            assert(r.elements() =~= Seq::<Seq<P>>::empty());
        }
        r
    }

    /// The logical elements, in append order: each id resolved through the
    /// store.
    pub open spec fn elements(&self) -> Seq<Seq<P>> {
        Seq::new(self.ids().len(), |i: int| self.store()[self.ids()[i] - 1])
    }

    /// The number of appended sequences.
    pub fn len(&self) -> (r: usize)
        ensures
            r == self.elements().len(),
    {
        self.data.len()
    }

    /// Appends `value`: its sequence is deduplicated through the
    /// dictionary and the returned id is recorded. Returns the position
    /// assigned to the new element.
    pub fn append(&mut self, value: &[P]) -> (r: usize)
        requires
            old(self).wf(),
            store_contains(old(self).store(), value@) || old(self).can_append(value@),
        ensures
            final(self).wf(),
            final(self).elements() == old(self).elements().push(value@),
            final(self).store() == store_insert(old(self).store(), value@),
            final(self).ids() == old(self).ids().push(
                store_id(old(self).store(), value@) as usize,
            ),
            forall|w: Seq<P>|
                old(self).can_append(value@ + w) ==> #[trigger] final(self).can_append(w),
            r == old(self).elements().len(),
    {
        let id = self.values.lookup_or_insert(value);
        self.data.push(id);
        proof {
            assert(id == store_id(old(self).store(), value@) as usize);
            let olds = *old(self);
            assert forall|i: int| 0 <= i < olds.elements().len() implies self.elements()[i]
                == olds.elements()[i] by {
                assert(self.store()[olds.ids()[i] - 1] == olds.store()[olds.ids()[i] - 1]);
            }
            assert(self.elements() =~= olds.elements().push(value@));
        }
        self.data.len() - 1
    }

    /// Returns the id recorded at position `i`, or nothing when `i` is out
    /// of range.
    pub fn get_id(&self, i: usize) -> (r: Option<usize>)
        ensures
            match r {
                Some(id) => i < self.ids().len() && id == self.ids()[i as int],
                None => i >= self.ids().len(),
            },
    {
        if i < self.data.len() {
            Some(self.data[i])
        } else {
            None
        }
    }

    /// Returns a borrowed view of the sequence appended at position `i`,
    /// resolved through the dictionary, or nothing when `i` is out of
    /// range.
    pub fn get(&self, i: usize) -> (r: Option<&[P]>)
        requires
            self.wf(),
        ensures
            match r {
                Some(s) => i < self.elements().len() && s@ == self.elements()[i as int],
                None => i >= self.elements().len(),
            },
    {
        if i < self.data.len() {
            let id = self.data[i];
            self.values.get(id)
        } else {
            None
        }
    }
}

impl<P: Primitive> Default for IdListArray<P> {
    /// Same as `new`: an empty array over an empty dictionary.
    fn default() -> (r: Self)
        ensures
            r.wf(),
            r.elements() == Seq::<Seq<P>>::empty(),
            r.ids() == Seq::<usize>::empty(),
            r.store() == Seq::<Seq<P>>::empty(),
            forall|v: Seq<P>| v.len() <= usize::MAX ==> #[trigger] r.can_append(v),
    {
        IdListArray::new()
    }
}

} // verus!
