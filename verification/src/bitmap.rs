//! The validity bitmap capability required by the nullable fixed-size
//! array: index-bounded bit storage with a read view (`is_valid`) and a
//! write view (`set`), one bit per logical element. Stored here as one
//! flag per element.

use vstd::prelude::*;

verus! {

use vstd::pervasive::VecAdditionalExecFns;

/// A growable sequence of validity bits.
pub struct Bitmap {
    bits: Vec<bool>,
}

impl Bitmap {
    /// The stored bits, as seen by specifications.
    pub closed spec fn bits_spec(&self) -> Seq<bool> {
        self.bits@
    }

    /// Creates an empty bitmap.
    pub fn new() -> (r: Self)
        ensures
            r.bits_spec() == Seq::<bool>::empty(),
    {
        Bitmap { bits: Vec::new() }
    }

    /// The number of stored bits.
    pub fn len(&self) -> (r: usize)
        ensures
            r == self.bits_spec().len(),
    {
        self.bits.len()
    }

    /// Appends one bit.
    pub fn push(&mut self, b: bool)
        ensures
            final(self).bits_spec() == old(self).bits_spec().push(b),
    {
        self.bits.push(b);
    }

    /// Reads the bit at position `i`.
    pub fn is_valid(&self, i: usize) -> (r: bool)
        requires
            i < self.bits_spec().len(),
        ensures
            r == self.bits_spec()[i as int],
    {
        self.bits[i]
    }

    /// Writes the bit at position `i`.
    pub fn set(&mut self, i: usize, b: bool)
        requires
            i < old(self).bits_spec().len(),
        ensures
            final(self).bits_spec() == old(self).bits_spec().update(i as int, b),
    {
        self.bits.set(i, b);
    }
}

} // verus!
