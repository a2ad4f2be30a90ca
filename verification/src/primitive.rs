//! The capability required of a primitive element: a copyable fixed-width
//! value with decidable equality and a deterministic integer key that is
//! consistent with equality (the key is a function of the value, so equal
//! values always receive equal keys). The dictionary hashes sequences of
//! keys, and containers copy elements by value.

use vstd::prelude::*;

verus! {

/// A fixed-width element that containers may copy, compare and key.
pub trait Primitive: Sized + Copy {
    /// The integer key of this value, as seen by specifications.
    spec fn key_spec(&self) -> u64;

    /// Computes the key; it must agree with `key_spec`.
    fn key(&self) -> (r: u64)
        ensures
            r == self.key_spec(),
    ;

    /// Decides equality of two values.
    fn eq_prim(&self, other: &Self) -> (r: bool)
        ensures
            r == (*self == *other),
    ;
}

impl Primitive for u8 {
    open spec fn key_spec(&self) -> u64 {
        *self as u64
    }

    fn key(&self) -> (r: u64) {
        *self as u64
    }

    fn eq_prim(&self, other: &Self) -> (r: bool) {
        *self == *other
    }
}

impl Primitive for u16 {
    open spec fn key_spec(&self) -> u64 {
        *self as u64
    }

    fn key(&self) -> (r: u64) {
        *self as u64
    }

    fn eq_prim(&self, other: &Self) -> (r: bool) {
        *self == *other
    }
}

impl Primitive for u32 {
    open spec fn key_spec(&self) -> u64 {
        *self as u64
    }

    fn key(&self) -> (r: u64) {
        *self as u64
    }

    fn eq_prim(&self, other: &Self) -> (r: bool) {
        *self == *other
    }
}

impl Primitive for u64 {
    open spec fn key_spec(&self) -> u64 {
        *self
    }

    fn key(&self) -> (r: u64) {
        *self
    }

    fn eq_prim(&self, other: &Self) -> (r: bool) {
        *self == *other
    }
}

impl Primitive for i8 {
    open spec fn key_spec(&self) -> u64 {
        *self as u64
    }

    fn key(&self) -> (r: u64) {
        *self as u64
    }

    fn eq_prim(&self, other: &Self) -> (r: bool) {
        *self == *other
    }
}

impl Primitive for i16 {
    open spec fn key_spec(&self) -> u64 {
        *self as u64
    }

    fn key(&self) -> (r: u64) {
        *self as u64
    }

    fn eq_prim(&self, other: &Self) -> (r: bool) {
        *self == *other
    }
}

impl Primitive for i32 {
    open spec fn key_spec(&self) -> u64 {
        *self as u64
    }

    fn key(&self) -> (r: u64) {
        *self as u64
    }

    fn eq_prim(&self, other: &Self) -> (r: bool) {
        *self == *other
    }
}

impl Primitive for i64 {
    open spec fn key_spec(&self) -> u64 {
        *self as u64
    }

    fn key(&self) -> (r: u64) {
        *self as u64
    }

    fn eq_prim(&self, other: &Self) -> (r: bool) {
        *self == *other
    }
}

} // verus!
