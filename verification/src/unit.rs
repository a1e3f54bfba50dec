//! Units that distances are measured in.

use vstd::prelude::*;

verus! {

/// An unsigned integer that a [`Metric`](crate::Metric) measures distances in.
///
/// Everything the index decides, it decides by comparing units, so all that is
/// asked of one is its place in a total order: [`key`](Unit::key).
pub trait Unit: Copy {
    /// The number that the unit stands for.
    spec fn key(self) -> nat;

    /// Units are told apart by their number alone.
    proof fn lemma_key_injective(self, other: Self)
        requires
            self.key() == other.key(),
        ensures
            self == other,
    ;

    /// Whether `self` is no greater than `other`.
    fn at_most(self, other: Self) -> (holds: bool)
        ensures
            holds == (self.key() <= other.key()),
    ;

    /// Whether `self` is smaller than `other`.
    fn less(self, other: Self) -> (holds: bool)
        ensures
            holds == (self.key() < other.key()),
    ;
}

impl Unit for u8 {
    open spec fn key(self) -> nat {
        self as nat
    }

    proof fn lemma_key_injective(self, other: Self) {
    }

    fn at_most(self, other: Self) -> (holds: bool) {
        self <= other
    }

    fn less(self, other: Self) -> (holds: bool) {
        self < other
    }
}

impl Unit for u16 {
    open spec fn key(self) -> nat {
        self as nat
    }

    proof fn lemma_key_injective(self, other: Self) {
    }

    fn at_most(self, other: Self) -> (holds: bool) {
        self <= other
    }

    fn less(self, other: Self) -> (holds: bool) {
        self < other
    }
}

impl Unit for u32 {
    open spec fn key(self) -> nat {
        self as nat
    }

    proof fn lemma_key_injective(self, other: Self) {
    }

    fn at_most(self, other: Self) -> (holds: bool) {
        self <= other
    }

    fn less(self, other: Self) -> (holds: bool) {
        self < other
    }
}

impl Unit for u64 {
    open spec fn key(self) -> nat {
        self as nat
    }

    proof fn lemma_key_injective(self, other: Self) {
    }

    fn at_most(self, other: Self) -> (holds: bool) {
        self <= other
    }

    fn less(self, other: Self) -> (holds: bool) {
        self < other
    }
}

impl Unit for u128 {
    open spec fn key(self) -> nat {
        self as nat
    }

    proof fn lemma_key_injective(self, other: Self) {
    }

    fn at_most(self, other: Self) -> (holds: bool) {
        self <= other
    }

    fn less(self, other: Self) -> (holds: bool) {
        self < other
    }
}

impl Unit for usize {
    open spec fn key(self) -> nat {
        self as nat
    }

    proof fn lemma_key_injective(self, other: Self) {
    }

    fn at_most(self, other: Self) -> (holds: bool) {
        self <= other
    }

    fn less(self, other: Self) -> (holds: bool) {
        self < other
    }
}

/// Distances are compared as the numbers that they are.
pub proof fn law_units_are_numbers(a: u8, b: u16, c: u32, d: u64, e: u128, f: usize)
    ensures
        a.key() as int == a as int,
        b.key() as int == b as int,
        c.key() as int == c as int,
        d.key() as int == d as int,
        e.key() as int == e as int,
        f.key() as int == f as int,
{
}

} // verus!
