//! A total order whose executable comparison agrees with a
//! specification-level relation.
//!
//! Verus cannot attach meaning to `std::cmp::Ord` implementations, so types
//! that need to be sorted or compared inside verified code implement this
//! trait instead. [`crate::uord::UOrd`] uses it to normalise its two
//! elements, and identifier types implement it by comparing raw integers.

use vstd::prelude::*;

verus! {

/// A total order on `Self`, with an executable comparison that agrees with
/// the specification-level relation `le_spec`.
pub trait TotalOrder: Sized {
    /// The specification-level "less than or equal" relation.
    spec fn le_spec(&self, other: &Self) -> bool;

    /// Any two values are comparable.
    proof fn lemma_total(a: &Self, b: &Self)
        ensures
            a.le_spec(b) || b.le_spec(a),
    ;

    /// Mutually comparable values are equal.
    proof fn lemma_antisymmetric(a: &Self, b: &Self)
        requires
            a.le_spec(b),
            b.le_spec(a),
        ensures
            a == b,
    ;

    /// The relation is transitive.
    proof fn lemma_transitive(a: &Self, b: &Self, c: &Self)
        requires
            a.le_spec(b),
            b.le_spec(c),
        ensures
            a.le_spec(c),
    ;

    /// Executable comparison, agreeing with `le_spec`.
    fn le(&self, other: &Self) -> (r: bool)
        ensures
            r == self.le_spec(other),
    ;
}

impl TotalOrder for u64 {
    open spec fn le_spec(&self, other: &Self) -> bool {
        *self <= *other
    }

    proof fn lemma_total(a: &Self, b: &Self) {
    }

    proof fn lemma_antisymmetric(a: &Self, b: &Self) {
    }

    proof fn lemma_transitive(a: &Self, b: &Self, c: &Self) {
    }

    fn le(&self, other: &Self) -> (r: bool) {
        *self <= *other
    }
}

/// Equality test derived from the order: two values are equal exactly when
/// each is `le` the other.
pub fn eq_by_le<T: TotalOrder>(a: &T, b: &T) -> (r: bool)
    ensures
        r == (a == b),
{
    let le_ab = a.le(b);
    let le_ba = b.le(a);
    proof {
        T::lemma_total(a, b);
        if le_ab && le_ba {
            T::lemma_antisymmetric(a, b);
        }
    }
    le_ab && le_ba
}

} // verus!
