//! An unordered pair: a value type holding exactly two elements of one type,
//! where the order given at construction is unobservable.

use vstd::prelude::*;
use crate::order::TotalOrder;
use crate::order::eq_by_le;

verus! {

/// A pair of two values with no meaningful internal order: `UOrd::new(a, b)`
/// and `UOrd::new(b, a)` are the same value. The elements are stored sorted
/// under [`TotalOrder`], so every function of the pair (equality, hashing,
/// any encoding) agrees for the two construction orders.
#[derive(Clone, Copy, Debug, PartialEq, Eq, Hash)]
pub struct UOrd<T> {
    min: T,
    max: T,
}

impl<T> UOrd<T> {
    /// The lesser stored element.
    pub closed spec fn min_spec(self) -> T {
        self.min
    }

    /// The greater stored element.
    pub closed spec fn max_spec(self) -> T {
        self.max
    }

    /// Both elements, as the (lesser, greater) tuple.
    pub fn as_tuple(&self) -> (r: (&T, &T))
        ensures
            *r.0 == self.min_spec(),
            *r.1 == self.max_spec(),
    {
        (&self.min, &self.max)
    }

    /// Consumes the pair, returning the (lesser, greater) tuple.
    pub fn into_tuple(self) -> (r: (T, T))
        ensures
            r.0 == self.min_spec(),
            r.1 == self.max_spec(),
    {
        (self.min, self.max)
    }

    /// Both elements by reference, lesser first.
    pub fn as_array(&self) -> (r: [&T; 2])
        ensures
            *r[0] == self.min_spec(),
            *r[1] == self.max_spec(),
    {
        [&self.min, &self.max]
    }

    /// Consumes the pair, returning both elements, lesser first.
    pub fn into_array(self) -> (r: [T; 2])
        ensures
            r[0] == self.min_spec(),
            r[1] == self.max_spec(),
    {
        [self.min, self.max]
    }

    /// The two elements by reference, lesser first.
    pub fn iter(&self) -> (r: Vec<&T>)
        ensures
            r@.len() == 2,
            *r@[0] == self.min_spec(),
            *r@[1] == self.max_spec(),
    {
        let mut out: Vec<&T> = Vec::new();
        out.push(&self.min);
        out.push(&self.max);
        out
    }
}

impl<T: TotalOrder> UOrd<T> {
    /// The value that `new(a, b)` constructs: the two elements sorted.
    pub closed spec fn spec_new(a: T, b: T) -> UOrd<T> {
        if a.le_spec(&b) {
            UOrd { min: a, max: b }
        } else {
            UOrd { min: b, max: a }
        }
    }

    /// The stored elements are sorted.
    pub open spec fn sorted(self) -> bool {
        self.min_spec().le_spec(&self.max_spec())
    }

    /// Builds the pair of `a` and `b`, in either order.
    pub fn new(a: T, b: T) -> (r: UOrd<T>)
        ensures
            r == Self::spec_new(a, b),
            r.sorted(),
            r.min_spec() == (if a.le_spec(&b) { a } else { b }),
            r.max_spec() == (if a.le_spec(&b) { b } else { a }),
    {
        proof {
            T::lemma_total(&a, &b);
        }
        if a.le(&b) {
            UOrd { min: a, max: b }
        } else {
            UOrd { min: b, max: a }
        }
    }

    /// Returns the lesser of the two elements.
    pub fn min(&self) -> (r: &T)
        ensures
            *r == self.min_spec(),
    {
        &self.min
    }

    /// Returns the greater of the two elements.
    pub fn max(&self) -> (r: &T)
        ensures
            *r == self.max_spec(),
    {
        &self.max
    }

    /// Returns `true` if one of the two contained elements equals `x`.
    pub fn contains(&self, x: &T) -> (r: bool)
        ensures
            r == (self.min_spec() == *x || self.max_spec() == *x),
    {
        eq_by_le(&self.min, x) || eq_by_le(&self.max, x)
    }

    /// Returns the opposite element when one of the contained elements
    /// matches the given value, preferring the greater slot on a match.
    pub fn other(&self, x: &T) -> (r: Option<&T>)
        ensures
            match r {
                Some(v) => (self.max_spec() == *x && *v == self.min_spec())
                    || (self.min_spec() == *x && self.max_spec() != *x && *v == self.max_spec()),
                None => self.min_spec() != *x && self.max_spec() != *x,
            },
    {
        if eq_by_le(&self.max, x) {
            Some(&self.min)
        } else if eq_by_le(&self.min, x) {
            Some(&self.max)
        } else {
            None
        }
    }

    /// Returns true if the two elements of this pair are distinct.
    pub fn is_distinct(&self) -> (r: bool)
        ensures
            r == (self.min_spec() != self.max_spec()),
    {
        !eq_by_le(&self.min, &self.max) || !eq_by_le(&self.max, &self.min)
    }

    /// Returns a new pair with every element equal to `from` replaced by
    /// `to`, re-normalised.
    pub fn replace(&self, from: &T, to: T) -> (r: UOrd<T>)
        where T: Copy,
        ensures
            r == Self::spec_new(
                if self.min_spec() == *from { to } else { self.min_spec() },
                if self.max_spec() == *from { to } else { self.max_spec() },
            ),
            r.sorted(),
    {
        let a = if eq_by_le(&self.min, from) { to } else { self.min };
        let b = if eq_by_le(&self.max, from) { to } else { self.max };
        UOrd::new(a, b)
    }

    /// Builds the pair whose elements are the images of this pair's
    /// elements under `f`, re-normalised.
    pub fn map<U: TotalOrder, F: Fn(T) -> U>(self, f: F) -> (r: UOrd<U>)
        requires
            call_requires(f, (self.min_spec(),)),
            call_requires(f, (self.max_spec(),)),
        ensures
            exists|u: U, v: U| call_ensures(f, (self.min_spec(),), u)
                && call_ensures(f, (self.max_spec(),), v)
                && #[trigger] UOrd::spec_new(u, v) == r,
    {
        let (a, b) = (self.min, self.max);
        let u = f(a);
        let v = f(b);
        UOrd::new(u, v)
    }

    /// Builds the mapped pair if `f` succeeds on both elements, propagating
    /// the first failure: the greater element is not examined when the
    /// lesser one fails.
    pub fn try_map<U: TotalOrder, E, F: Fn(T) -> Result<U, E>>(self, f: F)
        -> (r: Result<UOrd<U>, E>)
        requires
            call_requires(f, (self.min_spec(),)),
            call_requires(f, (self.max_spec(),)),
        ensures
            match r {
                Ok(pair) => exists|u: U, v: U|
                    call_ensures(f, (self.min_spec(),), Ok(u))
                        && call_ensures(f, (self.max_spec(),), Ok(v))
                        && #[trigger] UOrd::spec_new(u, v) == pair,
                Err(e) => call_ensures(f, (self.min_spec(),), Err(e))
                    || (exists|u: U| #[trigger] call_ensures(f, (self.min_spec(),), Ok(u)))
                        && call_ensures(f, (self.max_spec(),), Err(e)),
            },
    {
        let (a, b) = (self.min, self.max);
        let u = match f(a) {
            Ok(u) => u,
            Err(e) => {
                return Err(e);
            }
        };
        let v = match f(b) {
            Ok(v) => v,
            Err(e) => {
                return Err(e);
            }
        };
        Ok(UOrd::new(u, v))
    }

    /// Builds the mapped pair if `f` yields a value on both elements: the
    /// greater element is not examined when the lesser one yields nothing.
    pub fn try_map_opt<U: TotalOrder, F: Fn(T) -> Option<U>>(self, f: F)
        -> (r: Option<UOrd<U>>)
        requires
            call_requires(f, (self.min_spec(),)),
            call_requires(f, (self.max_spec(),)),
        ensures
            match r {
                Some(pair) => exists|u: U, v: U|
                    call_ensures(f, (self.min_spec(),), Some(u))
                        && call_ensures(f, (self.max_spec(),), Some(v))
                        && #[trigger] UOrd::spec_new(u, v) == pair,
                None => call_ensures(f, (self.min_spec(),), None::<U>)
                    || (exists|u: U| #[trigger] call_ensures(f, (self.min_spec(),), Some(u)))
                        && call_ensures(f, (self.max_spec(),), None::<U>),
            },
    {
        let (a, b) = (self.min, self.max);
        let u = match f(a) {
            Some(u) => u,
            None => {
                return None;
            }
        };
        let v = match f(b) {
            Some(v) => v,
            None => {
                return None;
            }
        };
        Some(UOrd::new(u, v))
    }

    /// Builds the pair whose elements are the images of this pair's
    /// elements under `f`, taken by reference, re-normalised.
    pub fn map_ref<U: TotalOrder, F: Fn(&T) -> U>(&self, f: F) -> (r: UOrd<U>)
        requires
            call_requires(f, (&self.min_spec(),)),
            call_requires(f, (&self.max_spec(),)),
        ensures
            exists|u: U, v: U| call_ensures(f, (&self.min_spec(),), u)
                && call_ensures(f, (&self.max_spec(),), v)
                && #[trigger] UOrd::spec_new(u, v) == r,
    {
        let u = f(&self.min);
        let v = f(&self.max);
        UOrd::new(u, v)
    }

    /// Whether `f` accepts both elements; the greater element is not
    /// examined when the lesser one is rejected.
    pub fn both<F: Fn(&T) -> bool>(&self, f: F) -> (r: bool)
        requires
            call_requires(f, (&self.min_spec(),)),
            call_requires(f, (&self.max_spec(),)),
        ensures
            r ==> call_ensures(f, (&self.min_spec(),), true)
                && call_ensures(f, (&self.max_spec(),), true),
            !r ==> call_ensures(f, (&self.min_spec(),), false)
                || call_ensures(f, (&self.max_spec(),), false),
    {
        f(&self.min) && f(&self.max)
    }

    /// Whether `f` accepts at least one element; the greater element is not
    /// examined when the lesser one is accepted.
    pub fn either<F: Fn(&T) -> bool>(&self, f: F) -> (r: bool)
        requires
            call_requires(f, (&self.min_spec(),)),
            call_requires(f, (&self.max_spec(),)),
        ensures
            r ==> call_ensures(f, (&self.min_spec(),), true)
                || call_ensures(f, (&self.max_spec(),), true),
            !r ==> call_ensures(f, (&self.min_spec(),), false)
                && call_ensures(f, (&self.max_spec(),), false),
    {
        f(&self.min) || f(&self.max)
    }

    /// A pair of references to the two elements, in the same order.
    pub fn as_ref(&self) -> (r: UOrd<&T>)
        ensures
            *r.min_spec() == self.min_spec(),
            *r.max_spec() == self.max_spec(),
    {
        UOrd { min: &self.min, max: &self.max }
    }
}

/// What `spec_new` holds: the two given elements, sorted.
pub proof fn lemma_spec_new_elements<T: TotalOrder>(a: T, b: T)
    ensures
        UOrd::spec_new(a, b).min_spec() == (if a.le_spec(&b) { a } else { b }),
        UOrd::spec_new(a, b).max_spec() == (if a.le_spec(&b) { b } else { a }),
{
}

/// Pair symmetry: construction order is unobservable. `new(a, b)` and
/// `new(b, a)` yield the same value, so every derived quantity of the pair
/// (equality, hashing, any serialised encoding) coincides for the two.
pub proof fn lemma_new_symmetric<T: TotalOrder>(a: T, b: T)
    ensures
        UOrd::spec_new(a, b) == UOrd::spec_new(b, a),
{
    T::lemma_total(&a, &b);
    if a.le_spec(&b) && b.le_spec(&a) {
        T::lemma_antisymmetric(&a, &b);
    }
}

} // verus!
