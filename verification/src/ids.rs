//! Opaque identifier types and the contexts that mint them.
//!
//! An [`Id`] wraps a `u64` and is tagged at the type level with a "family"
//! marker so that identifiers minted for one container cannot be silently
//! interchanged with keys of another. An [`IdContext`] is a monotonically
//! increasing counter that mints fresh identifiers; within one context no two
//! `next_id` calls ever return the same value. [`AtomicIdContext`] is the
//! thread-shared variant.

use vstd::prelude::*;
use core::marker::PhantomData;
use core::sync::atomic::AtomicU64;
use core::sync::atomic::Ordering;
use crate::order::TotalOrder;

verus! {

/// An opaque identifier: a `u64` tagged with a compile-time family marker.
/// Two identifiers are equal exactly when their raw integers are equal.
#[derive(Debug, PartialEq, Eq, PartialOrd, Ord, Hash)]
pub struct Id<F> {
    id: u64,
    family: PhantomData<F>,
}

impl<F> Clone for Id<F> {
    /// Identifiers are freely copyable, whatever the family marker is.
    fn clone(&self) -> (r: Self)
        ensures
            r == *self,
    {
        Id { id: self.id, family: PhantomData }
    }
}

impl<F> Copy for Id<F> {}

impl<F> View for Id<F> {
    type V = u64;

    /// An identifier is its raw integer.
    closed spec fn view(&self) -> u64 {
        self.id
    }
}

impl<F> Id<F> {
    /// Wraps a raw integer as an identifier of this family.
    pub fn from_raw(id: u64) -> (r: Self)
        ensures
            r@ == id,
    {
        Id { id, family: PhantomData }
    }

    /// Unwraps the identifier into its raw integer.
    pub fn into_raw(self) -> (r: u64)
        ensures
            r == self@,
    {
        self.id
    }

    /// Reinterprets the identifier as belonging to another family.
    pub fn cast<U>(self) -> (r: Id<U>)
        ensures
            r@ == self@,
    {
        Id { id: self.id, family: PhantomData }
    }
}

impl<F> TotalOrder for Id<F> {
    /// Identifiers are ordered by their raw integers.
    open spec fn le_spec(&self, other: &Self) -> bool {
        self@ <= other@
    }

    proof fn lemma_total(a: &Self, b: &Self) {
    }

    proof fn lemma_antisymmetric(a: &Self, b: &Self) {
    }

    proof fn lemma_transitive(a: &Self, b: &Self, c: &Self) {
    }

    fn le(&self, other: &Self) -> (r: bool) {
        self.id <= other.id
    }
}

/// A context for minting unique identifiers of one family: a counter that
/// only ever increases, handing out its current value as the next fresh
/// identifier. Uniqueness holds within one context's lineage only; two
/// independently created contexts mint overlapping values.
#[derive(Debug)]
pub struct IdContext<F> {
    current_id: u64,
    family: PhantomData<F>,
}

impl<F> Clone for IdContext<F> {
    /// A cloned context resumes from the same counter value.
    fn clone(&self) -> (r: Self)
        ensures
            r@ == self@,
    {
        IdContext { current_id: self.current_id, family: PhantomData }
    }
}

impl<F> View for IdContext<F> {
    type V = u64;

    /// A context is its counter: the raw value its next minted id will have.
    closed spec fn view(&self) -> u64 {
        self.current_id
    }
}

impl<F> IdContext<F> {
    /// Creates a context that resumes counting from the given value; used
    /// when reconstructing a context from previously persisted data.
    pub fn with_current_id(current_id: u64) -> (r: IdContext<F>)
        ensures
            r@ == current_id,
    {
        IdContext { current_id, family: PhantomData }
    }

    /// Creates a new context counting from zero.
    pub fn new() -> (r: IdContext<F>)
        ensures
            r@ == 0,
    {
        Self::with_current_id(0)
    }

    /// Mints the next unique identifier of this context: the counter's
    /// current value, after which the counter increases by one.
    pub fn next_id(&mut self) -> (r: Id<F>)
        requires
            old(self)@ < u64::MAX,
        ensures
            r@ == old(self)@,
            final(self)@ == old(self)@ + 1,
    {
        let id = self.current_id;
        self.current_id = self.current_id + 1;
        Id::from_raw(id)
    }
}

impl<F> Default for IdContext<F> {
    /// The default context counts from zero.
    fn default() -> (r: IdContext<F>)
        ensures
            r@ == 0,
    {
        IdContext::new()
    }
}

/// The relation between a context before a `next_id` call, the context after
/// it, and the identifier it returned.
pub open spec fn minted<F>(pre: IdContext<F>, post: IdContext<F>, id: Id<F>) -> bool {
    id@ == pre@ && post@ == pre@ + 1
}

/// Identifier uniqueness within a context: along any chain of `next_id`
/// calls on one context, the returned identifiers are strictly increasing in
/// call order, and hence pairwise distinct.
pub proof fn lemma_minted_ids_strictly_increase<F>(ctxs: Seq<IdContext<F>>, ids: Seq<Id<F>>)
    requires
        ctxs.len() == ids.len() + 1,
        forall|i: int| 0 <= i < ids.len() ==> minted(ctxs[i], ctxs[i + 1], ids[i]),
    ensures
        forall|i: int, j: int| 0 <= i < j < ids.len() ==> ids[i]@ < ids[j]@,
{
    assert forall|i: int, j: int| 0 <= i <= j < ids.len() implies ids[i]@ + (j - i) == ids[j]@ by {
        lemma_minted_ids_offset(ctxs, ids, i, j);
    }
}

/// Along a chain of mints, the `j`th identifier exceeds the `i`th by exactly
/// the number of mints between them.
proof fn lemma_minted_ids_offset<F>(ctxs: Seq<IdContext<F>>, ids: Seq<Id<F>>, i: int, j: int)
    requires
        ctxs.len() == ids.len() + 1,
        forall|k: int| 0 <= k < ids.len() ==> minted(ctxs[k], ctxs[k + 1], ids[k]),
        0 <= i <= j < ids.len(),
    ensures
        ids[i]@ + (j - i) == ids[j]@,
    decreases j - i,
{
    if i < j {
        lemma_minted_ids_offset(ctxs, ids, i, j - 1);
    }
}

/// An atomic context for minting unique identifiers: like [`IdContext`], but
/// the counter is a shared atomic cell, so that concurrent callers minting
/// through the same context never receive the same value. Because the
/// counter is shared, nothing can be promised here about the value any one
/// call returns.
#[derive(Debug)]
pub struct AtomicIdContext<F> {
    current_id: AtomicU64,
    family: PhantomData<F>,
}

impl<F> AtomicIdContext<F> {
    /// Creates an atomic context that resumes counting from the given value.
    pub fn with_current_id(current_id: u64) -> (r: AtomicIdContext<F>) {
        AtomicIdContext { current_id: AtomicU64::new(current_id), family: PhantomData }
    }

    /// Creates a new atomic context counting from zero.
    pub fn new() -> (r: AtomicIdContext<F>) {
        Self::with_current_id(0)
    }

    /// Mints the next identifier: a sequentially-consistent fetch-and-add on
    /// the shared counter, so concurrent callers each receive a distinct
    /// value (in the total order of the successful increments).
    pub fn next_id(&self) -> (r: Id<F>) {
        let id = self.current_id.fetch_add(1, Ordering::SeqCst);
        Id::from_raw(id)
    }
}

impl<F> Default for AtomicIdContext<F> {
    /// The default atomic context counts from zero.
    fn default() -> (r: AtomicIdContext<F>) {
        AtomicIdContext::new()
    }
}

} // verus!
