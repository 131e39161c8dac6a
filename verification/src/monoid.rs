//! A monoid: an identity element and a combining operation, stated
//! relationally so that every implementation pins down what its own merge
//! and fold mean.

use vstd::prelude::*;

verus! {

/// A type with an identity element and a combining operation. Each
/// implementation states what its identity, its merge and its fold mean,
/// and proves the two facts that let `aggregate` be a left fold of merge.
pub trait Monoid: Sized {
    /// The values the operations accept and produce (a structural
    /// invariant; `true` when the type has none).
    spec fn valid(&self) -> bool;

    /// What it means for `r` to be the identity element.
    spec fn is_empty_val(r: &Self) -> bool;

    /// What it means for `r` to be the merge of `a` with `b`.
    spec fn is_merge_of(a: &Self, b: &Self, r: &Self) -> bool;

    /// What it means for `r` to be the left fold of merge over `items`,
    /// starting from the identity.
    spec fn is_aggregate_of(items: Seq<Self>, r: &Self) -> bool;

    /// The identity element aggregates the empty sequence.
    proof fn lemma_aggregate_empty(r: &Self)
        requires
            Self::is_empty_val(r),
        ensures
            Self::is_aggregate_of(Seq::empty(), r),
    ;

    /// Merging one more item extends the fold by that item.
    proof fn lemma_aggregate_step(items: Seq<Self>, acc: &Self, x: &Self, r: &Self)
        requires
            Self::is_aggregate_of(items, acc),
            Self::is_merge_of(acc, x, r),
        ensures
            Self::is_aggregate_of(items.push(*x), r),
    ;

    fn empty() -> (r: Self)
        ensures
            r.valid(),
            Self::is_empty_val(&r),
    ;

    fn merge(self, other: Self) -> (r: Self)
        requires
            self.valid(),
            other.valid(),
        ensures
            r.valid(),
            Self::is_merge_of(&self, &other, &r),
    ;

    /// Left fold of merge over the items, starting from the identity.
    fn aggregate(items: Vec<Self>) -> (r: Self)
        requires
            forall|i: int| 0 <= i < items@.len() ==> (#[trigger] items@[i]).valid(),
        ensures
            r.valid(),
            Self::is_aggregate_of(items@, &r),
    ;
}

} // verus!
