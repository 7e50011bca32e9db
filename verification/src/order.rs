//! What the engine assumes of its element type, named once.

use vstd::prelude::*;

verus! {

/// `outcome` is an answer that the element type's `a > b` may give.
pub open spec fn may_compare<E: PartialOrd>(a: E, b: E, outcome: bool) -> bool {
    call_ensures(<E as PartialOrd>::gt, (&a, &b), outcome)
}

/// The relation `gt` is what the element type's `>` computes: whatever a
/// comparison answers, `gt` says the same. For a type whose `>` is not
/// pinned down (floating point) no relation is known to do so.
pub open spec fn decides<E: PartialOrd>(gt: spec_fn(E, E) -> bool) -> bool {
    forall|a: E, b: E, outcome: bool| #[trigger] may_compare(a, b, outcome) ==> outcome == gt(a, b)
}

/// `>` on characters compares their codes.
pub assume_specification[ <char as PartialOrd<char>>::gt ](a: &char, b: &char) -> (r: bool)
    ensures
        r == (*a > *b),
;

/// `>` on booleans holds of `true` and `false` only.
pub assume_specification[ <bool as PartialOrd<bool>>::gt ](a: &bool, b: &bool) -> (r: bool)
    ensures
        r == (*a && !*b),
;

/// A clone of an element is that element.
pub open spec fn clone_is_exact<E: Clone>() -> bool {
    forall|a: E, b: E| #[trigger] cloned(a, b) ==> a == b
}

} // verus!
