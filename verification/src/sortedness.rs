//! What the sort achieves: the output is the input rearranged, it is in
//! ascending order where the relation is an order, and elements that the
//! relation does not tell apart keep their places relative to one another.

use crate::model::{
    exchange_at, lemma_exchange_rearranges, pass_over, reference_sort, reference_sort_from,
    settled, sweep, EngineState,
};
use vstd::prelude::*;

verus! {

/// `gt` is the "greater than" of an order in which ties are allowed: it is
/// never true both ways round, and "not greater than" carries over from
/// `a`, `b` and `b`, `c` to `a`, `c`.
pub open spec fn is_strict_weak_order<E>(gt: spec_fn(E, E) -> bool) -> bool {
    &&& forall|a: E, b: E| #[trigger] gt(a, b) ==> !gt(b, a)
    &&& forall|a: E, b: E, c: E| !(#[trigger] gt(a, b)) && !(#[trigger] gt(b, c)) ==> !gt(a, c)
}

/// No element of `s` is greater than one that comes after it.
pub open spec fn ascending<E>(gt: spec_fn(E, E) -> bool, s: Seq<E>) -> bool {
    forall|i: int, j: int| 0 <= i < j < s.len() ==> !gt(#[trigger] s[i], #[trigger] s[j])
}

/// `gt` tells neither of `a` and `b` to be the greater.
pub open spec fn tied<E>(gt: spec_fn(E, E) -> bool, a: E, b: E) -> bool {
    !gt(a, b) && !gt(b, a)
}

/// The elements after place `hi` are in their final places: they are in
/// ascending order and none of the elements up to `hi` is greater than any
/// of them.
spec fn tail_in_place<E>(gt: spec_fn(E, E) -> bool, s: Seq<E>, hi: int) -> bool {
    &&& forall|k: int, j: int|
        0 <= k <= hi && hi < j < s.len() ==> !gt(#[trigger] s[k], #[trigger] s[j])
    &&& forall|i: int, j: int| hi < i < j < s.len() ==> !gt(#[trigger] s[i], #[trigger] s[j])
}

/// A sweep carries the greatest element of the stretch it covers to the end
/// of that stretch, and leaves the tail in place.
proof fn lemma_sweep_raises_greatest<E>(
    gt: spec_fn(E, E) -> bool,
    s: Seq<E>,
    from: int,
    to: int,
    hi: int,
)
    requires
        is_strict_weak_order(gt),
        0 <= from <= to <= hi < s.len(),
        tail_in_place(gt, s, hi),
        forall|k: int| 0 <= k < from ==> !gt(#[trigger] s[k], s[from]),
    ensures
        sweep(gt, s, from, to).len() == s.len(),
        tail_in_place(gt, sweep(gt, s, from, to), hi),
        forall|k: int| 0 <= k < to ==> !gt(#[trigger] sweep(gt, s, from, to)[k], sweep(gt, s, from, to)[to]),
    decreases to - from,
{
    if from < to {
        if gt(s[from], s[from + 1]) {
            let next = exchange_at(s, from);
            assert forall|k: int| 0 <= k < from + 1 implies !gt(#[trigger] next[k], next[from + 1]) by {
                if k < from {
                    assert(!gt(s[k], s[from]));
                }
            }
            assert(tail_in_place(gt, next, hi)) by {
                assert forall|k: int, j: int| 0 <= k <= hi && hi < j < next.len() implies !gt(
                    #[trigger] next[k],
                    #[trigger] next[j],
                ) by {
                    assert(next[j] == s[j]);
                    if k == from {
                        assert(!gt(s[from + 1], s[j]));
                    } else if k == from + 1 {
                        assert(!gt(s[from], s[j]));
                    } else {
                        assert(!gt(s[k], s[j]));
                    }
                }
                assert forall|i: int, j: int| hi < i < j < next.len() implies !gt(
                    #[trigger] next[i],
                    #[trigger] next[j],
                ) by {
                    assert(!gt(s[i], s[j]));
                }
            }
            lemma_sweep_raises_greatest(gt, next, from + 1, to, hi);
        } else {
            assert forall|k: int| 0 <= k < from + 1 implies !gt(#[trigger] s[k], s[from + 1]) by {
                if k < from {
                    assert(!gt(s[k], s[from]));
                }
            }
            lemma_sweep_raises_greatest(gt, s, from + 1, to, hi);
        }
    }
}

/// A stretch in which no neighbours are out of order is in ascending order.
proof fn lemma_settled_is_ascending<E>(gt: spec_fn(E, E) -> bool, s: Seq<E>, i: int, j: int)
    requires
        is_strict_weak_order(gt),
        0 <= i < j < s.len(),
        settled(gt, s, 0, j),
    ensures
        !gt(s[i], s[j]),
    decreases j - i,
{
    assert(!gt(s[j - 1], s[j - 1 + 1]));
    if i < j - 1 {
        lemma_settled_is_ascending(gt, s, i, j - 1);
    }
}

/// With the tail in place, the passes from `pass` on put the whole sequence
/// in ascending order.
proof fn lemma_reference_sorts_from<E>(gt: spec_fn(E, E) -> bool, s: Seq<E>, pass: nat)
    requires
        is_strict_weak_order(gt),
        tail_in_place(gt, s, s.len() - 1 - pass),
    ensures
        ascending(gt, reference_sort_from(gt, s, pass)),
    decreases s.len() - pass,
{
    let top = s.len() - 1 - pass;
    if pass >= s.len() {
    } else if settled(gt, s, 0, top) {
        assert forall|i: int, j: int| 0 <= i < j < s.len() implies !gt(
            #[trigger] s[i],
            #[trigger] s[j],
        ) by {
            if j <= top {
                assert(settled(gt, s, 0, j));
                lemma_settled_is_ascending(gt, s, i, j);
            }
        }
    } else {
        let next = pass_over(gt, s, pass);
        lemma_sweep_raises_greatest(gt, s, 0, top, top);
        assert(tail_in_place(gt, next, top - 1)) by {
            assert forall|k: int, j: int| 0 <= k <= top - 1 && top - 1 < j < next.len() implies !gt(
                #[trigger] next[k],
                #[trigger] next[j],
            ) by {
            }
            assert forall|i: int, j: int| top - 1 < i < j < next.len() implies !gt(
                #[trigger] next[i],
                #[trigger] next[j],
            ) by {
            }
        }
        lemma_reference_sorts_from(gt, next, pass + 1);
    }
}

/// A sweep within the sequence rearranges it.
pub proof fn lemma_sweep_rearranges<E>(gt: spec_fn(E, E) -> bool, s: Seq<E>, from: int, to: int)
    requires
        0 <= from,
        to < s.len(),
    ensures
        sweep(gt, s, from, to).len() == s.len(),
        sweep(gt, s, from, to).to_multiset() == s.to_multiset(),
    decreases to - from,
{
    if from < to {
        if gt(s[from], s[from + 1]) {
            lemma_exchange_rearranges(s, from);
            lemma_sweep_rearranges(gt, exchange_at(s, from), from + 1, to);
        } else {
            lemma_sweep_rearranges(gt, s, from + 1, to);
        }
    }
}

/// The passes from `pass` on rearrange the sequence.
proof fn lemma_reference_rearranges_from<E>(gt: spec_fn(E, E) -> bool, s: Seq<E>, pass: nat)
    ensures
        reference_sort_from(gt, s, pass).len() == s.len(),
        reference_sort_from(gt, s, pass).to_multiset() == s.to_multiset(),
    decreases s.len() - pass,
{
    if pass < s.len() && !settled(gt, s, 0, s.len() - 1 - pass) {
        lemma_sweep_rearranges(gt, s, 0, s.len() - 1 - pass);
        lemma_reference_rearranges_from(gt, pass_over(gt, s, pass), pass + 1);
    }
}

/// **The sort rearranges.** Whatever the relation, the output holds the
/// elements of the input, each as often as the input does.
pub proof fn law_sort_rearranges<E>(gt: spec_fn(E, E) -> bool, s: Seq<E>)
    ensures
        reference_sort(gt, s).len() == s.len(),
        reference_sort(gt, s).to_multiset() == s.to_multiset(),
{
    lemma_reference_rearranges_from(gt, s, 0);
}

/// **The sort puts in order.** Where the relation is the "greater than" of
/// an order, no element of the output is greater than a later one.
pub proof fn law_sort_ascends<E>(gt: spec_fn(E, E) -> bool, s: Seq<E>)
    requires
        is_strict_weak_order(gt),
    ensures
        ascending(gt, reference_sort(gt, s)),
{
    lemma_reference_sorts_from(gt, s, 0);
}

/// Each element of `s` paired with the place at which it stands.
pub open spec fn tagged<E>(s: Seq<E>) -> Seq<(E, int)> {
    Seq::new(s.len(), |i: int| (s[i], i))
}

/// The elements of `pairs` without their tags.
pub open spec fn untagged<E>(pairs: Seq<(E, int)>) -> Seq<E> {
    Seq::new(pairs.len(), |i: int| pairs[i].0)
}

/// `gt` on tagged elements: the tags are not looked at.
pub open spec fn by_value<E>(gt: spec_fn(E, E) -> bool) -> spec_fn((E, int), (E, int)) -> bool {
    |a: (E, int), b: (E, int)| gt(a.0, b.0)
}

/// Wherever two elements of `pairs` are tied, the one with the smaller tag
/// comes first.
pub open spec fn ties_keep_order<E>(gt: spec_fn(E, E) -> bool, pairs: Seq<(E, int)>) -> bool {
    forall|i: int, j: int|
        0 <= i < j < pairs.len() && tied(gt, (#[trigger] pairs[i]).0, (#[trigger] pairs[j]).0)
            ==> pairs[i].1 < pairs[j].1
}

/// Exchanging two neighbours of which the left is greater does not disturb
/// the order of tied elements: the two are not tied, and every other pair
/// of places keeps its order.
proof fn lemma_exchange_keeps_ties<E>(gt: spec_fn(E, E) -> bool, pairs: Seq<(E, int)>, at: int)
    requires
        0 <= at,
        at + 1 < pairs.len(),
        gt(pairs[at].0, pairs[at + 1].0),
        ties_keep_order(gt, pairs),
    ensures
        ties_keep_order(gt, exchange_at(pairs, at)),
{
    let next = exchange_at(pairs, at);
    assert forall|i: int, j: int|
        0 <= i < j < next.len() && tied(gt, (#[trigger] next[i]).0, (#[trigger] next[j]).0) implies next[i].1
        < next[j].1 by {
        // Where each of the two places took its element from.
        let from_i = if i == at { at + 1 } else if i == at + 1 { at } else { i };
        let from_j = if j == at { at + 1 } else if j == at + 1 { at } else { j };
        assert(next[i] == pairs[from_i]);
        assert(next[j] == pairs[from_j]);
        assert(from_i < from_j);
    }
}

/// A sweep over tagged elements moves the values as a sweep over the bare
/// elements does, and keeps tied elements in order.
proof fn lemma_sweep_is_stable<E>(
    gt: spec_fn(E, E) -> bool,
    pairs: Seq<(E, int)>,
    from: int,
    to: int,
)
    requires
        0 <= from,
        to < pairs.len(),
        ties_keep_order(gt, pairs),
    ensures
        sweep(by_value(gt), pairs, from, to).len() == pairs.len(),
        ties_keep_order(gt, sweep(by_value(gt), pairs, from, to)),
        untagged(sweep(by_value(gt), pairs, from, to)) == sweep(gt, untagged(pairs), from, to),
    decreases to - from,
{
    if from < to {
        if gt(pairs[from].0, pairs[from + 1].0) {
            let next = exchange_at(pairs, from);
            lemma_exchange_keeps_ties(gt, pairs, from);
            lemma_sweep_is_stable(gt, next, from + 1, to);
            assert(untagged(next) =~= exchange_at(untagged(pairs), from));
        } else {
            lemma_sweep_is_stable(gt, pairs, from + 1, to);
        }
    }
}

/// The passes from `pass` on move tagged elements as they move the bare
/// ones, and keep tied elements in order.
proof fn lemma_reference_is_stable_from<E>(
    gt: spec_fn(E, E) -> bool,
    pairs: Seq<(E, int)>,
    pass: nat,
)
    requires
        ties_keep_order(gt, pairs),
    ensures
        ties_keep_order(gt, reference_sort_from(by_value(gt), pairs, pass)),
        untagged(reference_sort_from(by_value(gt), pairs, pass)) == reference_sort_from(
            gt,
            untagged(pairs),
            pass,
        ),
    decreases pairs.len() - pass,
{
    let top = pairs.len() - 1 - pass;
    if pass < pairs.len() {
        assert(settled(by_value(gt), pairs, 0, top) == settled(gt, untagged(pairs), 0, top)) by {
            if settled(by_value(gt), pairs, 0, top) {
                assert forall|i: int| 0 <= i < top implies !gt(
                    #[trigger] untagged(pairs)[i],
                    untagged(pairs)[i + 1],
                ) by {
                    assert(!by_value(gt)(pairs[i], pairs[i + 1]));
                }
            }
            if settled(gt, untagged(pairs), 0, top) {
                assert forall|i: int| 0 <= i < top implies !by_value(gt)(
                    #[trigger] pairs[i],
                    pairs[i + 1],
                ) by {
                    assert(!gt(untagged(pairs)[i], untagged(pairs)[i + 1]));
                }
            }
        }
        if !settled(by_value(gt), pairs, 0, top) {
            lemma_sweep_is_stable(gt, pairs, 0, top);
            lemma_reference_is_stable_from(gt, pass_over(by_value(gt), pairs, pass), pass + 1);
        }
    }
}

/// **The sort is stable.** Sort the elements together with the places at
/// which they stood, comparing the elements only. The values come out as
/// when the elements are sorted alone, each still with its own tag, and
/// wherever two of them are tied the one that stood first still stands
/// first. Only neighbours of which the left is greater are ever exchanged,
/// so this holds for every relation.
pub proof fn law_sort_is_stable<E>(gt: spec_fn(E, E) -> bool, s: Seq<E>)
    ensures
        untagged(reference_sort(by_value(gt), tagged(s))) == reference_sort(gt, s),
        reference_sort(by_value(gt), tagged(s)).to_multiset() == tagged(s).to_multiset(),
        ties_keep_order(gt, reference_sort(by_value(gt), tagged(s))),
{
    assert(untagged(tagged(s)) =~= s);
    lemma_reference_is_stable_from(gt, tagged(s), 0);
    law_sort_rearranges(by_value(gt), tagged(s));
}

impl<E> EngineState<E> {
    /// **The engine rearranges.** A session driven to completion holds the
    /// elements it was handed, each as often as before.
    pub proof fn law_run_rearranges(gt: spec_fn(E, E) -> bool, seq: Seq<E>)
        requires
            seq.len() >= 1,
        ensures
            Self::start(seq).run(gt).seq.len() == seq.len(),
            Self::start(seq).run(gt).seq.to_multiset() == seq.to_multiset(),
    {
        Self::law_matches_reference(gt, seq);
        law_sort_rearranges(gt, seq);
    }

    /// **The engine puts in order.** Where the relation is the "greater
    /// than" of an order, a session driven to completion holds its elements
    /// in ascending order.
    pub proof fn law_run_ascends(gt: spec_fn(E, E) -> bool, seq: Seq<E>)
        requires
            seq.len() >= 1,
            is_strict_weak_order(gt),
        ensures
            ascending(gt, Self::start(seq).run(gt).seq),
    {
        Self::law_matches_reference(gt, seq);
        law_sort_ascends(gt, seq);
    }

    /// **Only a greater left neighbour is exchanged.** A forward step under
    /// `gt` changes the sequence only by exchanging a pair whose left
    /// element is greater; where `gt` never holds of an element and itself,
    /// equal elements are therefore never exchanged.
    pub proof fn law_exchanges_only_greater(self, gt: spec_fn(E, E) -> bool)
        ensures
            self.step(gt).seq != self.seq ==> {
                &&& self.comparing()
                &&& gt(self.seq[self.inner as int], self.seq[self.inner as int + 1])
                &&& self.step(gt).seq == exchange_at(self.seq, self.inner as int)
            },
            (forall|a: E| !#[trigger] gt(a, a)) && self.step(gt).seq != self.seq
                ==> self.seq[self.inner as int] != self.seq[self.inner as int + 1],
    {
    }
}

impl<E> EngineState<(E, int)> {
    /// **The engine is stable.** Drive a session over the elements together
    /// with the places at which they stood, comparing the elements only. The
    /// values end as in a session over the elements alone, and wherever two
    /// of them are tied the one that stood first still stands first.
    pub proof fn law_run_is_stable(gt: spec_fn(E, E) -> bool, seq: Seq<E>)
        requires
            seq.len() >= 1,
        ensures
            untagged(Self::start(tagged(seq)).run(by_value(gt)).seq) == EngineState::start(seq).run(
                gt,
            ).seq,
            Self::start(tagged(seq)).run(by_value(gt)).seq.to_multiset() == tagged(
                seq,
            ).to_multiset(),
            ties_keep_order(gt, Self::start(tagged(seq)).run(by_value(gt)).seq),
    {
        Self::law_matches_reference(by_value(gt), tagged(seq));
        EngineState::law_matches_reference(gt, seq);
        law_sort_is_stable(gt, seq);
    }
}

} // verus!
