//! The executable engine.

use crate::model::{
    earlier, latest, lemma_exchange_rearranges, lemma_latest_is_unique, reference_sort,
    reference_sort_from, settled, sweep, EngineState, Move, Slot,
};
use crate::order::{clone_is_exact, decides, may_compare};
use crate::sortedness::{ascending, is_strict_weak_order, law_sort_ascends};
use crate::text::{decimal, decimal_text, shows};
use std::collections::BTreeMap;
use std::fmt::{Debug, Display};
use vstd::prelude::*;
use vstd::string::StringExecFns;

verus! {

/// `[T]::swap` exchanges the elements at `a` and `b` and touches nothing
/// else. It panics when either index is out of bounds, so both must be in
/// range.
pub assume_specification<T>[ <[T]>::swap ](s: &mut [T], a: usize, b: usize)
    requires
        a < old(s)@.len(),
        b < old(s)@.len(),
    ensures
        final(s)@ == old(s)@.update(a as int, old(s)@[b as int]).update(b as int, old(s)@[a as int]),
;

/// `BTreeMap::last_key_value`: the entry with the greatest key, where pairs
/// of integers are ordered first by the first component and then by the
/// second; `None` exactly when the map is empty.
#[verifier::external_body]
fn last_entry<V>(events: &BTreeMap<(u32, u32), V>) -> (r: Option<((u32, u32), &V)>)
    ensures
        match r {
            Some((k, v)) => {
                &&& events@.contains_key(k)
                &&& events@[k] == *v
                &&& forall|j: (u32, u32)| events@.contains_key(j) ==> !earlier(slot_of(k), slot_of(j))
            },
            None => events@.is_empty(),
        },
{
    match events.last_key_value() {
        Some((k, v)) => Some((*k, v)),
        None => None,
    }
}

/// A key of the executable log as a position of the model.
pub open spec fn slot_of(k: (u32, u32)) -> Slot {
    (k.0 as nat, k.1 as nat)
}

/// The executable log, keyed by machine integers, as the model's log.
pub open spec fn log_of<V>(events: Map<(u32, u32), V>) -> Map<Slot, V> {
    Map::new(
        |k: Slot| k.0 <= u32::MAX && k.1 <= u32::MAX && events.contains_key((k.0 as u32, k.1 as u32)),
        |k: Slot| events[(k.0 as u32, k.1 as u32)],
    )
}

/// What a backward step did.
#[derive(PartialEq, Debug)]
pub enum AlgoPrevAction<E> {
    /// An exchange was taken back; `i_val` and `ipp_val` are the values
    /// written to `inner_idx` and `inner_idx + 1`.
    UndoSwap { outer_idx: u32, inner_idx: u32, i_val: E, ipp_val: E },
    /// A comparison that had exchanged nothing was taken back.
    NoSwap { outer_idx: u32, inner_idx: u32 },
    /// The log was empty: there was nothing to take back.
    EmptySwapEvents(),
}

/// What a forward step did.
#[derive(PartialEq, Debug)]
pub enum AlgoNextAction<E> {
    /// The pair at `inner_idx` was exchanged; `i_val` and `ipp_val` are the
    /// values that stood at `inner_idx` and `inner_idx + 1` before.
    Swap { outer_idx: u32, inner_idx: u32, i_val: E, ipp_val: E },
    /// The pair at `inner_idx` was compared and left in place.
    NoSwap { outer_idx: u32, inner_idx: u32 },
    /// No pair was compared: the cursor moved on to the next pass, or the
    /// session was marked complete.
    BookKeeping(),
}

/// The two indices of an action as text.
pub open spec fn indices_text(outer_idx: u32, inner_idx: u32) -> Seq<char> {
    "outer_idx: "@ + decimal(outer_idx as nat) + ", inner_idx: "@ + decimal(inner_idx as nat)
}

/// The two indices of an action as text.
fn indices(outer_idx: u32, inner_idx: u32) -> (text: String)
    ensures
        text@ == indices_text(outer_idx, inner_idx),
{
    let mut text = String::from_str("outer_idx: ");
    text.append(decimal_text(outer_idx).as_str());
    text.append(", inner_idx: ");
    text.append(decimal_text(inner_idx).as_str());
    text
}

impl<E: Display> AlgoPrevAction<E> {
    /// `text` describes the action: its indices, and for an exchange taken
    /// back the two values as they show themselves.
    pub open spec fn described_by(self, text: Seq<char>) -> bool {
        match self {
            AlgoPrevAction::UndoSwap { outer_idx, inner_idx, i_val, ipp_val } => exists|
                left: Seq<char>,
                right: Seq<char>,
            |
                #![trigger shows(i_val, left), shows(ipp_val, right)]
                shows(i_val, left) && shows(ipp_val, right) && text == indices_text(
                    outer_idx,
                    inner_idx,
                ) + ", ith_val: "@ + left + ", inext_val: "@ + right,
            AlgoPrevAction::NoSwap { outer_idx, inner_idx } => text == indices_text(
                outer_idx,
                inner_idx,
            ),
            AlgoPrevAction::EmptySwapEvents() => text == "No swap events recorded."@,
        }
    }

    /// The action in words.
    pub fn describe(&self) -> (text: String)
        ensures
            self.described_by(text@),
    {
        match self {
            AlgoPrevAction::UndoSwap { outer_idx, inner_idx, i_val, ipp_val } => {
                let left = i_val.to_string();
                let right = ipp_val.to_string();
                let mut text = indices(*outer_idx, *inner_idx);
                text.append(", ith_val: ");
                text.append(left.as_str());
                text.append(", inext_val: ");
                text.append(right.as_str());
                proof {
                    assert(shows(*i_val, left@) && shows(*ipp_val, right@));
                }
                text
            },
            AlgoPrevAction::NoSwap { outer_idx, inner_idx } => indices(*outer_idx, *inner_idx),
            AlgoPrevAction::EmptySwapEvents() => String::from_str("No swap events recorded."),
        }
    }
}

impl<E: Display> AlgoNextAction<E> {
    /// `text` describes the action: its indices, and for an exchange the two
    /// values as they show themselves.
    pub open spec fn described_by(self, text: Seq<char>) -> bool {
        match self {
            AlgoNextAction::Swap { outer_idx, inner_idx, i_val, ipp_val } => exists|
                left: Seq<char>,
                right: Seq<char>,
            |
                #![trigger shows(i_val, left), shows(ipp_val, right)]
                shows(i_val, left) && shows(ipp_val, right) && text == indices_text(
                    outer_idx,
                    inner_idx,
                ) + ", i_val: "@ + left + ", ipp_val: "@ + right,
            AlgoNextAction::NoSwap { outer_idx, inner_idx } => text == indices_text(
                outer_idx,
                inner_idx,
            ),
            AlgoNextAction::BookKeeping() => text
                == "Only book-keeping operations were performed."@,
        }
    }

    /// The action in words.
    pub fn describe(&self) -> (text: String)
        ensures
            self.described_by(text@),
    {
        match self {
            AlgoNextAction::Swap { outer_idx, inner_idx, i_val, ipp_val } => {
                let left = i_val.to_string();
                let right = ipp_val.to_string();
                let mut text = indices(*outer_idx, *inner_idx);
                text.append(", i_val: ");
                text.append(left.as_str());
                text.append(", ipp_val: ");
                text.append(right.as_str());
                proof {
                    assert(shows(*i_val, left@) && shows(*ipp_val, right@));
                }
                text
            },
            AlgoNextAction::NoSwap { outer_idx, inner_idx } => indices(*outer_idx, *inner_idx),
            AlgoNextAction::BookKeeping() => String::from_str(
                "Only book-keeping operations were performed.",
            ),
        }
    }
}

/// A sort session over a borrowed vector.
///
/// The two loop indices of bubble sort are kept as a cursor, so that the
/// sort can be advanced and taken back one action at a time. The log maps
/// the cursor position of each comparison made to `Some` of the two values
/// as they stood before an exchange, or to `None` where nothing was
/// exchanged.
#[derive(Debug, PartialEq)]
pub struct BubbleSort<'a, E> where E: PartialOrd + Debug + Clone {
    v: &'a mut Vec<E>,
    v_len: u32,
    outer_idx: u32,
    inner_idx: u32,
    sort_complete: bool,
    swap_events: BTreeMap<(u32, u32), Option<(E, E)>>,
}

impl<'a, E> View for BubbleSort<'a, E> where E: PartialOrd + Debug + Clone {
    type V = EngineState<E>;

    /// The session as a state of the model.
    closed spec fn view(&self) -> EngineState<E> {
        EngineState {
            seq: self.v@,
            outer: self.outer_idx as nat,
            inner: self.inner_idx as nat,
            complete: self.sort_complete,
            log: log_of(self.swap_events@),
        }
    }
}

impl<'a, E> BubbleSort<'a, E> where E: PartialOrd + Debug + Clone + Display {
    /// The borrow of the caller's vector that the session holds. What the
    /// caller finds in the vector afterwards is what this borrow ends with.
    pub closed spec fn borrowed(self) -> &'a mut Vec<E> {
        self.v
    }

    /// The session is in a state that the engine itself produced.
    pub closed spec fn well_formed(&self) -> bool {
        &&& self.v_len == self.v@.len()
        &&& self@.valid()
    }

    /// A well-formed session is in a valid state of the model.
    pub proof fn lemma_view_is_valid(&self)
        requires
            self.well_formed(),
        ensures
            self@.valid(),
    {
    }

    /// When the session is over, the caller's vector holds the sequence as
    /// the session left it.
    pub proof fn lemma_session_ends(self)
        requires
            has_resolved(self),
        ensures
            (*final(self.borrowed()))@ == self@.seq,
    {
    }

    /// Opens a session on `v`, or refuses an empty vector.
    pub fn new(v: &'a mut Vec<E>) -> (r: Result<Self, &'static str>)
        requires
            old(v)@.len() <= u32::MAX,
        ensures
            r is Ok <==> old(v)@.len() > 0,
            match r {
                Ok(session) => {
                    &&& session.well_formed()
                    &&& session@ == EngineState::start(old(v)@)
                    &&& *final(v) == *final(session.borrowed())
                },
                Err(msg) => {
                    &&& msg@ == "BubbleSort::new() needs a non-empty vector parameter."@
                    &&& *final(v) == *old(v)
                },
            },
    {
        if v.len() > 0 {
            let v_len = v.len() as u32;
            let bubble_sort = BubbleSort {
                v,
                v_len,
                outer_idx: 0,
                inner_idx: 0,
                sort_complete: false,
                swap_events: BTreeMap::new(),
            };
            proof {
                assert(log_of(bubble_sort.swap_events@) =~= Map::<Slot, Option<(E, E)>>::empty());
            }
            Ok(bubble_sort)
        } else {
            Err("BubbleSort::new() needs a non-empty vector parameter.")
        }
    }

    /// The sequence as it stands.
    pub fn get_vec(&'a self) -> (r: &'a Vec<E>)
        ensures
            r@ == self@.seq,
    {
        self.v
    }

    /// The length of the sequence.
    pub fn v_len(&self) -> (r: u32)
        ensures
            self.well_formed() ==> r == self@.seq.len(),
    {
        self.v_len
    }

    /// The number of passes made so far.
    pub fn outer_idx(&self) -> (r: u32)
        ensures
            r == self@.outer,
    {
        self.outer_idx
    }

    /// The place within the current pass.
    pub fn inner_idx(&self) -> (r: u32)
        ensures
            r == self@.inner,
    {
        self.inner_idx
    }

    /// The log, to read.
    pub fn swap_events(&self) -> (r: &BTreeMap<(u32, u32), Option<(E, E)>>)
        ensures
            log_of(r@) == self@.log,
    {
        &self.swap_events
    }

    /// Whether the session is complete.
    pub fn is_sorted(&self) -> (r: bool)
        ensures
            r == self@.complete,
    {
        return self.sort_complete;
    }

    /// Whether the session stands where it started: cursor at the first
    /// pair, not complete, nothing logged.
    pub fn original_state(&self) -> (r: bool)
        ensures
            r == self@.at_origin(),
    {
        proof {
            lemma_log_of_empty(self.swap_events@);
        }
        return (self.outer_idx == 0) && (self.inner_idx == 0) && (self.sort_complete == false)
            && self.swap_events.is_empty();
    }

    /// Advances the sort by one action.
    ///
    /// A complete session stays as it is. Otherwise, if the current pass has
    /// a pair left, that pair is compared, exchanged if the left element is
    /// greater, and the outcome is logged under the cursor; if not, the
    /// cursor moves to the start of the next pass.
    ///
    /// The pair is exchanged exactly when the element type's `>` says so of
    /// it: the action is `Swap` for an answer that `>` may give.
    pub fn algo_next(&mut self) -> (action: AlgoNextAction<E>)
        requires
            old(self).well_formed(),
        ensures
            final(self).well_formed(),
            *final(final(self).borrowed()) == *final(old(self).borrowed()),
            // Which step was taken.
            move_of(action) == old(self)@.forward_move(action is Swap),
            old(self)@.comparing() ==> may_compare(
                old(self)@.seq[old(self)@.inner as int],
                old(self)@.seq[old(self)@.inner as int + 1],
                action is Swap,
            ),
            // What the action reports.
            match action {
                AlgoNextAction::Swap { outer_idx, inner_idx, i_val, ipp_val } => {
                    &&& outer_idx == old(self)@.outer
                    &&& inner_idx == old(self)@.inner
                    &&& cloned(old(self)@.seq[inner_idx as int], i_val)
                    &&& cloned(old(self)@.seq[inner_idx as int + 1], ipp_val)
                    &&& final(self)@.log[old(self)@.cursor()] matches Some((left, right))
                    &&& cloned(old(self)@.seq[inner_idx as int], left)
                    &&& cloned(old(self)@.seq[inner_idx as int + 1], right)
                    &&& final(self)@.log.remove(old(self)@.cursor()) == old(self)@.log
                },
                AlgoNextAction::NoSwap { outer_idx, inner_idx } => {
                    &&& outer_idx == old(self)@.outer
                    &&& inner_idx == old(self)@.inner
                },
                AlgoNextAction::BookKeeping() => true,
            },
            // What became of the session. The values that an exchange logs
            // are clones, so they are the model's where clones are exact.
            final(self)@.same_walk(old(self)@.forward(action is Swap)),
            !(action is Swap) || clone_is_exact::<E>() ==> final(self)@ == old(self)@.forward(
                action is Swap,
            ),
            // A complete session stays as it is.
            old(self)@.complete ==> action is BookKeeping && final(self)@ == old(self)@,
    {
        let ret_val: AlgoNextAction<E>;
        if !self.sort_complete && (self.outer_idx < self.v_len) {
            if self.inner_idx < (self.v_len - 1 - self.outer_idx) {
                let i = self.inner_idx as usize;
                let ghost before = self@;
                if self.v[i] > self.v[i + 1] {
                    let left = self.v[i].clone();
                    let right = self.v[i + 1].clone();
                    ret_val =
                    AlgoNextAction::Swap {
                        outer_idx: self.outer_idx,
                        inner_idx: self.inner_idx,
                        i_val: self.v[i].clone(),
                        ipp_val: self.v[i + 1].clone(),
                    };
                    proof {
                        lemma_log_of_insert(
                            self.swap_events@,
                            (self.outer_idx, self.inner_idx),
                            Some((left, right)),
                        );
                        assert(cloned(before.seq[i as int], left));
                        assert(cloned(before.seq[i as int + 1], right));
                    }
                    self.swap_events.insert((self.outer_idx, self.inner_idx), Some((left, right)));
                    self.v.swap(i, i + 1);
                } else {
                    proof {
                        lemma_log_of_insert(
                            self.swap_events@,
                            (self.outer_idx, self.inner_idx),
                            None,
                        );
                    }
                    // No swap occured.
                    self.swap_events.insert((self.outer_idx, self.inner_idx), None);
                    ret_val =
                    AlgoNextAction::NoSwap { outer_idx: self.outer_idx, inner_idx: self.inner_idx };
                }
                self.inner_idx = self.inner_idx + 1;
                proof {
                    let after = before.forward(ret_val is Swap);
                    after.lemma_same_frame_valid(self@);
                    if !(ret_val is Swap) || clone_is_exact::<E>() {
                        assert(self@.log =~= after.log);
                    }
                    assert(self@.log.remove(before.cursor()) =~= before.log);
                }
            } else {
                self.inner_idx = 0;
                self.outer_idx = self.outer_idx + 1;

                ret_val = AlgoNextAction::BookKeeping();
            }
        } else {
            self.sort_complete = true;

            ret_val = AlgoNextAction::BookKeeping();
        }

        ret_val
    }

    /// Steps forward until the session is complete.
    ///
    /// The walk follows the element type's `>`. For every relation that this
    /// `>` computes, the session ends as the model's run under that relation
    /// does, and from the origin the sequence ends as the one-shot sort
    /// would leave it.
    pub fn run_to_completion(&mut self)
        requires
            old(self).well_formed(),
        ensures
            final(self).well_formed(),
            *final(final(self).borrowed()) == *final(old(self).borrowed()),
            final(self)@.complete,
            final(self)@.seq.len() == old(self)@.seq.len(),
            final(self)@.seq.to_multiset() == old(self)@.seq.to_multiset(),
            forall|gt: spec_fn(E, E) -> bool| #[trigger]
                decides::<E>(gt) ==> {
                    &&& final(self)@.same_walk(old(self)@.run(gt))
                    &&& clone_is_exact::<E>() ==> final(self)@ == old(self)@.run(gt)
                    &&& old(self)@.at_origin() ==> final(self)@.seq == reference_sort(
                        gt,
                        old(self)@.seq,
                    )
                    &&& old(self)@.at_origin() && is_strict_weak_order(gt) ==> ascending(
                        gt,
                        final(self)@.seq,
                    )
                },
    {
        let ghost begun = self@;
        loop
            invariant
                self.well_formed(),
                *final(self.borrowed()) == *final(old(self).borrowed()),
                self@.seq.len() == begun.seq.len(),
                self@.seq.to_multiset() == begun.seq.to_multiset(),
                forall|gt: spec_fn(E, E) -> bool| #[trigger]
                    decides::<E>(gt) ==> {
                        &&& self@.run(gt).same_walk(begun.run(gt))
                        &&& clone_is_exact::<E>() ==> self@.run(gt) == begun.run(gt)
                    },
            ensures
                self.well_formed(),
                *final(self.borrowed()) == *final(old(self).borrowed()),
                self@.complete,
                self@.seq.len() == begun.seq.len(),
                self@.seq.to_multiset() == begun.seq.to_multiset(),
                forall|gt: spec_fn(E, E) -> bool| #[trigger]
                    decides::<E>(gt) ==> {
                        &&& self@.same_walk(begun.run(gt))
                        &&& clone_is_exact::<E>() ==> self@ == begun.run(gt)
                    },
            decreases
                    self@.passes_left(),
                    self@.places_left(),
                    (if self@.complete { 0nat } else { 1nat }),
        {
            let ghost before = self@;
            let action = self.algo_next();
            proof {
                let exchange = action is Swap;
                if exchange {
                    lemma_exchange_rearranges(before.seq, before.inner as int);
                }
                assert forall|gt: spec_fn(E, E) -> bool| #[trigger] decides::<E>(gt) implies {
                    &&& self@.run(gt).same_walk(begun.run(gt))
                    &&& clone_is_exact::<E>() ==> self@.run(gt) == begun.run(gt)
                } by {
                    assert(before.comparing() ==> exchange == before.verdict(gt));
                    assert(before.forward(exchange) == before.step(gt));
                    self@.lemma_same_walk_runs_alike(before.step(gt), gt);
                }
            }
            if self.is_sorted() {
                break;
            }
        }
        proof {
            assert forall|gt: spec_fn(E, E) -> bool| #[trigger] decides::<E>(gt) implies {
                &&& begun.at_origin() ==> self@.seq == reference_sort(gt, begun.seq)
                &&& begun.at_origin() && is_strict_weak_order(gt) ==> ascending(gt, self@.seq)
            } by {
                if begun.at_origin() {
                    assert(begun.log =~= Map::<Slot, Option<(E, E)>>::empty());
                    assert(begun == EngineState::start(begun.seq));
                    EngineState::law_matches_reference(gt, begun.seq);
                    if is_strict_weak_order(gt) {
                        law_sort_ascends(gt, begun.seq);
                    }
                }
            }
        }
    }

    /// Steps backward until the log is used up.
    ///
    /// Every comparison still logged is taken back, the most recent first. A
    /// session over two or more elements then stands at the origin again; a
    /// session over a single element never logs anything and stays as it is.
    pub fn rewind_to_origin(&mut self)
        requires
            old(self).well_formed(),
        ensures
            final(self).well_formed(),
            *final(final(self).borrowed()) == *final(old(self).borrowed()),
            final(self)@.log.is_empty(),
            final(self)@.seq.len() == old(self)@.seq.len(),
            old(self)@.seq.len() >= 2 ==> final(self)@.at_origin(),
            clone_is_exact::<E>() ==> final(self)@ == old(self)@.rewind(),
    {
        let ghost begun = self@;
        proof {
            lemma_log_of_empty(self.swap_events@);
        }
        while !self.swap_events.is_empty()
            invariant
                self.well_formed(),
                *final(self.borrowed()) == *final(old(self).borrowed()),
                self@.seq.len() == begun.seq.len(),
                self.swap_events@.is_empty() == self@.log.is_empty(),
                clone_is_exact::<E>() ==> self@.rewind() == begun.rewind(),
            decreases self@.log.dom().len(),
        {
            proof {
                self@.lemma_rewind_unfolds();
                self@.lemma_latest_entry();
            }
            self.algo_prev();
            proof {
                lemma_log_of_empty(self.swap_events@);
            }
        }
        proof {
            if self@.seq.len() >= 2 {
                self@.lemma_empty_log_means_origin();
            }
            assert(self@.log.dom().len() == 0);
        }
    }

    /// Takes back the most recent comparison.
    ///
    /// The entry with the greatest key is removed from the log; if it holds
    /// an exchange, the two recorded values are written back to their
    /// places. The cursor returns to the entry's key and the session is no
    /// longer complete. With an empty log nothing changes.
    pub fn algo_prev(&mut self) -> (action: AlgoPrevAction<E>)
        requires
            old(self).well_formed(),
        ensures
            final(self).well_formed(),
            *final(final(self).borrowed()) == *final(old(self).borrowed()),
            action is EmptySwapEvents <==> old(self)@.log.is_empty(),
            match action {
                AlgoPrevAction::UndoSwap { outer_idx, inner_idx, i_val, ipp_val } => {
                    &&& (outer_idx as nat, inner_idx as nat) == latest(old(self)@.log.dom())
                    &&& old(self)@.log[latest(old(self)@.log.dom())] matches Some((left, right))
                    &&& cloned(left, i_val)
                    &&& cloned(right, ipp_val)
                    &&& cloned(left, final(self)@.seq[inner_idx as int])
                    &&& cloned(right, final(self)@.seq[inner_idx as int + 1])
                    &&& final(self)@.seq == old(self)@.seq.update(
                        inner_idx as int,
                        final(self)@.seq[inner_idx as int],
                    ).update(inner_idx as int + 1, final(self)@.seq[inner_idx as int + 1])
                },
                AlgoPrevAction::NoSwap { outer_idx, inner_idx } => {
                    &&& (outer_idx as nat, inner_idx as nat) == latest(old(self)@.log.dom())
                    &&& old(self)@.log[latest(old(self)@.log.dom())] is None
                    &&& final(self)@.seq == old(self)@.seq
                },
                AlgoPrevAction::EmptySwapEvents() => true,
            },
            // What became of the session. The values written back are
            // clones, so they are the model's where clones are exact.
            final(self)@.same_frame(old(self)@.backward()),
            final(self)@.log == old(self)@.backward().log,
            !(action is UndoSwap) || clone_is_exact::<E>() ==> final(self)@ == old(self)@.backward(),
            // With nothing logged the session stays as it is.
            old(self)@.log.is_empty() ==> final(self)@ == old(self)@,
    {
        let ret_val: AlgoPrevAction<E>;
        let ghost before = self@;
        proof {
            lemma_log_of_empty(self.swap_events@);
            before.lemma_backward_valid();
        }
        let last_swap_event = last_entry(&self.swap_events);

        match last_swap_event {
            Some((key_swap_event, val_swap_event)) => {
                let swap_outer_idx = key_swap_event.0;
                let swap_inner_idx = key_swap_event.1;
                proof {
                    lemma_newest_key(self.swap_events@, key_swap_event);
                    before.lemma_latest_entry();
                    lemma_log_of_remove(self.swap_events@, key_swap_event);
                }

                match val_swap_event {
                    Some((i_val, ipp_val)) => {
                        // i_val is the archived value at inner_idx.
                        // ipp_val is the archived value at inner_idx + 1.
                        let restored_left = i_val.clone();
                        let restored_right = ipp_val.clone();
                        ret_val =
                        AlgoPrevAction::UndoSwap {
                            outer_idx: swap_outer_idx,
                            inner_idx: swap_inner_idx,
                            i_val: i_val.clone(),
                            ipp_val: ipp_val.clone(),
                        };
                        proof {
                            assert(cloned(*i_val, restored_left));
                            assert(cloned(*ipp_val, restored_right));
                        }
                        self.v[swap_inner_idx as usize] = restored_left;
                        self.v[swap_inner_idx as usize + 1] = restored_right;
                    },
                    None => {
                        // No exchange had taken place. Nothing to write back.
                        ret_val =
                        AlgoPrevAction::NoSwap {
                            outer_idx: swap_outer_idx,
                            inner_idx: swap_inner_idx,
                        };
                    },
                }
                // Whether there was a swap recorded or not, reverse the progress of the algorithm.
                self.swap_events.remove(&(swap_outer_idx, swap_inner_idx));

                self.inner_idx = swap_inner_idx;
                self.outer_idx = swap_outer_idx;

                if self.sort_complete == true {
                    self.sort_complete = false;
                }
                proof {
                    let after = before.backward();
                    after.lemma_same_frame_valid(self@);
                    if !(ret_val is UndoSwap) || clone_is_exact::<E>() {
                        assert(self@.seq =~= after.seq);
                    }
                }
            },
            None => {
                // Empty log. Nothing to undo.
                ret_val = AlgoPrevAction::EmptySwapEvents();
            },
        }

        ret_val
    }
}

/// Textbook bubble sort, for reference: passes over an ever shorter front of
/// the slice, ending after the first pass that exchanges nothing.
///
/// The slice is rearranged. For every relation that the element type's `>`
/// computes, it ends as the model's sort under that relation leaves it, and
/// so in ascending order where the relation is an order.
pub fn canonical_bubble_sort<E: PartialOrd + Debug>(v: &mut [E])
    ensures
        final(v)@.len() == old(v)@.len(),
        final(v)@.to_multiset() == old(v)@.to_multiset(),
        forall|gt: spec_fn(E, E) -> bool| #[trigger]
            decides::<E>(gt) ==> {
                &&& final(v)@ == reference_sort(gt, old(v)@)
                &&& is_strict_weak_order(gt) ==> ascending(gt, final(v)@)
            },
{
    let ghost input = v@;
    let n = v.len();
    proof {
        assert forall|gt: spec_fn(E, E) -> bool| is_strict_weak_order(gt) implies ascending(
            gt,
            #[trigger] reference_sort(gt, input),
        ) by {
            law_sort_ascends(gt, input);
        }
    }
    for p in 0..n
        invariant
            n == v@.len(),
            input == old(v)@,
            input.len() == n,
            v@.to_multiset() == input.to_multiset(),
            forall|gt: spec_fn(E, E) -> bool|
                is_strict_weak_order(gt) ==> ascending(gt, #[trigger] reference_sort(gt, input)),
            forall|gt: spec_fn(E, E) -> bool| #[trigger]
                decides::<E>(gt) ==> reference_sort_from(gt, v@, p as nat) == reference_sort(
                    gt,
                    input,
                ),
    {
        let mut sorted = true;
        let ghost at_start = v@;
        let m = (n - 1) - p;
        for i in 0..m
            invariant
                n == v@.len(),
                m == n - 1 - p,
                at_start.len() == n,
                v@.to_multiset() == input.to_multiset(),
                sorted ==> v@ == at_start,
                forall|gt: spec_fn(E, E) -> bool| #[trigger]
                    decides::<E>(gt) ==> {
                        &&& sweep(gt, v@, i as int, m as int) == sweep(gt, at_start, 0, m as int)
                        &&& sorted ==> settled(gt, at_start, 0, i as int)
                        &&& !sorted ==> !settled(gt, at_start, 0, m as int)
                    },
        {
            let ghost held = v@;
            let ghost was_sorted = sorted;
            let exchange = v[i] > v[i + 1];
            if exchange {
                proof {
                    lemma_exchange_rearranges(v@, i as int);
                }
                // Exchange the two neighbours in place.
                v.swap(i, i + 1);
                sorted = false;
            }
            proof {
                assert(may_compare(held[i as int], held[i as int + 1], exchange));
                assert forall|gt: spec_fn(E, E) -> bool| #[trigger] decides::<E>(gt) implies {
                    &&& sweep(gt, v@, i as int + 1, m as int) == sweep(gt, at_start, 0, m as int)
                    &&& sorted ==> settled(gt, at_start, 0, i as int + 1)
                    &&& !sorted ==> !settled(gt, at_start, 0, m as int)
                } by {
                    assert(exchange == gt(held[i as int], held[i as int + 1]));
                    assert(sweep(gt, held, i as int, m as int) == sweep(
                        gt,
                        v@,
                        i as int + 1,
                        m as int,
                    ));
                    if exchange && was_sorted {
                        assert(gt(at_start[i as int], at_start[i as int + 1]));
                    }
                }
            }
        }
        if sorted {
            return ;
        }
    }
}

/// The key that `last_entry` hands out is the latest position of the log.
proof fn lemma_newest_key<V>(events: Map<(u32, u32), V>, k: (u32, u32))
    requires
        events.contains_key(k),
        forall|j: (u32, u32)| events.contains_key(j) ==> !earlier(slot_of(k), slot_of(j)),
    ensures
        latest(log_of(events).dom()) == slot_of(k),
        log_of(events)[slot_of(k)] == events[k],
{
    let keys = log_of(events).dom();
    assert forall|j: Slot| keys.contains(j) implies !earlier(slot_of(k), j) by {
        assert(events.contains_key((j.0 as u32, j.1 as u32)));
        assert(slot_of((j.0 as u32, j.1 as u32)) == j);
    }
    assert(keys.contains(slot_of(k)));
    lemma_latest_is_unique(keys, slot_of(k));
}

/// The kind of step that a forward action reports.
pub open spec fn move_of<E>(action: AlgoNextAction<E>) -> Move {
    match action {
        AlgoNextAction::Swap { .. } => Move::Exchange,
        AlgoNextAction::NoSwap { .. } => Move::Keep,
        AlgoNextAction::BookKeeping() => Move::Tidy,
    }
}

/// The model's log is empty exactly when the executable log is.
proof fn lemma_log_of_empty<V>(events: Map<(u32, u32), V>)
    ensures
        log_of(events).is_empty() <==> events.is_empty(),
{
    if !events.is_empty() {
        let k = choose|k: (u32, u32)| events.contains_key(k);
        assert(log_of(events).contains_key(slot_of(k)));
    }
    if !log_of(events).is_empty() {
        let k = choose|k: Slot| log_of(events).contains_key(k);
        assert(events.contains_key((k.0 as u32, k.1 as u32)));
    }
}

/// An entry put into the executable log is put into the model's log.
proof fn lemma_log_of_insert<V>(events: Map<(u32, u32), V>, k: (u32, u32), v: V)
    ensures
        log_of(events.insert(k, v)) == log_of(events).insert(slot_of(k), v),
{
    assert(log_of(events.insert(k, v)) =~= log_of(events).insert(slot_of(k), v));
}

/// An entry taken out of the executable log is taken out of the model's log.
proof fn lemma_log_of_remove<V>(events: Map<(u32, u32), V>, k: (u32, u32))
    ensures
        log_of(events.remove(k)) == log_of(events).remove(slot_of(k)),
{
    assert(log_of(events.remove(k)) =~= log_of(events).remove(slot_of(k)));
}

} // verus!
