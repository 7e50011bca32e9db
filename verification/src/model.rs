//! The step-wise engine and the one-shot sort as mathematics.
//!
//! Everything here is parameterised by the relation `gt` ("is strictly
//! greater than") instead of by a Rust trait, so that the laws can be stated
//! for any relation and the executable code can plug in the one its element
//! type provides.

use vstd::prelude::*;

verus! {

/// A cursor position `(outer, inner)`: the pass and the place within it.
pub type Slot = (nat, nat);

/// Lexicographic "strictly earlier" on cursor positions. Because the walk
/// visits positions in this order, it is also "was reached first".
pub open spec fn earlier(a: Slot, b: Slot) -> bool {
    a.0 < b.0 || (a.0 == b.0 && a.1 < b.1)
}

/// Whether a sequence of length `len` compares a pair at position `k`:
/// pass `k.0` only looks at the first `len - k.0` elements.
pub open spec fn compares_at(len: nat, k: Slot) -> bool {
    k.0 + k.1 + 1 < len
}

/// The positions at which a walk that has reached `cursor` has compared.
pub open spec fn compared_before(len: nat, cursor: Slot) -> Set<Slot> {
    Set::new(|k: Slot| compares_at(len, k) && earlier(k, cursor))
}

/// `k` is the greatest position in `keys`.
pub open spec fn is_latest(keys: Set<Slot>, k: Slot) -> bool {
    keys.contains(k) && forall|j: Slot| keys.contains(j) ==> !earlier(k, j)
}

/// The greatest position in `keys`, if there is one.
pub open spec fn latest(keys: Set<Slot>) -> Slot {
    choose|k: Slot| is_latest(keys, k)
}

/// `s` with the elements at `i` and `i + 1` exchanged.
pub open spec fn exchange_at<E>(s: Seq<E>, i: int) -> Seq<E> {
    s.update(i, s[i + 1]).update(i + 1, s[i])
}

/// Exchanging two neighbours rearranges a sequence: nothing is lost or added.
pub proof fn lemma_exchange_rearranges<E>(s: Seq<E>, i: int)
    requires
        0 <= i,
        i + 1 < s.len(),
    ensures
        exchange_at(s, i).len() == s.len(),
        exchange_at(s, i).to_multiset() == s.to_multiset(),
{
    broadcast use vstd::seq_lib::group_to_multiset_ensures;

    let half = s.update(i, s[i + 1]);
    assert(half.to_multiset() == s.to_multiset().insert(s[i + 1]).remove(s[i]));
    assert(exchange_at(s, i).to_multiset() == half.to_multiset().insert(s[i]).remove(half[i + 1]));
    assert(s.to_multiset().count(s[i]) > 0);
    assert(s.to_multiset().count(s[i + 1]) > 0);
    assert(exchange_at(s, i).to_multiset() =~= s.to_multiset());
}

/// No pair at a place in `from..to` is out of order.
pub open spec fn settled<E>(gt: spec_fn(E, E) -> bool, s: Seq<E>, from: int, to: int) -> bool {
    forall|i: int| from <= i < to ==> !gt(#[trigger] s[i], s[i + 1])
}

/// One sweep of bubble sort over the places `from..to`: each pair in turn is
/// exchanged if its left element is greater.
pub open spec fn sweep<E>(gt: spec_fn(E, E) -> bool, s: Seq<E>, from: int, to: int) -> Seq<E>
    decreases to - from,
{
    if from >= to {
        s
    } else if gt(s[from], s[from + 1]) {
        sweep(gt, exchange_at(s, from), from + 1, to)
    } else {
        sweep(gt, s, from + 1, to)
    }
}

/// Pass number `pass` of bubble sort: a sweep that leaves out the last
/// `pass` elements, which earlier passes have put in place.
pub open spec fn pass_over<E>(gt: spec_fn(E, E) -> bool, s: Seq<E>, pass: nat) -> Seq<E> {
    sweep(gt, s, 0, s.len() - 1 - pass)
}

/// The textbook sort from pass `pass` on: passes follow one another until
/// one finds nothing to exchange or none is left.
pub open spec fn reference_sort_from<E>(gt: spec_fn(E, E) -> bool, s: Seq<E>, pass: nat) -> Seq<E>
    decreases s.len() - pass,
    via reference_sort_terminates::<E>
{
    if pass >= s.len() || settled(gt, s, 0, s.len() - 1 - pass) {
        s
    } else {
        reference_sort_from(gt, pass_over(gt, s, pass), pass + 1)
    }
}

/// A pass keeps the length of the sequence, so the passes left run out.
#[via_fn]
proof fn reference_sort_terminates<E>(gt: spec_fn(E, E) -> bool, s: Seq<E>, pass: nat) {
    if pass < s.len() {
        lemma_sweep_len(gt, s, 0, s.len() - 1 - pass);
    }
}

/// A sweep within the sequence keeps its length.
pub proof fn lemma_sweep_len<E>(gt: spec_fn(E, E) -> bool, s: Seq<E>, from: int, to: int)
    requires
        0 <= from,
        to < s.len(),
    ensures
        sweep(gt, s, from, to).len() == s.len(),
    decreases to - from,
{
    if from < to {
        if gt(s[from], s[from + 1]) {
            lemma_sweep_len(gt, exchange_at(s, from), from + 1, to);
        } else {
            lemma_sweep_len(gt, s, from + 1, to);
        }
    }
}

/// The textbook sort: bubble sort that stops after the first pass without an
/// exchange.
pub open spec fn reference_sort<E>(gt: spec_fn(E, E) -> bool, s: Seq<E>) -> Seq<E> {
    reference_sort_from(gt, s, 0)
}

/// The whole state of a sort session.
///
/// `log` maps each position at which a comparison was made to what was
/// found there: `Some((left, right))` holds the two values as they stood
/// before they were exchanged, `None` says that they were left alone.
pub struct EngineState<E> {
    pub seq: Seq<E>,
    pub outer: nat,
    pub inner: nat,
    pub complete: bool,
    pub log: Map<Slot, Option<(E, E)>>,
}

/// What a forward step found to do.
pub enum Move {
    /// A pair was compared and exchanged.
    Exchange,
    /// A pair was compared and left in place.
    Keep,
    /// Only the cursor or the completion flag changed.
    Tidy,
}

impl<E> EngineState<E> {
    /// The state a session starts in.
    pub open spec fn start(seq: Seq<E>) -> Self {
        EngineState { seq, outer: 0, inner: 0, complete: false, log: Map::empty() }
    }

    /// Where the next forward step finds the cursor.
    pub open spec fn cursor(self) -> Slot {
        (self.outer, self.inner)
    }

    /// No forward step has had an effect that is still standing.
    pub open spec fn at_origin(self) -> bool {
        self.outer == 0 && self.inner == 0 && !self.complete && self.log.is_empty()
    }

    /// Nothing is left to compare: the next forward step only raises the flag.
    pub open spec fn finished(self) -> bool {
        self.complete || self.outer >= self.seq.len()
    }

    /// The next forward step compares the pair under the cursor.
    pub open spec fn comparing(self) -> bool {
        !self.finished() && compares_at(self.seq.len(), self.cursor())
    }

    /// One forward step, given the outcome of the comparison (which is read
    /// only when a pair is compared).
    pub open spec fn forward(self, exchange: bool) -> Self {
        if self.finished() {
            EngineState { complete: true, ..self }
        } else if self.comparing() {
            let i = self.inner as int;
            if exchange {
                EngineState {
                    seq: exchange_at(self.seq, i),
                    inner: self.inner + 1,
                    log: self.log.insert(self.cursor(), Some((self.seq[i], self.seq[i + 1]))),
                    ..self
                }
            } else {
                EngineState {
                    inner: self.inner + 1,
                    log: self.log.insert(self.cursor(), None),
                    ..self
                }
            }
        } else {
            EngineState { outer: self.outer + 1, inner: 0, ..self }
        }
    }

    /// What kind of step `forward(exchange)` is.
    pub open spec fn forward_move(self, exchange: bool) -> Move {
        if !self.comparing() {
            Move::Tidy
        } else if exchange {
            Move::Exchange
        } else {
            Move::Keep
        }
    }

    /// One backward step: the most recent logged comparison is taken back and
    /// the cursor returns to where it was made. With an empty log nothing
    /// changes.
    pub open spec fn backward(self) -> Self {
        if self.log.is_empty() {
            self
        } else {
            let k = latest(self.log.dom());
            let i = k.1 as int;
            EngineState {
                seq: match self.log[k] {
                    Some((left, right)) => self.seq.update(i, left).update(i + 1, right),
                    None => self.seq,
                },
                outer: k.0,
                inner: k.1,
                complete: false,
                log: self.log.remove(k),
            }
        }
    }

    /// The comparison that decides the next forward step under `gt`.
    pub open spec fn verdict(self, gt: spec_fn(E, E) -> bool) -> bool {
        gt(self.seq[self.inner as int], self.seq[self.inner as int + 1])
    }

    /// One forward step under `gt`.
    pub open spec fn step(self, gt: spec_fn(E, E) -> bool) -> Self {
        self.forward(self.verdict(gt))
    }

    /// `count` forward steps under `gt`.
    pub open spec fn steps(self, gt: spec_fn(E, E) -> bool, count: nat) -> Self
        decreases count,
    {
        if count == 0 {
            self
        } else {
            self.step(gt).steps(gt, (count - 1) as nat)
        }
    }

    /// How many of the next `count` forward steps compare a pair.
    pub open spec fn comparisons(self, gt: spec_fn(E, E) -> bool, count: nat) -> nat
        decreases count,
    {
        if count == 0 {
            0
        } else {
            (if self.comparing() { 1nat } else { 0nat })
                + self.step(gt).comparisons(gt, (count - 1) as nat)
        }
    }

    /// The passes that the cursor has not finished. Together with
    /// [`places_left`](Self::places_left) and the flag still to be raised
    /// this measures how far a state is from completion: each forward step
    /// makes the triple smaller.
    pub open spec fn passes_left(self) -> nat {
        if self.outer <= self.seq.len() { (self.seq.len() - self.outer) as nat } else { 0 }
    }

    /// The places that lie between the cursor and the end of the sequence.
    pub open spec fn places_left(self) -> nat {
        if self.inner <= self.seq.len() { (self.seq.len() - self.inner) as nat } else { 0 }
    }

    /// Forward steps under `gt` until the session is complete.
    pub open spec fn run(self, gt: spec_fn(E, E) -> bool) -> Self
        decreases self.passes_left(), self.places_left(), (if self.complete { 0nat } else { 1nat }),
    {
        if self.complete {
            self
        } else {
            self.step(gt).run(gt)
        }
    }

    /// `count` backward steps.
    pub open spec fn undo(self, count: nat) -> Self
        decreases count,
    {
        if count == 0 {
            self
        } else {
            self.backward().undo((count - 1) as nat)
        }
    }

    /// Backward steps until the log is used up: one for each entry.
    pub open spec fn rewind(self) -> Self {
        self.undo(self.log.dom().len())
    }

    /// `self` and `other` agree on where the walk stands: on the length of
    /// the sequence, the cursor, the flag and the positions logged.
    pub open spec fn same_frame(self, other: Self) -> bool {
        &&& self.seq.len() == other.seq.len()
        &&& self.outer == other.outer
        &&& self.inner == other.inner
        &&& self.complete == other.complete
        &&& self.log.dom() == other.log.dom()
    }

    /// `self` and `other` agree on everything but the values that their
    /// logs hold.
    pub open spec fn same_walk(self, other: Self) -> bool {
        &&& self.same_frame(other)
        &&& self.seq == other.seq
    }

    /// Validity looks at the frame only.
    pub proof fn lemma_same_frame_valid(self, other: Self)
        requires
            other.same_frame(self),
        ensures
            self.valid() == other.valid(),
    {
    }

    /// What holds of every state a session can be in.
    pub open spec fn valid(self) -> bool {
        &&& self.seq.len() >= 1
        &&& self.outer <= self.seq.len()
        &&& self.outer + self.inner <= self.seq.len()
        &&& self.outer + self.inner == self.seq.len() ==> self.inner == 0
        &&& self.complete ==> self.outer == self.seq.len()
        &&& self.log.dom().finite()
        &&& self.log.dom() =~= compared_before(self.seq.len(), self.cursor())
    }
}

/// A set has at most one greatest position.
pub proof fn lemma_latest_is_unique(keys: Set<Slot>, k: Slot)
    requires
        is_latest(keys, k),
    ensures
        latest(keys) == k,
{
    let l = latest(keys);
    assert(is_latest(keys, l));
    assert(!earlier(k, l) && !earlier(l, k));
}

impl<E> EngineState<E> {
    /// A forward step keeps a state valid.
    pub proof fn lemma_forward_valid(self, exchange: bool)
        requires
            self.valid(),
        ensures
            self.forward(exchange).valid(),
    {
    }

    /// In a valid state with a log, the most recent entry sits at the last
    /// position compared before the cursor.
    pub proof fn lemma_latest_entry(self)
        requires
            self.valid(),
            !self.log.is_empty(),
        ensures
            is_latest(self.log.dom(), latest(self.log.dom())),
            compares_at(self.seq.len(), latest(self.log.dom())),
            earlier(latest(self.log.dom()), self.cursor()),
    {
        let keys = self.log.dom();
        let n = self.seq.len();
        let some = choose|k: Slot| keys.contains(k);
        assert(keys.contains(some));
        // The position just before the cursor at which a pair is compared.
        let last: Slot = if self.inner > 0 {
            (self.outer, (self.inner - 1) as nat)
        } else if self.outer <= n - 1 {
            ((self.outer - 1) as nat, (n - self.outer - 1) as nat)
        } else {
            ((n - 2) as nat, 0nat)
        };
        assert(is_latest(keys, last));
        lemma_latest_is_unique(keys, last);
    }

    /// A backward step keeps a state valid.
    pub proof fn lemma_backward_valid(self)
        requires
            self.valid(),
        ensures
            self.backward().valid(),
    {
        if !self.log.is_empty() {
            self.lemma_latest_entry();
        }
    }
}

} // verus!
