//! What the step-wise engine guarantees, proved over the model.
//!
//! Each law holds for every relation `gt` unless it says otherwise: the
//! engine's book-keeping does not depend on what the comparison means.

use crate::model::{
    compared_before, compares_at, is_latest, lemma_latest_is_unique, lemma_sweep_len, pass_over,
    reference_sort, reference_sort_from, settled, sweep, EngineState, Slot,
};
use vstd::prelude::*;

verus! {

impl<E> EngineState<E> {
    /// The start of a session is valid and at the origin.
    pub proof fn lemma_start_valid(seq: Seq<E>)
        requires
            seq.len() >= 1,
        ensures
            Self::start(seq).valid(),
            Self::start(seq).at_origin(),
            Self::start(seq).rewind() == Self::start(seq),
    {
        assert(Self::start(seq).log.dom() =~= compared_before(seq.len(), (0, 0)));
    }

    /// Any number of forward steps keeps a state valid.
    pub proof fn lemma_steps_valid(self, gt: spec_fn(E, E) -> bool, count: nat)
        requires
            self.valid(),
        ensures
            self.steps(gt, count).valid(),
            self.steps(gt, count).seq.len() == self.seq.len(),
        decreases count,
    {
        if count > 0 {
            self.lemma_forward_valid(self.verdict(gt));
            self.step(gt).lemma_steps_valid(gt, (count - 1) as nat);
        }
    }

    /// Running to completion keeps a state valid, and completes it.
    pub proof fn lemma_run_valid(self, gt: spec_fn(E, E) -> bool)
        requires
            self.valid(),
        ensures
            self.run(gt).valid(),
            self.run(gt).complete,
            self.run(gt).seq.len() == self.seq.len(),
        decreases self.passes_left(), self.places_left(), (if self.complete { 0nat } else { 1nat }),
    {
        if !self.complete {
            self.lemma_forward_valid(self.verdict(gt));
            self.step(gt).lemma_run_valid(gt);
        }
    }

    /// A session over two or more elements has an empty log only at the
    /// origin.
    pub proof fn lemma_empty_log_means_origin(self)
        requires
            self.valid(),
            self.seq.len() >= 2,
        ensures
            self.log.is_empty() <==> self.at_origin(),
    {
        let first: Slot = (0, 0);
        if self.log.is_empty() {
            assert(!self.log.dom().contains(first));
        }
    }

    /// **Each logged entry reverses its own step.** After a forward step that
    /// compared a pair, a backward step gives back the state before it: the
    /// values that the entry holds are the ones that were exchanged.
    pub proof fn law_undo_reverses(self, exchange: bool)
        requires
            self.valid(),
            self.comparing(),
        ensures
            self.forward(exchange).backward() == self,
    {
        let after = self.forward(exchange);
        let here = self.cursor();
        assert(is_latest(after.log.dom(), here));
        lemma_latest_is_unique(after.log.dom(), here);
        assert(after.backward().seq =~= self.seq);
        assert(after.backward().log =~= self.log);
    }

    /// A forward step that compares nothing is not logged, so a backward step
    /// after it lands where a backward step before it would have.
    pub proof fn lemma_tidy_step_is_not_logged(self, exchange: bool)
        requires
            !self.comparing(),
            !self.log.is_empty(),
        ensures
            self.forward(exchange).backward() == self.backward(),
    {
    }

    /// Rewinding a valid state whose log is not empty starts with one
    /// backward step.
    pub proof fn lemma_rewind_unfolds(self)
        requires
            self.valid(),
            !self.log.is_empty(),
        ensures
            self.rewind() == self.backward().rewind(),
    {
        self.lemma_latest_entry();
    }

    /// A forward step does not change where rewinding leads.
    pub proof fn lemma_step_keeps_rewind(self, exchange: bool)
        requires
            self.valid(),
            self.seq.len() >= 2,
        ensures
            self.forward(exchange).rewind() == self.rewind(),
    {
        let after = self.forward(exchange);
        self.lemma_forward_valid(exchange);
        if self.comparing() {
            after.lemma_rewind_unfolds();
            self.law_undo_reverses(exchange);
        } else {
            self.lemma_empty_log_means_origin();
            after.lemma_rewind_unfolds();
            self.lemma_tidy_step_is_not_logged(exchange);
            self.lemma_rewind_unfolds();
        }
    }

    /// No number of forward steps changes where rewinding leads.
    proof fn lemma_steps_keep_rewind(self, gt: spec_fn(E, E) -> bool, count: nat)
        requires
            self.valid(),
            self.seq.len() >= 2,
        ensures
            self.steps(gt, count).rewind() == self.rewind(),
        decreases count,
    {
        if count > 0 {
            self.lemma_forward_valid(self.verdict(gt));
            self.lemma_step_keeps_rewind(self.verdict(gt));
            self.step(gt).lemma_steps_keep_rewind(gt, (count - 1) as nat);
        }
    }

    /// Running to completion does not change where rewinding leads.
    proof fn lemma_run_keeps_rewind(self, gt: spec_fn(E, E) -> bool)
        requires
            self.valid(),
            self.seq.len() >= 2,
        ensures
            self.run(gt).rewind() == self.rewind(),
        decreases self.passes_left(), self.places_left(), (if self.complete { 0nat } else { 1nat }),
    {
        if !self.complete {
            self.lemma_forward_valid(self.verdict(gt));
            self.lemma_step_keeps_rewind(self.verdict(gt));
            self.step(gt).lemma_run_keeps_rewind(gt);
        }
    }

    /// **A walk can be taken back at any time.** However many forward steps
    /// a session over two or more elements has made, rewinding restores the
    /// sequence as it was handed in, with the cursor at the first pair, the
    /// flag down and the log empty.
    pub proof fn law_rewind_restores(gt: spec_fn(E, E) -> bool, seq: Seq<E>, count: nat)
        requires
            seq.len() >= 2,
        ensures
            Self::start(seq).steps(gt, count).rewind() == Self::start(seq),
    {
        Self::lemma_start_valid(seq);
        Self::start(seq).lemma_steps_keep_rewind(gt, count);
    }

    /// **Round trip.** Stepping a session over two or more elements forward
    /// until it is complete and then backward until the log is used up
    /// restores the sequence exactly, and leaves the log empty, the flag
    /// down and the cursor at the first pair.
    ///
    /// A session over a single element never logs anything, so it has
    /// nothing to step back through: it stays complete.
    pub proof fn law_round_trip(gt: spec_fn(E, E) -> bool, seq: Seq<E>)
        requires
            seq.len() >= 2,
        ensures
            Self::start(seq).run(gt).complete,
            Self::start(seq).run(gt).rewind() == Self::start(seq),
            Self::start(seq).run(gt).rewind().at_origin(),
    {
        Self::lemma_start_valid(seq);
        Self::start(seq).lemma_run_valid(gt);
        Self::start(seq).lemma_run_keeps_rewind(gt);
    }

    /// **Nothing happens past either end.** A forward step on a complete
    /// session and a backward step on a session with an empty log both leave
    /// the state as it is.
    pub proof fn law_idle_at_the_ends(self, exchange: bool)
        ensures
            self.complete ==> self.forward(exchange) == self,
            self.log.is_empty() ==> self.backward() == self,
            self.at_origin() ==> self.backward() == self,
    {
    }

    /// Each forward step that compares a pair adds one entry to the log, and
    /// no other step adds any.
    proof fn lemma_steps_grow_log(self, gt: spec_fn(E, E) -> bool, count: nat)
        requires
            self.valid(),
        ensures
            self.steps(gt, count).log.dom().len() == self.log.dom().len() + self.comparisons(
                gt,
                count,
            ),
        decreases count,
    {
        if count > 0 {
            self.lemma_forward_valid(self.verdict(gt));
            self.step(gt).lemma_steps_grow_log(gt, (count - 1) as nat);
        }
    }

    /// **The log counts the comparisons.** At every point of a forward walk
    /// the log holds one entry for each step so far that compared a pair,
    /// under the position at which that step found the cursor: the entries
    /// are exactly the positions that lie before the cursor.
    pub proof fn law_log_counts_comparisons(gt: spec_fn(E, E) -> bool, seq: Seq<E>, count: nat)
        requires
            seq.len() >= 1,
        ensures
            Self::start(seq).steps(gt, count).log.dom().finite(),
            Self::start(seq).steps(gt, count).log.dom().len() == Self::start(seq).comparisons(
                gt,
                count,
            ),
            Self::start(seq).steps(gt, count).log.dom() == compared_before(
                seq.len(),
                Self::start(seq).steps(gt, count).cursor(),
            ),
    {
        Self::lemma_start_valid(seq);
        Self::start(seq).lemma_steps_valid(gt, count);
        Self::start(seq).lemma_steps_grow_log(gt, count);
    }
}

/// What the engine still does to a sequence of length `len` when its cursor
/// stands at `(outer, inner)`: the rest of the current pass, then every pass
/// after it.
spec fn passes_ahead<E>(
    gt: spec_fn(E, E) -> bool,
    s: Seq<E>,
    len: nat,
    outer: nat,
    inner: nat,
) -> Seq<E>
    decreases len - outer,
{
    if outer >= len {
        s
    } else {
        passes_ahead(gt, sweep(gt, s, inner as int, len - 1 - outer), len, outer + 1, 0)
    }
}

/// A sweep over a stretch in which no pair is out of order changes nothing.
pub proof fn lemma_sweep_over_settled<E>(gt: spec_fn(E, E) -> bool, s: Seq<E>, from: int, to: int)
    requires
        settled(gt, s, from, to),
    ensures
        sweep(gt, s, from, to) == s,
    decreases to - from,
{
    if from < to {
        assert(!gt(s[from], s[from + 1]));
        lemma_sweep_over_settled(gt, s, from + 1, to);
    }
}

/// Once a pass finds nothing to exchange, no later pass does.
proof fn lemma_settled_stays<E>(gt: spec_fn(E, E) -> bool, s: Seq<E>, pass: nat)
    requires
        settled(gt, s, 0, s.len() - 1 - pass),
    ensures
        passes_ahead(gt, s, s.len(), pass, 0) == s,
    decreases s.len() - pass,
{
    if pass < s.len() {
        lemma_sweep_over_settled(gt, s, 0, s.len() - 1 - pass);
        lemma_settled_stays(gt, s, pass + 1);
    }
}

/// Making every pass gives what the textbook sort gives, which stops at the
/// first pass without an exchange.
proof fn lemma_every_pass_is_reference<E>(gt: spec_fn(E, E) -> bool, s: Seq<E>, pass: nat)
    ensures
        passes_ahead(gt, s, s.len(), pass, 0) == reference_sort_from(gt, s, pass),
    decreases s.len() - pass,
{
    if pass < s.len() {
        if settled(gt, s, 0, s.len() - 1 - pass) {
            lemma_settled_stays(gt, s, pass);
        } else {
            lemma_sweep_len(gt, s, 0, s.len() - 1 - pass);
            lemma_every_pass_is_reference(gt, pass_over(gt, s, pass), pass + 1);
        }
    }
}

impl<E> EngineState<E> {
    /// Running a valid state to completion makes the passes that lie ahead
    /// of its cursor.
    proof fn lemma_run_makes_passes(self, gt: spec_fn(E, E) -> bool)
        requires
            self.valid(),
        ensures
            self.run(gt).seq == (if self.complete {
                self.seq
            } else {
                passes_ahead(gt, self.seq, self.seq.len(), self.outer, self.inner)
            }),
        decreases self.passes_left(), self.places_left(), (if self.complete { 0nat } else { 1nat }),
    {
        if !self.complete {
            let next = self.step(gt);
            self.lemma_forward_valid(self.verdict(gt));
            next.lemma_run_makes_passes(gt);
            if self.comparing() {
                assert(sweep(gt, self.seq, self.inner as int, self.seq.len() - 1 - self.outer)
                    == sweep(gt, next.seq, next.inner as int, self.seq.len() - 1 - self.outer));
            }
        }
    }

    /// **The engine sorts as the textbook does.** Driven to completion from
    /// the start, the engine leaves the sequence that the one-shot sort makes
    /// of the same input.
    pub proof fn law_matches_reference(gt: spec_fn(E, E) -> bool, seq: Seq<E>)
        requires
            seq.len() >= 1,
        ensures
            Self::start(seq).run(gt).seq == reference_sort(gt, seq),
    {
        Self::lemma_start_valid(seq);
        Self::start(seq).lemma_run_makes_passes(gt);
        lemma_every_pass_is_reference(gt, seq, 0);
    }

    /// States that differ only in the values their logs hold run alike.
    pub proof fn lemma_same_walk_runs_alike(self, other: Self, gt: spec_fn(E, E) -> bool)
        requires
            self.same_walk(other),
        ensures
            self.run(gt).same_walk(other.run(gt)),
        decreases self.passes_left(), self.places_left(), (if self.complete { 0nat } else { 1nat }),
    {
        if !self.complete {
            self.step(gt).lemma_same_walk_runs_alike(other.step(gt), gt);
        }
    }
}

/// The sum of the numbers up to `n`.
pub open spec fn triangle(n: nat) -> nat
    decreases n,
{
    if n == 0 {
        0
    } else {
        n + triangle((n - 1) as nat)
    }
}

/// The sum of the numbers up to `n` is at least `n`.
pub proof fn lemma_triangle_is_at_least(n: nat)
    ensures
        triangle(n) >= n,
{
}

/// The sum of the numbers up to `n` is half of `n * (n + 1)`.
pub proof fn lemma_triangle_closed_form(n: nat)
    ensures
        2 * triangle(n) == n * (n + 1),
    decreases n,
{
    if n > 0 {
        let m = (n - 1) as nat;
        lemma_triangle_closed_form(m);
        assert(n * (n + 1) == m * (m + 1) + 2 * n) by (nonlinear_arith)
            requires
                n == m + 1,
        ;
    } else {
        assert(n * (n + 1) == 0) by (nonlinear_arith)
            requires
                n == 0,
        ;
    }
}

/// The number of positions at which a walk over `len` elements has compared
/// when its cursor stands at `(outer, inner)`.
pub open spec fn comparisons_before(len: nat, outer: nat, inner: nat) -> nat
    decreases outer, inner,
{
    if inner > 0 {
        comparisons_before(len, outer, (inner - 1) as nat) + (if compares_at(
            len,
            (outer, (inner - 1) as nat),
        ) {
            1nat
        } else {
            0nat
        })
    } else if outer > 0 {
        comparisons_before(len, (outer - 1) as nat, len)
    } else {
        0
    }
}

/// The positions compared before a cursor are as many as
/// [`comparisons_before`] counts.
proof fn lemma_compared_before_counted(len: nat, outer: nat, inner: nat)
    ensures
        compared_before(len, (outer, inner)).finite(),
        compared_before(len, (outer, inner)).len() == comparisons_before(len, outer, inner),
    decreases outer, inner,
{
    let here = compared_before(len, (outer, inner));
    if inner > 0 {
        let place: Slot = (outer, (inner - 1) as nat);
        let before = compared_before(len, place);
        lemma_compared_before_counted(len, outer, (inner - 1) as nat);
        if compares_at(len, place) {
            assert(here =~= before.insert(place));
        } else {
            assert(here =~= before);
        }
    } else if outer > 0 {
        lemma_compared_before_counted(len, (outer - 1) as nat, len);
        assert(here =~= compared_before(len, ((outer - 1) as nat, len)));
    } else {
        assert(here =~= Set::<Slot>::empty());
    }
}

/// Pass `p` compares `len - 1 - p` pairs, so the passes before `outer`
/// have compared a triangle less a smaller triangle, and the current pass
/// as many pairs as the cursor has moved over.
proof fn lemma_comparisons_before_closed_form(len: nat, outer: nat, inner: nat)
    requires
        len >= 1,
    ensures
        outer < len ==> comparisons_before(len, outer, inner) + triangle((len - 1 - outer) as nat)
            == triangle((len - 1) as nat) + (if inner <= len - 1 - outer {
            inner as int
        } else {
            len - 1 - outer
        }),
        outer >= len ==> comparisons_before(len, outer, inner) == triangle((len - 1) as nat),
    decreases outer, inner,
{
    if inner > 0 {
        lemma_comparisons_before_closed_form(len, outer, (inner - 1) as nat);
    } else if outer > 0 {
        lemma_comparisons_before_closed_form(len, (outer - 1) as nat, len);
    }
}

impl<E> EngineState<E> {
    /// **The log is quadratic.** A session over `n` elements never holds
    /// more than `n * (n - 1) / 2` entries, so it is rewound in at most as
    /// many backward steps; a complete session holds exactly that many.
    pub proof fn law_log_length(self)
        requires
            self.valid(),
        ensures
            self.log.dom().len() == comparisons_before(self.seq.len(), self.outer, self.inner),
            self.log.dom().len() <= triangle((self.seq.len() - 1) as nat),
            self.complete ==> self.log.dom().len() == triangle((self.seq.len() - 1) as nat),
            2 * triangle((self.seq.len() - 1) as nat) == self.seq.len() * (self.seq.len() - 1),
    {
        let n = self.seq.len();
        lemma_compared_before_counted(n, self.outer, self.inner);
        lemma_comparisons_before_closed_form(n, self.outer, self.inner);
        lemma_triangle_closed_form((n - 1) as nat);
        lemma_triangle_is_at_least((n - 1 - self.outer) as nat);
        assert((n - 1) * ((n - 1) + 1) == n * (n - 1)) by (nonlinear_arith);
    }

    /// The forward steps that a valid state is away from completion: what is
    /// left of the current pass and the step that closes it, the passes
    /// after it, each one step longer than it has pairs, and the step that
    /// raises the flag.
    pub open spec fn steps_to_go(self) -> nat {
        if self.complete {
            0
        } else if self.outer >= self.seq.len() {
            1
        } else {
            ((self.seq.len() - self.outer - self.inner) + triangle(
                (self.seq.len() - self.outer - 1) as nat,
            ) + 1) as nat
        }
    }

    /// A forward step brings a state that is not complete one step closer
    /// to completion.
    proof fn lemma_step_counts_down(self, exchange: bool)
        requires
            self.valid(),
            !self.complete,
        ensures
            self.forward(exchange).steps_to_go() + 1 == self.steps_to_go(),
    {
    }

    /// A valid state is complete after as many forward steps as it has to
    /// go.
    proof fn lemma_steps_to_go_complete(self, gt: spec_fn(E, E) -> bool)
        requires
            self.valid(),
        ensures
            self.steps(gt, self.steps_to_go()) == self.run(gt),
        decreases self.steps_to_go(),
    {
        if !self.complete {
            self.lemma_forward_valid(self.verdict(gt));
            self.lemma_step_counts_down(self.verdict(gt));
            self.step(gt).lemma_steps_to_go_complete(gt);
        }
    }

    /// **The walk is quadratic.** From the start, a session over `n`
    /// elements is complete after `n * (n + 1) / 2 + 1` forward steps: pass
    /// `p` takes `n - p` of them, and one more raises the flag.
    pub proof fn law_walk_length(gt: spec_fn(E, E) -> bool, seq: Seq<E>)
        requires
            seq.len() >= 1,
        ensures
            Self::start(seq).steps(gt, triangle(seq.len()) + 1) == Self::start(seq).run(gt),
            Self::start(seq).steps(gt, triangle(seq.len()) + 1).complete,
            2 * triangle(seq.len()) == seq.len() * (seq.len() + 1),
    {
        Self::lemma_start_valid(seq);
        Self::start(seq).lemma_steps_to_go_complete(gt);
        Self::start(seq).lemma_run_valid(gt);
        lemma_triangle_closed_form(seq.len());
    }
}

} // verus!
