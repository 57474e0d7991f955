use crate::clauses::{
    complements, falsified, in_range, is_unit, lit_false, lit_true, lit_unset, quiet, satisfied, unit_at,
    Clause,
};
use crate::decision::level_kept;
use crate::propagation::lemma_other_clauses;
use crate::measure::{lemma_place_positive, lemma_tail, lemma_weight_same, place, size_at, weight_to};
use crate::analysis::lemma_true_on_trail;
use crate::models::{clause_holds, holds, lemma_root_holds, models, refuted_from, satisfiable};
use crate::state::{lemma_trail_bounded, FullUnitPropResult, State};
use crate::variables::Atom;
use vstd::prelude::*;

verus! {

impl State {
    /// Some literal of the body is not a literal made false below the
    /// current level.
    pub open spec fn open_clause(&self, body: Seq<Atom>) -> bool {
        exists|i: int|
            0 <= i < body.len() && !(lit_false(#[trigger] body[i], self.asg()) && self.level_of(
                body[i].index(),
            ) < self.depth())
    }

    /// Once a decision is open, no clause was already falsified below it.
    pub open spec fn grounded(&self) -> bool {
        self.depth() >= 1 ==> forall|c: int|
            0 <= c < self.clauses@.len() ==> self.open_clause((#[trigger] self.clauses@[c]).body@)
    }

    /// Some clause is unit.
    pub open spec fn has_unit(&self) -> bool {
        exists|c: int|
            0 <= c < self.clauses@.len() && is_unit(
                (#[trigger] self.clauses@[c]).body@,
                self.asg(),
            )
    }

    /// Every clause has a true literal.
    pub open spec fn all_satisfied(&self) -> bool {
        forall|c: int|
            0 <= c < self.clauses@.len() ==> satisfied(
                (#[trigger] self.clauses@[c]).body@,
                self.asg(),
            )
    }

    /// Every total assignment that satisfies `orig` satisfies the clauses
    /// of the state and validates the derivations on its trail.
    pub open spec fn follows_from(&self, orig: Seq<Clause>) -> bool {
        forall|m: Seq<bool>|
            m.len() == self.num_vars() && #[trigger] models(m, orig) ==> models(m, self.clauses@)
                && self.respects(m)
    }

    /// The offset at which each layer of the trail ends.
    pub open spec fn ends(&self) -> Seq<int> {
        self.assignment_stack.marks().push(self.trail().len() as int)
    }

    /// The sizes of the levels, read as one number.
    pub open spec fn weight(&self) -> int {
        weight_to(self.ends(), self.num_vars(), self.depth() + 1)
    }

    /// The weight, raised by one unit of the current level's place while a
    /// unit clause waits to be propagated.
    pub open spec fn progress(&self, pending: bool) -> int {
        self.weight() + if pending {
            place(self.num_vars() + 2, self.num_vars() - self.depth())
        } else {
            0
        }
    }

    /// The bound below which `progress` stays.
    pub open spec fn ceiling(&self) -> int {
        place(self.num_vars() + 2, self.num_vars() + 1)
    }
}

/// Level `l` starts no earlier than position `l - 1`.
pub proof fn lemma_level_start(s: State, l: int)
    requires
        s.wf(),
        1 <= l <= s.depth(),
    ensures
        s.assignment_stack.lo(l) >= l - 1,
    decreases l,
{
    if l > 1 {
        lemma_level_start(s, l - 1);
        assert(s.assignment_stack.lo(l - 1) < s.assignment_stack.hi(l - 1));
    } else {
        assert(s.assignment_stack.marks()[0] >= 0);
    }
}

/// There are no more levels than variables, no level holds more literals
/// than there are variables, and the progress stays below the ceiling.
pub proof fn lemma_levels_bounded(s: State, pending: bool)
    requires
        s.wf(),
    ensures
        s.depth() <= s.num_vars(),
        s.trail().len() <= s.num_vars(),
        forall|l: int| 0 <= l <= s.depth() ==> 0 <= #[trigger] size_at(s.ends(), l) <= s.num_vars(),
        0 <= s.progress(pending) <= s.ceiling(),
{
    let d = s.depth();
    let n = s.num_vars();
    lemma_trail_bounded(&s);
    if d >= 1 {
        lemma_level_start(s, d);
        assert(s.assignment_stack.lo(d) < s.assignment_stack.hi(d));
    }
    assert forall|l: int| 0 <= l <= d implies 0 <= #[trigger] size_at(s.ends(), l) <= n by {
        assert(s.ends()[l] == s.assignment_stack.hi(l));
        if l >= 1 {
            assert(s.ends()[l - 1] == s.assignment_stack.lo(l));
            assert(s.assignment_stack.lo(l) < s.assignment_stack.hi(l));
            assert(s.assignment_stack.marks()[l - 1] >= 0);
        }
        if l < d {
            assert(0 <= s.assignment_stack.marks()[l] <= s.trail().len());
        }
    }
    lemma_tail(s.ends(), n, -1, d);
    lemma_place_positive(n + 2, n - d);
    lemma_weight_nonneg(s.ends(), n, d + 1);
}

/// Layers of non-negative size have a non-negative weight.
pub proof fn lemma_weight_nonneg(ends: Seq<int>, n: int, l: int)
    requires
        n >= 0,
        forall|i: int| 0 <= i < l ==> 0 <= #[trigger] size_at(ends, i),
    ensures
        0 <= weight_to(ends, n, l),
    decreases l,
{
    if l > 0 {
        lemma_weight_nonneg(ends, n, l - 1);
        lemma_place_positive(n + 2, n - (l - 1));
        assert(size_at(ends, l - 1) * place(n + 2, n - (l - 1)) >= 0) by (nonlinear_arith)
            requires
                size_at(ends, l - 1) >= 0,
                place(n + 2, n - (l - 1)) >= 1,
        ;
    }
}

/// A variable that got its value while the trail was extended stands on
/// the new part of the trail, at the current level.
pub proof fn lemma_new_assignment(s0: State, s1: State, v: int)
    requires
        s0.wf(),
        s1.wf(),
        s1.extends(s0),
        0 <= v < s0.num_vars(),
        s0.asg()[v] is None,
        s1.asg()[v] is Some,
    ensures
        s1.trail().len() > s0.trail().len(),
        s1.level_of(v) == s1.depth(),
{
    assert(s1.on_trail(v));
    let q = choose|q: int| 0 <= q < s1.trail().len() && (#[trigger] s1.trail()[q]).index() == v;
    if q < s0.trail().len() {
        assert(s0.trail()[q] == s1.trail().take(s0.trail().len() as int)[q]);
        assert(s0.entry_ok(q));
        assert(false);
    }
    assert(s1.entry_ok(q));
    let l = s1.level_of(v);
    if l < s1.depth() {
        assert(0 <= s0.assignment_stack.marks()[l] <= s0.trail().len());
        assert(false);
    }
}

/// Extending the trail at the current level keeps the state grounded and
/// moves the weight by the number of new literals.
pub proof fn lemma_extend(s0: State, s1: State)
    requires
        s0.wf(),
        s1.wf(),
        s1.extends(s0),
        s1.clauses@ == s0.clauses@,
        s0.grounded(),
    ensures
        s1.grounded(),
        s1.weight() == s0.weight() + (s1.trail().len() - s0.trail().len()) * place(
            s0.num_vars() + 2,
            s0.num_vars() - s0.depth(),
        ),
        forall|t: int|
            0 <= t <= s0.depth() ==> #[trigger] weight_to(s1.ends(), s1.num_vars(), t)
                == weight_to(s0.ends(), s0.num_vars(), t),
{
    let d = s0.depth();
    let n = s0.num_vars();
    if d >= 1 {
        assert forall|c: int| 0 <= c < s1.clauses@.len() implies s1.open_clause(
            (#[trigger] s1.clauses@[c]).body@,
        ) by {
            let body = s0.clauses@[c].body@;
            assert(s0.open_clause(body));
            let i = choose|i: int|
                0 <= i < body.len() && !(lit_false(#[trigger] body[i], s0.asg()) && s0.level_of(
                    body[i].index(),
                ) < s0.depth());
            assert(in_range(body, n));
            let v = body[i].index();
            if lit_false(body[i], s1.asg()) && s1.level_of(v) < s1.depth() {
                if s0.asg()[v] is Some {
                    assert(false);
                } else {
                    lemma_new_assignment(s0, s1, v);
                    assert(false);
                }
            }
        }
    }
    assert forall|t: int| 0 <= t <= d implies #[trigger] weight_to(s1.ends(), n, t) == weight_to(
        s0.ends(),
        n,
        t,
    ) by {
        lemma_weight_same(s1.ends(), s0.ends(), n, t);
    }
    let p = place(n + 2, n - d);
    let k = s1.trail().len() - s0.trail().len();
    let a = size_at(s0.ends(), d);
    assert(weight_to(s1.ends(), n, d) == weight_to(s0.ends(), n, d));
    assert(s1.ends()[d] == s1.trail().len());
    assert(s0.ends()[d] == s0.trail().len());
    if d >= 1 {
        assert(s1.ends()[d - 1] == s0.ends()[d - 1]);
    }
    assert(size_at(s1.ends(), d) == a + k);
    assert(s1.weight() == weight_to(s1.ends(), n, d) + (a + k) * p);
    assert(s0.weight() == weight_to(s0.ends(), n, d) + a * p);
    assert((a + k) * p == a * p + k * p) by (nonlinear_arith);
}

/// Opening a level on a fixpoint leaves the state grounded and raises the
/// weight by one unit of the new level's place.
pub proof fn lemma_decide(s1: State, s2: State, g: Atom)
    requires
        s1.wf(),
        s2.wf(),
        s1.at_fixpoint(),
        lit_unset(g, s1.asg()),
        s2.clauses@ == s1.clauses@,
        s2.depth() == s1.depth() + 1,
        s2.trail() == s1.trail().push(g),
        s2.assignment_stack.marks() == s1.assignment_stack.marks().push(s1.trail().len() as int),
        s2.asg() == s1.asg().update(g.index(), Some(g.polarity)),
        s2.level_of(g.index()) == s2.depth(),
    ensures
        s2.grounded(),
        s2.weight() == s1.weight() + place(s1.num_vars() + 2, s1.num_vars() - s2.depth()),
{
    let n = s1.num_vars();
    let d = s1.depth();
    assert forall|c: int| 0 <= c < s2.clauses@.len() implies s2.open_clause(
        (#[trigger] s2.clauses@[c]).body@,
    ) by {
        let body = s1.clauses@[c].body@;
        assert(quiet(body, s1.asg()));
        assert(in_range(body, n));
        let i = choose|i: int| 0 <= i < body.len() && !lit_false(#[trigger] body[i], s1.asg());
        if body[i].index() == g.index() {
        } else {
            assert(s2.asg()[body[i].index()] == s1.asg()[body[i].index()]);
        }
    }
    lemma_weight_same(s2.ends(), s1.ends(), n, d + 1);
    assert(size_at(s2.ends(), d + 1) == 1);
    assert(1 * place(n + 2, n - (d + 1)) == place(n + 2, n - (d + 1))) by (nonlinear_arith);
}

/// After learning an asserting clause and jumping back to its level, the
/// state is grounded, the clause is unit, and the weight is that of the
/// levels kept.
pub proof fn lemma_jump(s1: State, s3: State, body: Seq<Atom>, reset: int)
    requires
        s1.wf(),
        s3.wf(),
        s1.grounded(),
        s1.depth() >= 1,
        s1.asserting(body, reset),
        s1.clauses@.len() >= 1,
        s1.clauses@.last().body@ == body,
        s3.cut_back_from(s1, reset),
    ensures
        s3.grounded(),
        unit_at(body, s3.asg(), body.len() - 1),
        s3.weight() == weight_to(s1.ends(), s1.num_vars(), reset + 1),
{
    let n = s1.num_vars();
    let last = body.len() - 1;
    assert(lit_false(body[last], s1.asg()));
    assert(level_kept(s1, s3, reset, body[last].index()));
    assert forall|i: int| 0 <= i < body.len() && i != last implies lit_false(
        #[trigger] body[i],
        s3.asg(),
    ) by {
        assert(body[i] == body.drop_last()[i]);
        assert(lit_false(body.drop_last()[i], s1.asg()));
        assert(level_kept(s1, s3, reset, body[i].index()));
    }
    if s3.depth() >= 1 {
        assert forall|c: int| 0 <= c < s3.clauses@.len() implies s3.open_clause(
            (#[trigger] s3.clauses@[c]).body@,
        ) by {
            let b = s1.clauses@[c].body@;
            assert(s1.open_clause(b));
            assert(in_range(b, n));
            let i = choose|i: int|
                0 <= i < b.len() && !(lit_false(#[trigger] b[i], s1.asg()) && s1.level_of(
                    b[i].index(),
                ) < s1.depth());
            assert(level_kept(s1, s3, reset, b[i].index()));
            assert(!lit_false(b[i], s3.asg()));
        }
    }
    assert forall|i: int| 0 <= i < reset + 1 implies s3.ends()[i] == s1.ends()[i] by {
        if i < reset {
            assert(s3.assignment_stack.marks()[i] == s1.assignment_stack.marks()[i]);
        }
    }
    lemma_weight_same(s3.ends(), s1.ends(), n, reset + 1);
}

/// On a fixpoint with every variable assigned, every clause is satisfied.
pub proof fn lemma_complete_fixpoint(s: State)
    requires
        s.wf(),
        s.at_fixpoint(),
        s.complete(),
    ensures
        s.all_satisfied(),
{
    assert forall|c: int| 0 <= c < s.clauses@.len() implies satisfied(
        (#[trigger] s.clauses@[c]).body@,
        s.asg(),
    ) by {
        let body = s.clauses@[c].body@;
        assert(quiet(body, s.asg()));
        assert(in_range(body, s.num_vars()));
        let i = choose|i: int| 0 <= i < body.len() && !lit_false(#[trigger] body[i], s.asg());
        assert(0 <= body[i].index() < s.num_vars());
        assert(s.asg()[body[i].index()] is Some);
        let x = s.asg()[body[i].index()]->0;
        assert(s.asg()[body[i].index()] == Some(x));
        assert(x == body[i].polarity);
        assert(lit_true(body[i], s.asg()));
    }
}

/// What follows from `orig` still does after steps that keep the clauses
/// and the validity of the derivations.
pub proof fn lemma_follow_keep(s0: State, s1: State, orig: Seq<Clause>)
    requires
        s0.follows_from(orig),
        s1.clauses@ == s0.clauses@,
        s1.num_vars() == s0.num_vars(),
        forall|m: Seq<bool>|
            #[trigger] s0.respects(m) && models(m, s0.clauses@) ==> s1.respects(m),
    ensures
        s1.follows_from(orig),
{
    assert forall|m: Seq<bool>| m.len() == s1.num_vars() && #[trigger] models(m, orig) implies models(
        m,
        s1.clauses@,
    ) && s1.respects(m) by {
        assert(s0.respects(m));
    }
}

/// A clause implied by the cut of a falsified clause follows from `orig`
/// like the clauses it was learned from.
pub proof fn lemma_follow_learn(
    s1: State,
    s2: State,
    orig: Seq<Clause>,
    c: int,
    cut: Seq<Atom>,
    learned: Seq<Atom>,
)
    requires
        s1.follows_from(orig),
        0 <= c < s1.clauses@.len(),
        cut == complements(s1.clauses@[c].body@),
        s1.implied_by_cut(cut, learned),
        s2.clauses@.len() == s1.clauses@.len() + 1,
        s2.clauses@.drop_last() == s1.clauses@,
        s2.clauses@.last().body@ == learned,
        s2.assignment_stack == s1.assignment_stack,
        s2.assignments == s1.assignments,
        s2.derivation_graph == s1.derivation_graph,
    ensures
        s2.follows_from(orig),
{
    assert forall|m: Seq<bool>| m.len() == s2.num_vars() && #[trigger] models(m, orig) implies models(
        m,
        s2.clauses@,
    ) && s2.respects(m) by {
        assert(s1.respects(m));
        assert(models(m, s1.clauses@));
        let body = s1.clauses@[c].body@;
        assert(clause_holds(body, m));
        let i = choose|i: int| 0 <= i < body.len() && holds(#[trigger] body[i], m);
        assert(cut[i] == body[i].complement());
        assert(!holds(cut[i], m));
        assert(refuted_from(cut, 0, m));
        assert(clause_holds(learned, m));
        assert forall|k: int| 0 <= k < s2.clauses@.len() implies clause_holds(
            (#[trigger] s2.clauses@[k]).body@,
            m,
        ) by {
            if k < s1.clauses@.len() {
                assert(s2.clauses@[k] == s2.clauses@.drop_last()[k]);
                assert(clause_holds(s1.clauses@[k].body@, m));
            }
        }
        assert forall|p: int| 0 <= p < s2.trail().len() implies #[trigger] s2.step_valid(p, m) by {
            assert(s1.step_valid(p, m));
        }
    }
}

/// A clause falsified before any decision shows that `orig` has no
/// satisfying assignment.
pub proof fn lemma_refuted_root(s: State, orig: Seq<Clause>, c: int)
    requires
        s.wf(),
        s.depth() == 0,
        s.follows_from(orig),
        0 <= c < s.clauses@.len(),
        falsified(s.clauses@[c].body@, s.asg()),
    ensures
        !satisfiable(orig, s.num_vars()),
{
    assert forall|m: Seq<bool>| m.len() == s.num_vars() implies !#[trigger] models(m, orig) by {
        if models(m, orig) {
            assert(s.respects(m));
            assert(models(m, s.clauses@));
            let body = s.clauses@[c].body@;
            assert(clause_holds(body, m));
            let i = choose|i: int| 0 <= i < body.len() && holds(#[trigger] body[i], m);
            assert(lit_false(body[i], s.asg()));
            let a = body[i].complement();
            assert(lit_true(a, s.asg()));
            lemma_true_on_trail(s, a);
            let q = choose|q: int|
                0 <= q < s.trail().len() && q < s.trail().len() && #[trigger] s.trail()[q] == a;
            assert(s.entry_ok(q));
            lemma_root_holds(s, m, q);
            assert(false);
        }
    }
}

/// A complete assignment under which every clause has a true literal is a
/// satisfying assignment of the clauses the search started from.
pub proof fn lemma_model_found(s: State, orig: Seq<Clause>)
    requires
        s.wf(),
        s.complete(),
        s.all_satisfied(),
        s.clauses@.len() >= orig.len(),
        s.clauses@.take(orig.len() as int) == orig,
    ensures
        satisfiable(orig, s.num_vars()),
{
    let m = Seq::new(s.num_vars() as nat, |v: int| s.asg()[v] == Some(true));
    assert forall|c: int| 0 <= c < orig.len() implies clause_holds((#[trigger] orig[c]).body@, m) by {
        assert(orig[c] == s.clauses@.take(orig.len() as int)[c]);
        let body = s.clauses@[c].body@;
        assert(satisfied(body, s.asg()));
        let i = choose|i: int| 0 <= i < body.len() && lit_true(#[trigger] body[i], s.asg());
        assert(holds(body[i], m));
    }
    assert(models(m, orig));
}

impl State {
    /// Add a learned clause to the clause list.
    pub fn learn(&mut self, clause: Clause)
        requires
            old(self).wf(),
            in_range(clause.body@, old(self).num_vars()),
        ensures
            final(self).wf(),
            final(self).clauses@ == old(self).clauses@.push(clause),
            final(self).assignment_stack == old(self).assignment_stack,
            final(self).assignments == old(self).assignments,
            final(self).derivation_graph == old(self).derivation_graph,
    {
        self.clauses.push(clause);
        proof {
            assert forall|c: int| 0 <= c < self.clauses@.len() implies in_range(
                (#[trigger] self.clauses@[c]).body@,
                self.num_vars(),
            ) by {
                if c < old(self).clauses@.len() {
                    assert(in_range(old(self).clauses@[c].body@, old(self).num_vars()));
                }
            }
            lemma_other_clauses(*old(self), *self);
        }
    }

    /// Search for a satisfying assignment: propagate, and then either learn
    /// from the conflict and jump back, or decide the next variable.
    /// Returns whether the clauses are satisfiable.
    pub fn sat(&mut self) -> (r: bool)
        requires
            old(self).wf(),
            old(self).trail().len() == 0,
        ensures
            final(self).wf(),
            final(self).num_vars() == old(self).num_vars(),
            final(self).clauses@.len() >= old(self).clauses@.len(),
            final(self).clauses@.take(old(self).clauses@.len() as int) == old(self).clauses@,
            r == satisfiable(old(self).clauses@, old(self).num_vars()),
            r ==> final(self).complete() && final(self).all_satisfied(),
            !r ==> final(self).depth() == 0 && exists|c: int|
                0 <= c < final(self).clauses@.len() && falsified(
                    (#[trigger] final(self).clauses@[c]).body@,
                    final(self).asg(),
                ),
    {
        let ghost mut pending = false;
        let ghost orig = self.clauses@;
        proof {
            assert(self.follows_from(orig)) by {
                assert forall|m: Seq<bool>|
                    m.len() == self.num_vars() && #[trigger] models(m, orig) implies self.respects(
                    m,
                ) by {}
            }
            lemma_levels_bounded(*self, pending);
            assert(self.clauses@.take(self.clauses@.len() as int) =~= self.clauses@);
            assert(self.depth() == 0) by {
                if self.depth() >= 1 {
                    assert(self.assignment_stack.lo(1) < self.assignment_stack.hi(1));
                    assert(0 <= self.assignment_stack.marks()[0] <= 0);
                    if self.depth() >= 2 {
                        assert(0 <= self.assignment_stack.marks()[1] <= 0);
                    }
                }
            }
        }
        loop
            invariant
                self.wf(),
                self.num_vars() == old(self).num_vars(),
                self.clauses@.len() >= old(self).clauses@.len(),
                self.clauses@.take(old(self).clauses@.len() as int) == old(self).clauses@,
                self.grounded(),
                orig == old(self).clauses@,
                self.follows_from(orig),
                pending ==> self.has_unit(),
                0 <= self.progress(pending) <= self.ceiling(),
            decreases self.ceiling() - self.progress(pending),
        {
            let ghost s0 = *self;
            let scan = self.unit_prop_scan();
            let ghost s1 = *self;
            proof {
                lemma_extend(s0, s1);
                lemma_follow_keep(s0, s1, orig);
                lemma_levels_bounded(s0, pending);
                lemma_levels_bounded(s1, false);
            }
            match scan {
                FullUnitPropResult::Conflict { inputs } => {
                    let ghost cw = choose|c: int|
                        0 <= c < s1.clauses@.len() && falsified(
                            (#[trigger] s1.clauses@[c]).body@,
                            s1.asg(),
                        ) && inputs@ == complements(s1.clauses@[c].body@);
                    if self.assignment_stack.len() == 0 {
                        proof {
                            lemma_refuted_root(s1, orig, cw);
                        }
                        return false;
                    }
                    proof {
                        let c = choose|c: int|
                            0 <= c < s1.clauses@.len() && falsified(
                                (#[trigger] s1.clauses@[c]).body@,
                                s1.asg(),
                            ) && inputs@ == complements(s1.clauses@[c].body@);
                        let body = s1.clauses@[c].body@;
                        assert(s1.open_clause(body));
                        let i = choose|i: int|
                            0 <= i < body.len() && !(lit_false(#[trigger] body[i], s1.asg())
                                && s1.level_of(body[i].index()) < s1.depth());
                        assert(lit_false(body[i], s1.asg()));
                        assert(s1.on_trail(body[i].index()));
                        let q = choose|q: int|
                            0 <= q < s1.trail().len() && (#[trigger] s1.trail()[q]).index()
                                == body[i].index();
                        assert(s1.entry_ok(q));
                        assert(inputs@[i].index() == body[i].index());
                        assert(s1.touches_top(inputs@));
                        assert forall|k: int| 0 <= k < inputs@.len() implies lit_true(
                            #[trigger] inputs@[k],
                            s1.asg(),
                        ) by {
                            assert(lit_false(body[k], s1.asg()));
                        }
                    }
                    let (conflict_clause, reset_level) = self.analyse_conflict(inputs.as_slice());
                    let ghost learned = conflict_clause.body@;
                    proof {
                        assert(in_range(learned, self.num_vars())) by {
                            assert forall|i: int| 0 <= i < learned.len() implies 0 <= (
                            #[trigger] learned[i]).index() < self.num_vars() by {
                                assert(lit_false(learned[i], self.asg()));
                            }
                        }
                    }
                    self.learn(conflict_clause);
                    let ghost s2 = *self;
                    proof {
                        assert(s2.clauses@.drop_last() =~= s1.clauses@);
                        lemma_follow_learn(s1, s2, orig, cw, inputs@, learned);
                        assert(s2.asserting(learned, reset_level as int));
                        assert(s2.grounded()) by {
                            assert forall|c: int| 0 <= c < s2.clauses@.len() implies s2.open_clause(
                                (#[trigger] s2.clauses@[c]).body@,
                            ) by {
                                if c < s1.clauses@.len() {
                                    assert(s1.open_clause(s1.clauses@[c].body@));
                                } else {
                                    assert(lit_false(learned[learned.len() - 1], s2.asg()));
                                }
                            }
                        }
                    }
                    self.backjump(reset_level);
                    proof {
                        let n = s0.num_vars();
                        let d = s0.depth();
                        let t = reset_level as int;
                        lemma_jump(s2, *self, learned, t);
                        lemma_follow_keep(s2, *self, orig);
                        assert(s2.ends() == s1.ends());
                        assert(self.has_unit()) by {
                            assert(self.clauses@[s1.clauses@.len() as int].body@ == learned);
                            assert(is_unit(learned, self.asg()));
                        }
                        assert(self.clauses@.take(old(self).clauses@.len() as int)
                            =~= old(self).clauses@) by {
                            assert forall|i: int| 0 <= i < old(self).clauses@.len() implies self.clauses@[i]
                                == old(self).clauses@[i] by {
                                assert(s0.clauses@.take(old(self).clauses@.len() as int)[i]
                                    == old(self).clauses@[i]);
                            }
                        }
                        assert(weight_to(s1.ends(), n, t + 1) == weight_to(s0.ends(), n, t + 1));
                        lemma_tail(s0.ends(), n, t, d);
                        lemma_place_positive(n + 2, n - d);
                        lemma_levels_bounded(*self, true);
                        pending = true;
                    }
                },
                FullUnitPropResult::Done => {
                    let guess = self.guess();
                    if let Some(guess) = guess {
                        self.make_guess(guess);
                        proof {
                            let n = s0.num_vars();
                            let d = s0.depth();
                            lemma_decide(s1, *self, guess);
                            lemma_follow_keep(s1, *self, orig);
                            lemma_place_positive(n + 2, n - (d + 1));
                            lemma_place_positive(n + 2, n - d);
                            if pending {
                                let w = choose|w: int|
                                    0 <= w < s0.clauses@.len() && is_unit(
                                        (#[trigger] s0.clauses@[w]).body@,
                                        s0.asg(),
                                    );
                                let body = s0.clauses@[w].body@;
                                let k = choose|k: int| unit_at(body, s0.asg(), k);
                                assert(quiet(s1.clauses@[w].body@, s1.asg()));
                                assert(in_range(body, n));
                                assert forall|i: int| 0 <= i < body.len() && i != k implies lit_false(
                                    #[trigger] body[i],
                                    s1.asg(),
                                ) by {
                                    assert(lit_false(body[i], s0.asg()));
                                    assert(s0.asg()[body[i].index()] is Some);
                                }
                                assert(!unit_at(body, s1.asg(), k));
                                assert(s1.asg()[body[k].index()] is Some);
                                lemma_new_assignment(s0, s1, body[k].index());
                                let grown = s1.trail().len() - s0.trail().len();
                                let p = place(n + 2, n - d);
                                assert(grown * p >= p) by (nonlinear_arith)
                                    requires
                                        grown >= 1,
                                        p >= 1,
                                ;
                            } else {
                                let grown = s1.trail().len() - s0.trail().len();
                                let p = place(n + 2, n - d);
                                assert(grown * p >= 0) by (nonlinear_arith)
                                    requires
                                        grown >= 0,
                                        p >= 1,
                                ;
                            }
                            lemma_levels_bounded(*self, false);
                            pending = false;
                        }
                    } else {
                        proof {
                            lemma_complete_fixpoint(*self);
                            lemma_model_found(*self, orig);
                        }
                        return true;
                    }
                },
            }
        }
    }
}

} // verus!
