use crate::clauses::{falsified, lit_false, lit_true, Clause};
use crate::decision::in_span;
use crate::models::{clause_holds, holds, lemma_root_holds, refuted_from};
use crate::state::{DerivationGraphNode, State};
use crate::variables::Atom;
use vstd::prelude::*;

verus! {

/// Number of trail positions from `lo` up to `hi` whose variable is marked.
pub open spec fn marked_between(trail: Seq<Atom>, marked: Seq<bool>, lo: int, hi: int) -> int
    decreases hi - lo,
{
    if hi <= lo {
        0
    } else {
        marked_between(trail, marked, lo, hi - 1) + if marked[trail[hi - 1].index()] {
            1int
        } else {
            0int
        }
    }
}

/// The count lies between zero and the width of the span.
pub proof fn lemma_marked_bounds(trail: Seq<Atom>, marked: Seq<bool>, lo: int, hi: int)
    requires
        lo <= hi,
    ensures
        0 <= marked_between(trail, marked, lo, hi) <= hi - lo,
    decreases hi - lo,
{
    if hi > lo {
        lemma_marked_bounds(trail, marked, lo, hi - 1);
    }
}

/// Two markings that agree on the variables of the span give the same count.
pub proof fn lemma_marked_same(trail: Seq<Atom>, m1: Seq<bool>, m2: Seq<bool>, lo: int, hi: int)
    requires
        forall|p: int| lo <= p < hi ==> m1[(#[trigger] trail[p]).index()] == m2[trail[p].index()],
    ensures
        marked_between(trail, m1, lo, hi) == marked_between(trail, m2, lo, hi),
    decreases hi - lo,
{
    if hi > lo {
        lemma_marked_same(trail, m1, m2, lo, hi - 1);
    }
}

/// A span without a marked variable counts zero.
pub proof fn lemma_marked_none(trail: Seq<Atom>, marked: Seq<bool>, lo: int, hi: int)
    requires
        forall|p: int| lo <= p < hi ==> !marked[(#[trigger] trail[p]).index()],
    ensures
        marked_between(trail, marked, lo, hi) == 0,
    decreases hi - lo,
{
    if hi > lo {
        lemma_marked_none(trail, marked, lo, hi - 1);
    }
}

/// A marked variable inside the span makes the count positive.
pub proof fn lemma_marked_positive(trail: Seq<Atom>, marked: Seq<bool>, lo: int, hi: int, p: int)
    requires
        lo <= p < hi,
        marked[trail[p].index()],
    ensures
        marked_between(trail, marked, lo, hi) >= 1,
    decreases hi - lo,
{
    lemma_marked_bounds(trail, marked, lo, hi - 1);
    if p < hi - 1 {
        lemma_marked_positive(trail, marked, lo, hi - 1, p);
    }
}

/// Marking a variable that stands once in the span raises the count by one.
pub proof fn lemma_marked_flip(
    trail: Seq<Atom>,
    m1: Seq<bool>,
    m2: Seq<bool>,
    lo: int,
    hi: int,
    p: int,
)
    requires
        0 <= lo <= p < hi <= trail.len(),
        0 <= trail[p].index() < m1.len(),
        !m1[trail[p].index()],
        m2 == m1.update(trail[p].index(), true),
        forall|i: int| 0 <= i < trail.len() ==> 0 <= (#[trigger] trail[i]).index() < m1.len(),
        forall|i: int, j: int|
            0 <= i < j < trail.len() ==> (#[trigger] trail[i]).index() != (
            #[trigger] trail[j]).index(),
    ensures
        marked_between(trail, m2, lo, hi) == marked_between(trail, m1, lo, hi) + 1,
    decreases hi - lo,
{
    if p == hi - 1 {
        assert forall|q: int| lo <= q < hi - 1 implies m1[(#[trigger] trail[q]).index()]
            == m2[trail[q].index()] by {
            assert(trail[q].index() != trail[p].index());
        }
        lemma_marked_same(trail, m1, m2, lo, hi - 1);
    } else {
        lemma_marked_flip(trail, m1, m2, lo, hi - 1, p);
        assert(trail[p].index() != trail[hi - 1].index());
    }
}

impl State {
    /// The trail position at which the current level starts.
    pub open spec fn base(&self) -> int {
        self.assignment_stack.lo(self.depth())
    }

    /// Every literal of the cut is true and stands on the trail below `bound`.
    pub open spec fn cut_ok(&self, cut: Seq<Atom>, bound: int) -> bool {
        forall|k: int|
            0 <= k < cut.len() ==> lit_true(#[trigger] cut[k], self.asg()) && self.placed_before(
                cut[k],
                bound,
            )
    }

    /// Every marked variable is assigned, and those of the current level
    /// stand on the trail below `bound`.
    pub open spec fn frontier_ok(&self, marked: Seq<bool>, bound: int) -> bool {
        forall|v: int|
            0 <= v < self.num_vars() && #[trigger] marked[v] ==> self.asg()[v] is Some && (
            self.level_of(v) == self.depth() ==> in_span(self.trail(), self.base(), bound, v))
    }

    /// Every literal of the body is false and was assigned at a level from
    /// one up to `reset`; `reset` is zero or the level of one of them.
    pub open spec fn lower_part(&self, body: Seq<Atom>, reset: int) -> bool {
        &&& forall|i: int|
            0 <= i < body.len() ==> lit_false(#[trigger] body[i], self.asg()) && 1
                <= self.level_of(body[i].index()) <= reset
        &&& reset == 0 || exists|i: int|
            0 <= i < body.len() && self.level_of((#[trigger] body[i]).index()) == reset
    }

    /// Every marked variable of a level between zero and the current one
    /// has a literal in the body.
    pub open spec fn lower_listed(&self, marked: Seq<bool>, body: Seq<Atom>) -> bool {
        forall|v: int|
            0 <= v < self.num_vars() && #[trigger] marked[v] && 1 <= self.level_of(v)
                < self.depth() ==> exists|i: int|
                0 <= i < body.len() && (#[trigger] body[i]).index() == v
    }

    /// Some marked literal of the current level, below `bound`, is not true
    /// under `m`.
    pub open spec fn marked_miss(&self, marked: Seq<bool>, bound: int, m: Seq<bool>) -> bool {
        exists|p: int|
            self.base() <= p < bound && 0 <= p < self.trail().len() && marked[(
            #[trigger] self.trail()[p]).index()] && !holds(self.trail()[p], m)
    }

    /// Under `m` the body holds, or a marked literal below `bound` fails, or
    /// a literal of the cut from position `k` on fails.
    pub open spec fn slack(
        &self,
        body: Seq<Atom>,
        marked: Seq<bool>,
        bound: int,
        cut: Seq<Atom>,
        k: int,
        m: Seq<bool>,
    ) -> bool {
        clause_holds(body, m) || self.marked_miss(marked, bound, m) || refuted_from(cut, k, m)
    }

    /// Every assignment that validates the derivations and falsifies a
    /// literal of `cut` satisfies the body.
    pub open spec fn implied_by_cut(&self, cut: Seq<Atom>, body: Seq<Atom>) -> bool {
        forall|m: Seq<bool>|
            #[trigger] self.respects(m) && refuted_from(cut, 0, m) ==> clause_holds(body, m)
    }

    /// No variable occurs twice in the body, and every variable of the
    /// body is marked.
    pub open spec fn marked_body(&self, marked: Seq<bool>, body: Seq<Atom>) -> bool {
        &&& distinct_vars(body)
        &&& forall|i: int| 0 <= i < body.len() ==> marked[(#[trigger] body[i]).index()]
    }

    /// Some literal of the cut was assigned at the current level.
    pub open spec fn touches_top(&self, cut: Seq<Atom>) -> bool {
        exists|k: int|
            0 <= k < cut.len() && self.level_of((#[trigger] cut[k]).index()) == self.depth()
    }

    /// What analysis hands back for the current conflict: the clause is
    /// false as a whole; its last literal is the only one of the current
    /// level; the others come from levels one up to `reset`, which lies
    /// below the current level and is the highest level among them.
    pub open spec fn asserting(&self, body: Seq<Atom>, reset: int) -> bool {
        &&& body.len() >= 1
        &&& 0 <= reset < self.depth()
        &&& falsified(body, self.asg())
        &&& self.level_of(body.last().index()) == self.depth()
        &&& self.lower_part(body.drop_last(), reset)
    }
}

/// No variable occurs twice among the literals.
pub open spec fn distinct_vars(body: Seq<Atom>) -> bool {
    forall|i: int, j: int|
        0 <= i < j < body.len() ==> (#[trigger] body[i]).index() != (#[trigger] body[j]).index()
}

/// A true literal stands on the trail.
pub proof fn lemma_true_on_trail(s: State, a: Atom)
    requires
        s.wf(),
        lit_true(a, s.asg()),
    ensures
        s.placed_before(a, s.trail().len() as int),
{
    assert(s.asg()[a.index()] is Some);
    assert(s.on_trail(a.index()));
    let q = choose|q: int|
        0 <= q < s.trail().len() && (#[trigger] s.trail()[q]).index() == a.index();
    assert(s.entry_ok(q));
    assert(s.trail()[q].var.id == a.var.id);
    assert(s.trail()[q] == a);
}

/// A vector of `n` unmarked flags.
pub fn unmarked(n: usize) -> (v: Vec<bool>)
    ensures
        v@.len() == n,
        forall|i: int| 0 <= i < n ==> !#[trigger] v@[i],
{
    let mut v: Vec<bool> = Vec::new();
    let mut i: usize = 0;
    while i < n
        invariant
            0 <= i <= n,
            v@.len() == i,
            forall|j: int| 0 <= j < i ==> !#[trigger] v@[j],
        decreases n - i,
    {
        v.push(false);
        i += 1;
    }
    v
}

impl State {
    /// Resolve the conflict backwards along the current level until one
    /// literal of that level is left, and hand back the learned clause with
    /// the level to jump back to.
    pub fn analyse_conflict(&self, inputs: &[Atom]) -> (r: (Clause, usize))
        requires
            self.wf(),
            self.depth() >= 1,
            forall|k: int| 0 <= k < inputs@.len() ==> lit_true(#[trigger] inputs@[k], self.asg()),
            self.touches_top(inputs@),
        ensures
            self.asserting(r.0.body@, r.1 as int),
            self.implied_by_cut(inputs@, r.0.body@),
            distinct_vars(r.0.body@),
    {
        let cur_level = self.assignment_stack.len();
        let mut reset_level: usize = 0;
        let mut result_body: Vec<Atom> = Vec::new();
        let mut frontier: Vec<bool> = unmarked(self.assignments.len());
        let mut cur_level_size: usize = 0;
        let top = self.assignment_stack.peek_stack();
        let mut pos: usize = top.len();
        let mut next_conflict: &[Atom] = inputs;
        let ghost base = self.base();
        let ghost trail = self.trail();
        let ghost d = self.depth();
        let ghost cut0 = inputs@;
        proof {
            assert(self.assignment_stack.lo(d) < self.assignment_stack.hi(d));
            assert(top@.len() == trail.len() - base);
            assert forall|k: int| 0 <= k < inputs@.len() implies self.placed_before(
                #[trigger] inputs@[k],
                base + pos,
            ) by {
                lemma_true_on_trail(*self, inputs@[k]);
            }
            assert forall|p: int| base <= p < base + pos implies !frontier@[(
            #[trigger] trail[p]).index()] by {
                assert(self.entry_ok(p));
            }
            lemma_marked_none(trail, frontier@, base, base + pos);
        }
        loop
            invariant
                self.wf(),
                d == self.depth(),
                d >= 1,
                cur_level == d,
                base == self.base(),
                trail == self.trail(),
                0 <= base < trail.len(),
                top@ == trail.subrange(base, trail.len() as int),
                0 <= pos <= top@.len(),
                frontier@.len() == self.num_vars(),
                self.cut_ok(next_conflict@, base + pos),
                self.frontier_ok(frontier@, base + pos),
                cur_level_size == marked_between(trail, frontier@, base, base + pos),
                cur_level_size >= 1 || self.touches_top(next_conflict@),
                self.lower_part(result_body@, reset_level as int),
                reset_level < d,
                cut0 == inputs@,
                self.lower_listed(frontier@, result_body@),
                self.marked_body(frontier@, result_body@),
                forall|m: Seq<bool>|
                    #[trigger] self.respects(m) && refuted_from(cut0, 0, m) ==> self.slack(
                        result_body@,
                        frontier@,
                        base + pos,
                        next_conflict@,
                        0,
                        m,
                    ),
            decreases pos,
        {
            let mut k: usize = 0;
            while k < next_conflict.len()
                invariant
                    self.wf(),
                    d == self.depth(),
                    d >= 1,
                    cur_level == d,
                    base == self.base(),
                    trail == self.trail(),
                    0 <= base < trail.len(),
                    top@ == trail.subrange(base, trail.len() as int),
                    0 <= pos <= top@.len(),
                    0 <= k <= next_conflict@.len(),
                    frontier@.len() == self.num_vars(),
                    self.cut_ok(next_conflict@, base + pos),
                    self.frontier_ok(frontier@, base + pos),
                    cur_level_size == marked_between(trail, frontier@, base, base + pos),
                    forall|j: int| 0 <= j < k ==> frontier@[(#[trigger] next_conflict@[j]).index()],
                    cur_level_size >= 1 || self.touches_top(next_conflict@),
                    self.lower_part(result_body@, reset_level as int),
                    reset_level < d,
                    self.lower_listed(frontier@, result_body@),
                    self.marked_body(frontier@, result_body@),
                    forall|m: Seq<bool>|
                        #[trigger] self.respects(m) && refuted_from(cut0, 0, m) ==> self.slack(
                            result_body@,
                            frontier@,
                            base + pos,
                            next_conflict@,
                            k as int,
                            m,
                        ),
                decreases next_conflict@.len() - k,
            {
                let atom = next_conflict[k];
                let id = atom.get_var().id;
                proof {
                    assert(lit_true(next_conflict@[k as int], self.asg()));
                }
                let seen_prev: bool = frontier[id];
                let ghost before = frontier@;
                let ghost old_body = result_body@;
                if !seen_prev {
                    frontier.set(id, true);
                    proof {
                        assert(self.asg()[id as int] is Some);
                        assert(self.placed_before(atom, base + pos));
                    }
                    let ghost q = choose|q: int|
                        0 <= q < base + pos && q < trail.len() && #[trigger] trail[q] == atom;
                    proof {
                        assert(self.entry_ok(q));
                        lemma_marked_bounds(trail, before, base, base + pos);
                    }
                    match &self.derivation_graph[id] {
                        Some(node) => {
                            let level = node.level();
                            if level == cur_level {
                                proof {
                                    assert(q >= base);
                                    assert forall|i: int| 0 <= i < trail.len() implies 0 <= (
                                    #[trigger] trail[i]).index() < before.len() by {
                                        assert(self.entry_ok(i));
                                    }
                                    lemma_marked_flip(trail, before, frontier@, base, base + pos, q);
                                    lemma_marked_bounds(trail, frontier@, base, base + pos);
                                }
                                cur_level_size += 1;
                            } else {
                                proof {
                                    assert forall|p: int|
                                        base <= p < base + pos implies before[(
                                    #[trigger] trail[p]).index()] == frontier@[trail[p].index()] by {
                                        assert(self.entry_ok(p));
                                        if p >= 1 + base {
                                            assert(self.assignment_stack.marks()[d - 1] <= p);
                                        }
                                    }
                                    lemma_marked_same(trail, before, frontier@, base, base + pos);
                                }
                                if level != 0 {
                                    if level > reset_level {
                                        reset_level = level;
                                    }
                                    result_body.push(atom.negated());
                                    proof {
                                        let nb = result_body@;
                                        assert(nb[nb.len() - 1] == atom.complement());
                                        assert forall|i: int| 0 <= i < nb.len() implies lit_false(
                                            #[trigger] nb[i],
                                            self.asg(),
                                        ) && 1 <= self.level_of(nb[i].index())
                                            <= reset_level as int by {
                                            if i < old_body.len() {
                                                assert(nb[i] == old_body[i]);
                                            }
                                        }
                                        if reset_level == level {
                                            assert(self.level_of(nb[nb.len() - 1].index())
                                                == reset_level);
                                        } else {
                                            let w = choose|i: int|
                                                0 <= i < old_body.len() && self.level_of(
                                                    (#[trigger] old_body[i]).index(),
                                                ) == reset_level as int;
                                            assert(nb[w] == old_body[w]);
                                        }
                                    }
                                }
                            }
                        },
                        None => {
                            proof {
                                assert(false);
                            }
                        },
                    }
                    proof {
                        assert forall|v: int|
                            0 <= v < self.num_vars() && #[trigger] frontier@[v] implies self.asg()[v] is Some
                            && (self.level_of(v) == self.depth() ==> in_span(
                            self.trail(),
                            self.base(),
                            base + pos,
                            v,
                        )) by {
                            if v == id {
                                if self.level_of(v) == d {
                                    assert(q >= base);
                                    assert(trail[q].index() == v);
                                }
                            } else {
                                assert(before[v]);
                            }
                        }
                        assert forall|j: int| 0 <= j < k + 1 implies frontier@[(
                        #[trigger] next_conflict@[j]).index()] by {
                            if j < k {
                                assert(before[next_conflict@[j].index()]);
                            }
                        }
                    }
                }
                proof {
                    let nb = result_body@;
                    let level = self.level_of(id as int);
                    assert(self.placed_before(atom, base + pos));
                    let q = choose|q: int|
                        0 <= q < base + pos && q < trail.len() && #[trigger] trail[q] == atom;
                    assert(self.entry_ok(q));
                    assert forall|i: int| 0 <= i < old_body.len() implies nb[i] == old_body[i] by {}
                    assert(self.marked_body(frontier@, nb)) by {
                        assert forall|i: int| 0 <= i < nb.len() implies frontier@[(
                        #[trigger] nb[i]).index()] by {
                            if i < old_body.len() {
                                assert(lit_false(old_body[i], self.asg()));
                                assert(before[old_body[i].index()]);
                            }
                        }
                        assert forall|i: int, j: int| 0 <= i < j < nb.len() implies (
                        #[trigger] nb[i]).index() != (#[trigger] nb[j]).index() by {
                            if j < old_body.len() {
                                assert(old_body[i].index() != old_body[j].index());
                            } else {
                                assert(before[old_body[i].index()]);
                            }
                        }
                    }
                    assert(self.lower_listed(frontier@, nb)) by {
                        assert forall|v: int|
                            0 <= v < self.num_vars() && #[trigger] frontier@[v] && 1
                                <= self.level_of(v) < self.depth() implies exists|i: int|
                            0 <= i < nb.len() && (#[trigger] nb[i]).index() == v by {
                            if v == id as int && !seen_prev {
                                assert(nb[nb.len() - 1].index() == v);
                            } else {
                                assert(before[v]);
                                let i = choose|i: int|
                                    0 <= i < old_body.len() && (#[trigger] old_body[i]).index()
                                        == v;
                                assert(nb[i].index() == v);
                            }
                        }
                    }
                    assert forall|m: Seq<bool>|
                        #[trigger] self.respects(m) && refuted_from(cut0, 0, m) implies self.slack(
                        nb,
                        frontier@,
                        base + pos,
                        next_conflict@,
                        k + 1,
                        m,
                    ) by {
                        assert(self.slack(old_body, before, base + pos, next_conflict@, k as int, m));
                        if clause_holds(old_body, m) {
                            let i = choose|i: int|
                                0 <= i < old_body.len() && holds(#[trigger] old_body[i], m);
                            assert(holds(nb[i], m));
                        } else if self.marked_miss(before, base + pos, m) {
                            let p = choose|p: int|
                                self.base() <= p < base + pos && 0 <= p < self.trail().len()
                                    && before[(#[trigger] self.trail()[p]).index()] && !holds(
                                    self.trail()[p],
                                    m,
                                );
                            assert(self.entry_ok(p));
                            assert(frontier@[trail[p].index()]);
                        } else {
                            let j = choose|j: int|
                                k <= j < next_conflict@.len() && 0 <= j && !holds(
                                    #[trigger] next_conflict@[j],
                                    m,
                                );
                            if j == k {
                                assert(!holds(atom, m));
                                if level == 0 {
                                    lemma_root_holds(*self, m, q);
                                } else if level == d {
                                    if seen_prev {
                                        assert(in_span(trail, base, base + pos, id as int));
                                        let p = choose|p: int|
                                            base <= p < base + pos && 0 <= p < trail.len() && (
                                            #[trigger] trail[p]).index() == id as int;
                                        assert(self.entry_ok(p));
                                        assert(trail[p].var.id == atom.var.id);
                                        assert(trail[p] == atom);
                                    } else {
                                        assert(q >= base);
                                        assert(frontier@[trail[q].index()]);
                                    }
                                    assert(self.marked_miss(frontier@, base + pos, m));
                                } else {
                                    if seen_prev {
                                        let i = choose|i: int|
                                            0 <= i < old_body.len() && (
                                            #[trigger] old_body[i]).index() == id as int;
                                        assert(lit_false(old_body[i], self.asg()));
                                        assert(old_body[i].var.id == atom.var.id);
                                        assert(old_body[i] == atom.complement());
                                        assert(holds(nb[i], m));
                                    } else {
                                        assert(nb[nb.len() - 1] == atom.complement());
                                        assert(holds(nb[nb.len() - 1], m));
                                    }
                                    assert(clause_holds(nb, m));
                                }
                            } else {
                                assert(refuted_from(next_conflict@, k + 1, m));
                            }
                        }
                    }
                }
                k += 1;
            }
            proof {
                if cur_level_size < 1 {
                    let w = choose|w: int|
                        0 <= w < next_conflict@.len() && self.level_of(
                            (#[trigger] next_conflict@[w]).index(),
                        ) == self.depth();
                    let v = next_conflict@[w].index();
                    assert(lit_true(next_conflict@[w], self.asg()));
                    assert(frontier@[v]);
                    assert(in_span(trail, base, base + pos, v));
                    let p = choose|p: int|
                        base <= p < base + pos && 0 <= p < trail.len() && (
                        #[trigger] trail[p]).index() == v;
                    lemma_marked_positive(trail, frontier@, base, base + pos, p);
                }
            }
            let mut pivot: Option<Atom> = None;
            let ghost start = pos;
            while pivot.is_none()
                invariant
                    pos <= start,
                    pivot is Some ==> pos < start,
                    self.wf(),
                    d == self.depth(),
                    base == self.base(),
                    trail == self.trail(),
                    0 <= base < trail.len(),
                    top@ == trail.subrange(base, trail.len() as int),
                    0 <= pos <= top@.len(),
                    frontier@.len() == self.num_vars(),
                    self.frontier_ok(frontier@, base + pos),
                    cur_level_size == marked_between(trail, frontier@, base, base + pos),
                    pivot is None ==> cur_level_size >= 1,
                    pivot is Some ==> pos < top@.len() && pivot == Some(trail[base + pos]),
                    self.lower_listed(frontier@, result_body@),
                    self.marked_body(frontier@, result_body@),
                    self.lower_part(result_body@, reset_level as int),
                    reset_level < d,
                    forall|m: Seq<bool>|
                        #[trigger] self.respects(m) && refuted_from(cut0, 0, m) ==> clause_holds(
                            result_body@,
                            m,
                        ) || self.marked_miss(frontier@, base + pos, m) || (pivot is Some
                            && !holds(pivot->0, m)),
                decreases pos,
            {
                proof {
                    lemma_marked_bounds(trail, frontier@, base, base);
                    assert(pos >= 1);
                }
                pos -= 1;
                let atom = top[pos];
                proof {
                    assert(atom == trail[base + pos]);
                    assert(self.entry_ok(base + pos));
                }
                let id = atom.get_var().id;
                let ghost before = frontier@;
                if frontier[id] {
                    frontier.set(id, false);
                    cur_level_size -= 1;
                    pivot = Some(atom);
                    proof {
                        assert forall|p: int| base <= p < base + pos implies before[(
                        #[trigger] trail[p]).index()] == frontier@[trail[p].index()] by {
                            assert(self.entry_ok(p));
                            assert(trail[p].index() != trail[base + pos].index());
                        }
                        lemma_marked_same(trail, before, frontier@, base, base + pos);
                    }
                }
                proof {
                    assert forall|v: int|
                        0 <= v < self.num_vars() && #[trigger] frontier@[v] implies self.asg()[v] is Some
                        && (self.level_of(v) == self.depth() ==> in_span(
                        self.trail(),
                        self.base(),
                        base + pos,
                        v,
                    )) by {
                        assert(before[v]);
                        if self.level_of(v) == d {
                            assert(in_span(trail, base, base + pos + 1, v));
                            let p = choose|p: int|
                                base <= p < base + pos + 1 && 0 <= p < trail.len() && (
                                #[trigger] trail[p]).index() == v;
                            assert(p != base + pos);
                        }
                    }
                    assert(self.lower_listed(frontier@, result_body@)) by {
                        assert forall|v: int|
                            0 <= v < self.num_vars() && #[trigger] frontier@[v] && 1
                                <= self.level_of(v) < self.depth() implies exists|i: int|
                            0 <= i < result_body@.len() && (#[trigger] result_body@[i]).index()
                                == v by {
                            assert(before[v]);
                        }
                    }
                    assert(self.level_of(id as int) == d) by {
                        let l = self.level_of(id as int);
                        if l < d {
                            assert(self.assignment_stack.marks()[l] <= self.assignment_stack.marks()[d
                                - 1]);
                        }
                    }
                    assert(self.marked_body(frontier@, result_body@)) by {
                        assert forall|i: int| 0 <= i < result_body@.len() implies frontier@[(
                        #[trigger] result_body@[i]).index()] by {
                            assert(lit_false(result_body@[i], self.asg()));
                            assert(before[result_body@[i].index()]);
                        }
                    }
                    assert forall|m: Seq<bool>|
                        #[trigger] self.respects(m) && refuted_from(cut0, 0, m) implies clause_holds(
                        result_body@,
                        m,
                    ) || self.marked_miss(frontier@, base + pos, m) || (pivot is Some && !holds(
                        pivot->0,
                        m,
                    )) by {
                        if !clause_holds(result_body@, m) {
                            assert(self.marked_miss(before, base + pos + 1, m));
                            let p = choose|p: int|
                                self.base() <= p < base + pos + 1 && 0 <= p < self.trail().len()
                                    && before[(#[trigger] self.trail()[p]).index()] && !holds(
                                    self.trail()[p],
                                    m,
                                );
                            if p != base + pos {
                                assert(self.entry_ok(p));
                                assert(trail[p].index() != trail[base + pos].index());
                                assert(frontier@[trail[p].index()]);
                            }
                        }
                    }
                }
            }
            let next_frontier = pivot.unwrap();
            proof {
                assert(self.entry_ok(base + pos));
                lemma_marked_bounds(trail, frontier@, base, base + pos);
            }
            if cur_level_size == 0 {
                let ghost lower = result_body@;
                result_body.push(next_frontier.negated());
                proof {
                    let body = result_body@;
                    assert(body.drop_last() =~= lower);
                    assert(body.last() == next_frontier.complement());
                    assert forall|i: int| 0 <= i < body.len() implies lit_false(
                        #[trigger] body[i],
                        self.asg(),
                    ) by {
                        if i < lower.len() {
                            assert(body[i] == lower[i]);
                        }
                    }
                    assert(self.level_of(next_frontier.index()) == d) by {
                        let l = self.level_of(next_frontier.index());
                        if l < d {
                            assert(self.assignment_stack.marks()[l] <= self.assignment_stack.marks()[d
                                - 1]);
                        }
                    }
                    assert forall|i: int, j: int| 0 <= i < j < body.len() implies (
                    #[trigger] body[i]).index() != (#[trigger] body[j]).index() by {
                        assert(body[i] == lower[i]);
                        if j < lower.len() {
                            assert(body[j] == lower[j]);
                            assert(lower[i].index() != lower[j].index());
                        }
                    }
                    assert forall|m: Seq<bool>|
                        #[trigger] self.respects(m) && refuted_from(inputs@, 0, m) implies clause_holds(
                        body,
                        m,
                    ) by {
                        if clause_holds(lower, m) {
                            let i = choose|i: int|
                                0 <= i < lower.len() && holds(#[trigger] lower[i], m);
                            assert(holds(body[i], m));
                        } else if self.marked_miss(frontier@, base + pos, m) {
                            let p = choose|p: int|
                                self.base() <= p < base + pos && 0 <= p < self.trail().len()
                                    && frontier@[(#[trigger] self.trail()[p]).index()] && !holds(
                                    self.trail()[p],
                                    m,
                                );
                            lemma_marked_positive(trail, frontier@, base, base + pos, p);
                        } else {
                            assert(holds(body[body.len() - 1], m));
                        }
                    }
                }
                return (Clause::new(result_body), reset_level);
            }
            match &self.derivation_graph[next_frontier.get_var().id] {
                Some(DerivationGraphNode::Derivation { inputs, .. }) => {
                    proof {
                        assert(pos >= 1);
                        assert(self.justified(base + pos));
                        assert forall|t: int| 0 <= t < inputs@.len() implies lit_true(
                            #[trigger] inputs@[t],
                            self.asg(),
                        ) by {
                            assert(self.placed_before(inputs@[t], base + pos));
                            let q = choose|q: int|
                                0 <= q < base + pos && q < trail.len() && #[trigger] trail[q]
                                    == inputs@[t];
                            assert(self.entry_ok(q));
                        }
                        assert forall|m: Seq<bool>|
                            #[trigger] self.respects(m) && refuted_from(cut0, 0, m) implies self.slack(
                            result_body@,
                            frontier@,
                            base + pos,
                            inputs@,
                            0,
                            m,
                        ) by {
                            assert(self.step_valid(base + pos, m));
                        }
                    }
                    next_conflict = inputs.as_slice();
                },
                _ => {
                    proof {
                        assert(pos >= 1);
                        assert(self.justified(base + pos));
                        assert(self.level_of(next_frontier.index()) == d) by {
                            let l = self.level_of(next_frontier.index());
                            if l < d {
                                assert(self.assignment_stack.marks()[l]
                                    <= self.assignment_stack.marks()[d - 1]);
                            }
                        }
                        assert(false);
                    }
                    return (Clause::new(result_body), reset_level);
                },
            }
        }
    }
}

} // verus!
