use crate::clauses::{
    complements, falsified, in_range, lit_true, lit_unset, quiet, reasons_of, unit_at,
    SingleUnitPropResult,
};
use crate::models::{all_hold, clause_holds, holds, lemma_reasons_cover, models};
use crate::state::{lemma_trail_bounded, DerivationGraphNode, FullUnitPropResult, State};
use crate::variables::Atom;
use vstd::prelude::*;

verus! {

/// The assignment that a trail describes: each literal of the trail makes
/// its variable's value its polarity; every other variable is unset.
pub open spec fn asg_of(trail: Seq<Atom>, n: int) -> Seq<Option<bool>>
    decreases trail.len(),
{
    if trail.len() == 0 {
        Seq::new(n as nat, |v: int| None::<bool>)
    } else {
        asg_of(trail.drop_last(), n).update(
            trail.last().index(),
            Some(trail.last().polarity),
        )
    }
}

/// The clause is unit under the assignment and its unset literal is `a`.
pub open spec fn forces(body: Seq<Atom>, asg: Seq<Option<bool>>, a: Atom) -> bool {
    exists|k: int| unit_at(body, asg, k) && body[k] == a
}

/// What `asg_of` gives for one variable of a trail without repeated
/// variables.
pub proof fn lemma_asg_of(trail: Seq<Atom>, n: int, v: int)
    requires
        0 <= v < n,
        forall|i: int| 0 <= i < trail.len() ==> 0 <= (#[trigger] trail[i]).index() < n,
        forall|i: int, j: int|
            0 <= i < j < trail.len() ==> (#[trigger] trail[i]).index() != (
            #[trigger] trail[j]).index(),
    ensures
        asg_of(trail, n).len() == n,
        forall|q: int|
            0 <= q < trail.len() && (#[trigger] trail[q]).index() == v ==> asg_of(trail, n)[v]
                == Some(trail[q].polarity),
        (forall|q: int| 0 <= q < trail.len() ==> (#[trigger] trail[q]).index() != v) ==> asg_of(
            trail,
            n,
        )[v] is None,
    decreases trail.len(),
{
    if trail.len() > 0 {
        let rest = trail.drop_last();
        assert forall|i: int| 0 <= i < rest.len() implies 0 <= (#[trigger] rest[i]).index()
            < n by {
            assert(rest[i] == trail[i]);
        }
        assert forall|i: int, j: int| 0 <= i < j < rest.len() implies (#[trigger] rest[i]).index()
            != (#[trigger] rest[j]).index() by {
            assert(rest[i] == trail[i]);
            assert(rest[j] == trail[j]);
        }
        lemma_asg_of(rest, n, v);
        lemma_asg_of(rest, n, trail.last().index());
        assert forall|q: int|
            0 <= q < trail.len() && (#[trigger] trail[q]).index() == v implies asg_of(trail, n)[v]
            == Some(trail[q].polarity) by {
            if q < rest.len() {
                assert(rest[q] == trail[q]);
                assert(trail[q].index() != trail[trail.len() - 1].index());
            }
        }
        if forall|q: int| 0 <= q < trail.len() ==> (#[trigger] trail[q]).index() != v {
            assert(trail[trail.len() - 1].index() != v);
            assert forall|q: int| 0 <= q < rest.len() implies (#[trigger] rest[q]).index() != v by {
                assert(rest[q] == trail[q]);
            }
        }
    }
}

/// In a consistent state the assignment is the one that the trail
/// describes.
pub proof fn lemma_trail_gives_asg(s: State)
    requires
        s.wf(),
    ensures
        s.asg() == asg_of(s.trail(), s.num_vars()),
{
    let n = s.num_vars();
    let t = s.trail();
    assert forall|i: int| 0 <= i < t.len() implies 0 <= (#[trigger] t[i]).index() < n by {
        assert(s.entry_ok(i));
    }
    if n > 0 {
        lemma_asg_of(t, n, 0);
    } else {
        assert(t.len() == 0) by {
            if t.len() > 0 {
                assert(s.entry_ok(0));
            }
        }
    }
    assert forall|v: int| 0 <= v < n implies s.asg()[v] == asg_of(t, n)[v] by {
        lemma_asg_of(t, n, v);
        if s.asg()[v] is Some {
            assert(s.on_trail(v));
            let q = choose|q: int| 0 <= q < t.len() && (#[trigger] t[q]).index() == v;
            assert(s.entry_ok(q));
        } else {
            assert forall|q: int| 0 <= q < t.len() implies (#[trigger] t[q]).index() != v by {
                assert(s.entry_ok(q));
            }
        }
    }
    assert(s.asg() =~= asg_of(t, n));
}

/// Putting an unset literal on the trail, with a matching assignment and
/// graph entry, keeps the state consistent.  With `opened`, the literal is
/// a decision that opens a new level; otherwise it is a derivation at the
/// current level whose inputs are true.
pub proof fn lemma_install(
    pre: State,
    post: State,
    a: Atom,
    node: DerivationGraphNode,
    opened: bool,
)
    requires
        pre.wf(),
        0 <= a.index() < pre.num_vars(),
        lit_unset(a, pre.asg()),
        post.clauses@ == pre.clauses@,
        post.assignment_stack.wf(),
        post.trail() == pre.trail().push(a),
        post.assignments@ == pre.assignments@.update(a.index(), Some(a.polarity)),
        post.derivation_graph@ == pre.derivation_graph@.update(a.index(), Some(node)),
        opened ==> {
            &&& post.assignment_stack.marks() == pre.assignment_stack.marks().push(
                pre.trail().len() as int,
            )
            &&& node is Guess
            &&& node.depth() == pre.depth() + 1
        },
        !opened ==> {
            &&& post.assignment_stack.marks() == pre.assignment_stack.marks()
            &&& node is Derivation
            &&& node.depth() == pre.depth()
            &&& forall|k: int|
                0 <= k < node->Derivation_inputs@.len() ==> lit_true(
                    #[trigger] node->Derivation_inputs@[k],
                    pre.asg(),
                )
        },
    ensures
        post.wf(),
        post.num_vars() == pre.num_vars(),
        forall|v: int|
            0 <= v < pre.num_vars() && #[trigger] pre.asg()[v] is Some ==> post.asg()[v]
                == pre.asg()[v] && post.derivation_graph@[v] == pre.derivation_graph@[v],
        post.trail().take(pre.trail().len() as int) == pre.trail(),
        forall|m: Seq<bool>|
            #[trigger] pre.respects(m) && (node is Derivation ==> (all_hold(
                node->Derivation_inputs@,
                m,
            ) ==> holds(a, m))) ==> post.respects(m),
{
    let v = a.index();
    let n = pre.trail().len() as int;
    assert(post.trail().take(n) =~= pre.trail());
    assert forall|l: int| 0 <= l <= pre.depth() implies post.assignment_stack.lo(l)
        == pre.assignment_stack.lo(l) && post.assignment_stack.hi(l) >= pre.assignment_stack.hi(
        l,
    ) by {
        if l >= 1 {
            assert(pre.assignment_stack.marks()[l - 1] <= n);
        }
        if l < pre.depth() {
            assert(pre.assignment_stack.marks()[l] <= n);
        }
    }
    assert forall|p: int| 0 <= p < post.trail().len() implies #[trigger] post.entry_ok(p) by {
        if p < n {
            assert(pre.entry_ok(p));
            let w = pre.trail()[p].index();
            assert(post.trail()[p] == pre.trail()[p]);
            assert(w != v);
            assert(post.node(w) == pre.node(w));
            let l = pre.node(w).depth();
            assert(post.assignment_stack.lo(l) == pre.assignment_stack.lo(l));
            match pre.node(w) {
                DerivationGraphNode::Guess { level } => {},
                DerivationGraphNode::Derivation { level, inputs } => {
                    assert forall|k: int| 0 <= k < inputs@.len() implies post.placed_before(
                        #[trigger] inputs@[k],
                        p,
                    ) by {
                        assert(pre.placed_before(inputs@[k], p));
                        let q = choose|q: int|
                            0 <= q < p && q < pre.trail().len() && #[trigger] pre.trail()[q]
                                == inputs@[k];
                        assert(post.trail()[q] == inputs@[k]);
                    }
                }}
            assert(post.justified(p));
        } else {
            assert(post.trail()[p] == a);
            assert(post.node(v) == node);
            if pre.depth() >= 1 {
                assert(pre.assignment_stack.marks()[pre.depth() - 1] <= n);
            }
            if opened {
                assert(post.assignment_stack.lo(pre.depth() + 1) == n);
            } else {
                let inputs = node->Derivation_inputs;
                assert forall|k: int| 0 <= k < inputs@.len() implies post.placed_before(
                    #[trigger] inputs@[k],
                    p,
                ) by {
                    let b = inputs@[k];
                    assert(lit_true(b, pre.asg()));
                    assert(pre.asg()[b.index()] is Some);
                    assert(pre.on_trail(b.index()));
                    let q = choose|q: int|
                        0 <= q < pre.trail().len() && (#[trigger] pre.trail()[q]).index()
                            == b.index();
                    assert(pre.entry_ok(q));
                    assert(pre.trail()[q].var.id == b.var.id);
                    assert(pre.trail()[q] == b);
                    assert(post.trail()[q] == b);
                }
            }
            assert(post.justified(p));
        }
    }
    assert forall|l: int| 1 <= l <= post.depth() implies #[trigger] post.assignment_stack.lo(l)
        < post.assignment_stack.hi(l) by {
        if l <= pre.depth() {
            assert(pre.assignment_stack.lo(l) < pre.assignment_stack.hi(l));
        }
    }
    assert forall|w: int| 0 <= w < post.num_vars() && #[trigger] post.asg()[w] is Some implies post.on_trail(
        w,
    ) by {
        if w == v {
            assert(post.trail()[n].index() == w);
        } else {
            assert(pre.asg()[w] is Some);
            assert(pre.on_trail(w));
            let q = choose|q: int|
                0 <= q < pre.trail().len() && (#[trigger] pre.trail()[q]).index() == w;
            assert(post.trail()[q].index() == w);
        }
    }
    assert forall|p: int, q: int| 0 <= p < q < post.trail().len() implies (
    #[trigger] post.trail()[p]).index() != (#[trigger] post.trail()[q]).index() by {
        assert(pre.entry_ok(p));
        if q < n {
            assert(pre.trail()[p].index() != pre.trail()[q].index());
        }
    }
    assert forall|c: int| 0 <= c < post.clauses@.len() implies in_range(
        (#[trigger] post.clauses@[c]).body@,
        post.num_vars(),
    ) by {
        assert(in_range(pre.clauses@[c].body@, pre.num_vars()));
    }
    assert forall|m: Seq<bool>|
        #[trigger] pre.respects(m) && (node is Derivation ==> (all_hold(
            node->Derivation_inputs@,
            m,
        ) ==> holds(a, m))) implies post.respects(m) by {
        assert forall|p: int| 0 <= p < post.trail().len() implies #[trigger] post.step_valid(
            p,
            m,
        ) by {
            if p < n {
                assert(pre.entry_ok(p));
                assert(pre.step_valid(p, m));
                assert(post.trail()[p] == pre.trail()[p]);
                assert(post.node(pre.trail()[p].index()) == pre.node(pre.trail()[p].index()));
            } else {
                assert(post.trail()[p] == a);
                assert(post.node(v) == node);
            }
        }
    }
}

/// A state that differs only in its clause list, whose literals all name
/// known variables, is as consistent as before and validates the same
/// derivations.
pub proof fn lemma_other_clauses(pre: State, post: State)
    requires
        pre.wf(),
        post.assignment_stack == pre.assignment_stack,
        post.assignments == pre.assignments,
        post.derivation_graph == pre.derivation_graph,
        forall|c: int|
            0 <= c < post.clauses@.len() ==> in_range(
                (#[trigger] post.clauses@[c]).body@,
                post.num_vars(),
            ),
    ensures
        post.wf(),
        post.keeps_valid(pre),
{
    assert forall|p: int| 0 <= p < post.trail().len() implies #[trigger] post.entry_ok(p) by {
        assert(pre.entry_ok(p));
        assert(pre.justified(p));
    }
    assert forall|v: int|
        0 <= v < post.num_vars() && #[trigger] post.asg()[v] is Some implies post.on_trail(v) by {
        assert(pre.on_trail(v));
    }
    assert forall|m: Seq<bool>| #[trigger] pre.respects(m) implies post.respects(m) by {
        assert forall|p: int| 0 <= p < post.trail().len() implies #[trigger] post.step_valid(
            p,
            m,
        ) by {
            assert(pre.step_valid(p, m));
        }
    }
}

/// The complement of every literal, in order.
pub fn negate_all(body: &Vec<Atom>) -> (out: Vec<Atom>)
    ensures
        out@ == complements(body@),
{
    let mut out: Vec<Atom> = Vec::new();
    let mut i: usize = 0;
    while i < body.len()
        invariant
            0 <= i <= body@.len(),
            out@.len() == i,
            forall|j: int| 0 <= j < i ==> out@[j] == body@[j].complement(),
        decreases body@.len() - i,
    {
        out.push(body[i].negated());
        i += 1;
    }
    assert(out@ =~= complements(body@));
    out
}

impl State {
    /// The literal at trail position `p` was forced by a clause: under the
    /// assignment that the trail below `p` describes, some clause is unit
    /// with that literal unset, and the literal's graph entry is a
    /// derivation at the current level from the reasons of that clause.
    pub open spec fn forced_at(&self, p: int) -> bool {
        let before = asg_of(self.trail().take(p), self.num_vars());
        let a = self.trail()[p];
        exists|c: int|
            {
                &&& 0 <= c < self.clauses@.len()
                &&& forces((#[trigger] self.clauses@[c]).body@, before, a)
                &&& self.node(a.index()) matches DerivationGraphNode::Derivation {
                    level,
                    inputs,
                } && level == self.depth() && inputs@ == reasons_of(
                    self.clauses@[c].body@,
                    before,
                )
            }
    }

    /// Every literal from trail position `from` on was forced by a clause.
    pub open spec fn forced_from(&self, from: int) -> bool {
        forall|p: int| from <= p < self.trail().len() ==> #[trigger] self.forced_at(p)
    }

    /// Every clause is quiet: none is falsified and none is unit.
    pub open spec fn at_fixpoint(&self) -> bool {
        forall|c: int|
            0 <= c < self.clauses@.len() ==> quiet(
                (#[trigger] self.clauses@[c]).body@,
                self.asg(),
            )
    }

    /// Record `output` as forced at the current level by `inputs`.
    pub fn install(&mut self, inputs: Vec<Atom>, output: Atom)
        requires
            old(self).wf(),
            0 <= output.index() < old(self).num_vars(),
            lit_unset(output, old(self).asg()),
            forall|k: int|
                0 <= k < inputs@.len() ==> lit_true(#[trigger] inputs@[k], old(self).asg()),
        ensures
            final(self).wf(),
            final(self).clauses@ == old(self).clauses@,
            final(self).extends(*old(self)),
            final(self).trail() == old(self).trail().push(output),
            final(self).asg() == old(self).asg().update(output.index(), Some(output.polarity)),
            final(self).derivation_graph@.len() == old(self).derivation_graph@.len(),
            forall|v: int|
                0 <= v < old(self).num_vars() && v != output.index() ==> final(self).derivation_graph@[v]
                    == old(self).derivation_graph@[v],
            final(self).node(output.index()) matches DerivationGraphNode::Derivation {
                level,
                inputs: reasons} && level == old(self).depth() && reasons == inputs,
            forall|m: Seq<bool>|
                #[trigger] old(self).respects(m) && (all_hold(inputs@, m) ==> holds(output, m))
                    ==> final(self).respects(m),
    {
        let node = DerivationGraphNode::Derivation { level: self.assignment_stack.len(), inputs };
        let ghost gnode = node;
        self.derivation_graph.set(output.get_var().id, Some(node));
        self.assignments.set(output.get_var().id, Some(output.polarity()));
        self.assignment_stack.push_value(output);
        proof {
            lemma_install(*old(self), *self, output, gnode, false);
            assert forall|m: Seq<bool>|
                #[trigger] old(self).respects(m) && (all_hold(inputs@, m) ==> holds(
                    output,
                    m,
                )) implies self.respects(m) by {}
        }
    }

    /// Propagate unit clauses until a clause is falsified or nothing is
    /// forced any more.
    pub fn unit_prop_scan(&mut self) -> (r: FullUnitPropResult)
        requires
            old(self).wf(),
        ensures
            final(self).wf(),
            final(self).clauses@ == old(self).clauses@,
            final(self).extends(*old(self)),
            final(self).forced_from(old(self).trail().len() as int),
            forall|m: Seq<bool>|
                #[trigger] old(self).respects(m) && models(m, old(self).clauses@) ==> final(self).respects(m),
            r is Done ==> final(self).at_fixpoint(),
            r matches FullUnitPropResult::Conflict { inputs } ==> exists|c: int|
                0 <= c < final(self).clauses@.len() && falsified(
                    (#[trigger] final(self).clauses@[c]).body@,
                    final(self).asg(),
                ) && inputs@ == complements(final(self).clauses@[c].body@),
    {
        let mut done_something = true;
        let n = self.clauses.len();
        proof {
            lemma_trail_bounded(self);
            assert(self.trail().take(self.trail().len() as int) =~= self.trail());
        }
        while done_something
            invariant
                self.wf(),
                self.clauses@ == old(self).clauses@,
                n == self.clauses@.len(),
                self.extends(*old(self)),
                self.forced_from(old(self).trail().len() as int),
                forall|m: Seq<bool>|
                    #[trigger] old(self).respects(m) && models(m, old(self).clauses@)
                        ==> self.respects(m),
                self.trail().len() <= self.num_vars(),
                !done_something ==> self.at_fixpoint(),
            decreases self.num_vars() - self.trail().len(), if done_something { 1int } else { 0int },
        {
            done_something = false;
            let ghost start_len = self.trail().len();
            let mut c: usize = 0;
            while c < n
                invariant
                    self.wf(),
                    self.clauses@ == old(self).clauses@,
                    n == self.clauses@.len(),
                    self.extends(*old(self)),
                    self.forced_from(old(self).trail().len() as int),
                    forall|m: Seq<bool>|
                        #[trigger] old(self).respects(m) && models(m, old(self).clauses@)
                            ==> self.respects(m),
                    0 <= c <= n,
                    self.trail().len() <= self.num_vars(),
                    !done_something ==> self.trail().len() == start_len && forall|d: int|
                        0 <= d < c ==> quiet((#[trigger] self.clauses@[d]).body@, self.asg()),
                    done_something ==> self.trail().len() > start_len,
                decreases n - c,
            {
                assert(in_range(self.clauses@[c as int].body@, self.num_vars()));
                let ghost at_clause = *self;
                let found = self.clauses[c].unit_prop_clause(self.assignments.as_slice());
                proof {
                    assert(self.clauses@ =~= at_clause.clauses@);
                    lemma_other_clauses(at_clause, *self);
                    assert forall|p: int|
                        old(self).trail().len() <= p < self.trail().len() implies #[trigger] self.forced_at(
                        p,
                    ) by {
                        assert(at_clause.forced_at(p));
                    }
                }
                match found {
                    SingleUnitPropResult::Conflict => {
                        let inputs = negate_all(&self.clauses[c].body);
                        return FullUnitPropResult::Conflict { inputs };
                    },
                    SingleUnitPropResult::NoProp => {},
                    SingleUnitPropResult::UnitProp { inputs, output } => {
                        let ghost mid = *self;
                        proof {
                            let body = self.clauses@[c as int].body@;
                            let k = choose|k: int|
                                unit_at(body, self.asg(), k) && output == body[k];
                            assert(0 <= body[k].index() < self.num_vars());
                        }
                        let ghost reasons = inputs@;
                        self.install(inputs, output);
                        proof {
                            assert forall|m: Seq<bool>|
                                #[trigger] old(self).respects(m) && models(
                                    m,
                                    old(self).clauses@,
                                ) implies self.respects(m) by {
                                assert(mid.respects(m));
                                let body = mid.clauses@[c as int].body@;
                                let k = choose|k: int|
                                    unit_at(body, mid.asg(), k) && output == body[k];
                                assert(clause_holds(body, m));
                                let i = choose|i: int|
                                    0 <= i < body.len() && holds(#[trigger] body[i], m);
                                if i != k {
                                    lemma_reasons_cover(body, mid.asg(), i);
                                    let j = choose|j: int|
                                        0 <= j < reasons.len() && reasons[j]
                                            == body[i].complement();
                                    assert(!holds(reasons[j], m));
                                }
                            }
                            assert forall|p: int|
                                old(self).trail().len() <= p < self.trail().len() implies #[trigger] self.forced_at(
                                p,
                            ) by {
                                let body = mid.clauses@[c as int].body@;
                                if p < mid.trail().len() {
                                    assert(mid.forced_at(p));
                                    assert(mid.entry_ok(p));
                                    assert(self.trail().take(p) =~= mid.trail().take(p));
                                    assert(self.trail()[p] == mid.trail()[p]);
                                } else {
                                    lemma_trail_gives_asg(mid);
                                    assert(self.trail().take(p) =~= mid.trail());
                                    assert(self.trail()[p] == output);
                                    assert(forces(self.clauses@[c as int].body@, mid.asg(), output));
                                }
                            }
                            lemma_trail_bounded(self);
                            assert(self.trail().take(old(self).trail().len() as int)
                                =~= mid.trail().take(old(self).trail().len() as int));
                        }
                        done_something = true;
                    }}
                c += 1;
            }
        }
        FullUnitPropResult::Done
    }
}

} // verus!
