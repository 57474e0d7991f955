use crate::clauses::{lit_false, reasons_of, Clause};
use crate::state::{DerivationGraphNode, State};
use crate::variables::Atom;
use vstd::prelude::*;

verus! {

/// The literal is true under the total assignment `m`.
pub open spec fn holds(a: Atom, m: Seq<bool>) -> bool {
    0 <= a.index() < m.len() && m[a.index()] == a.polarity
}

/// Some literal of the body is true under `m`.
pub open spec fn clause_holds(body: Seq<Atom>, m: Seq<bool>) -> bool {
    exists|i: int| 0 <= i < body.len() && holds(#[trigger] body[i], m)
}

/// Every clause has a literal that is true under `m`.
pub open spec fn models(m: Seq<bool>, clauses: Seq<Clause>) -> bool {
    forall|c: int| 0 <= c < clauses.len() ==> clause_holds((#[trigger] clauses[c]).body@, m)
}

/// Some total assignment of `n` variables satisfies every clause.
pub open spec fn satisfiable(clauses: Seq<Clause>, n: int) -> bool {
    exists|m: Seq<bool>| m.len() == n && #[trigger] models(m, clauses)
}

/// Every literal of the list is true under `m`.
pub open spec fn all_hold(lits: Seq<Atom>, m: Seq<bool>) -> bool {
    forall|k: int| 0 <= k < lits.len() ==> holds(#[trigger] lits[k], m)
}

/// Some literal of the list, from position `from` on, is not true under `m`.
pub open spec fn refuted_from(lits: Seq<Atom>, from: int, m: Seq<bool>) -> bool {
    exists|k: int| from <= k < lits.len() && 0 <= k && !holds(#[trigger] lits[k], m)
}

impl State {
    /// If the literal at trail position `p` is a derivation, then under `m`
    /// its inputs imply it.
    pub open spec fn step_valid(&self, p: int, m: Seq<bool>) -> bool {
        self.node(self.trail()[p].index()) matches DerivationGraphNode::Derivation {
            inputs,
            ..
        } ==> (all_hold(inputs@, m) ==> holds(self.trail()[p], m))
    }

    /// `m` gives every variable a value and validates every derivation on
    /// the trail.
    pub open spec fn respects(&self, m: Seq<bool>) -> bool {
        &&& m.len() == self.num_vars()
        &&& forall|p: int| 0 <= p < self.trail().len() ==> #[trigger] self.step_valid(p, m)
    }

    /// Every assignment that validates the derivations of `pre` validates
    /// those of `self`.
    pub open spec fn keeps_valid(&self, pre: State) -> bool {
        forall|m: Seq<bool>| #[trigger] pre.respects(m) ==> self.respects(m)
    }
}

/// The complement of a false literal of the body is among its reasons.
pub proof fn lemma_reasons_cover(body: Seq<Atom>, asg: Seq<Option<bool>>, i: int)
    requires
        0 <= i < body.len(),
        lit_false(body[i], asg),
    ensures
        reasons_of(body, asg).contains(body[i].complement()),
    decreases body.len(),
{
    let rest = reasons_of(body.drop_last(), asg);
    if i == body.len() - 1 {
        assert(rest.push(body.last().complement())[rest.len() as int] == body[i].complement());
    } else {
        lemma_reasons_cover(body.drop_last(), asg, i);
        let j = choose|j: int| 0 <= j < rest.len() && rest[j] == body[i].complement();
        if lit_false(body.last(), asg) {
            assert(rest.push(body.last().complement())[j] == body[i].complement());
        }
    }
}

/// A literal assigned at level zero is true under every assignment that
/// validates the derivations.
pub proof fn lemma_root_holds(s: State, m: Seq<bool>, p: int)
    requires
        s.wf(),
        s.respects(m),
        0 <= p < s.trail().len(),
        s.level_of(s.trail()[p].index()) == 0,
    ensures
        holds(s.trail()[p], m),
    decreases p,
{
    assert(s.entry_ok(p));
    assert(s.justified(p));
    assert(s.step_valid(p, m));
    match s.node(s.trail()[p].index()) {
        DerivationGraphNode::Guess { level } => {},
        DerivationGraphNode::Derivation { level, inputs } => {
            assert forall|k: int| 0 <= k < inputs@.len() implies holds(#[trigger] inputs@[k], m) by {
                assert(s.placed_before(inputs@[k], p));
                let q = choose|q: int|
                    0 <= q < p && q < s.trail().len() && #[trigger] s.trail()[q] == inputs@[k];
                assert(s.entry_ok(q));
                let l = s.level_of(s.trail()[q].index());
                if l >= 1 {
                    assert(s.assignment_stack.marks()[0] <= s.assignment_stack.marks()[l - 1]);
                }
                lemma_root_holds(s, m, q);
            }
        },
    }
}

} // verus!
