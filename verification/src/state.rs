use crate::clauses::{in_range, Clause};
use crate::stack_stack::StackStack;
use crate::variables::Atom;
use vstd::prelude::*;

verus! {

/// How the value of an assigned variable arose.
#[derive(Debug, Clone)]
pub enum DerivationGraphNode {
    /// The variable was chosen to open decision level `level`.
    Guess { level: usize },
    /// The variable was forced at `level` by a clause whose other literals
    /// are the complements of `inputs`.
    Derivation { level: usize, inputs: Vec<Atom> }}

impl DerivationGraphNode {
    /// The decision level recorded in the node, as a mathematical integer.
    pub open spec fn depth(&self) -> int {
        match self {
            DerivationGraphNode::Guess { level } => *level as int,
            DerivationGraphNode::Derivation { level, .. } => *level as int}
    }

    /// The decision level recorded in the node.
    pub fn level(&self) -> (l: usize)
        ensures
            l == self.depth(),
    {
        match self {
            DerivationGraphNode::Guess { level } => *level,
            DerivationGraphNode::Derivation { level, .. } => *level}
    }
}

/// The whole state of a search: clauses, trail, assignment and graph.
pub struct State {
    pub clauses: Vec<Clause>,
    pub assignment_stack: StackStack<Atom>,
    pub assignments: Vec<Option<bool>>,
    pub derivation_graph: Vec<Option<DerivationGraphNode>>}

/// Outcome of propagating to a fixpoint.
pub enum FullUnitPropResult {
    /// Some clause is falsified; `inputs` are the complements of its literals.
    Conflict { inputs: Vec<Atom> },
    /// No clause is falsified or unit.
    Done}

impl State {
    /// Number of variables.
    pub open spec fn num_vars(&self) -> int {
        self.assignments@.len() as int
    }

    /// All assigned literals, oldest first.
    pub open spec fn trail(&self) -> Seq<Atom> {
        self.assignment_stack.flat()
    }

    /// Number of open decision levels.
    pub open spec fn depth(&self) -> int {
        self.assignment_stack.depth() as int
    }

    /// The assignment as a sequence indexed by variable.
    pub open spec fn asg(&self) -> Seq<Option<bool>> {
        self.assignments@
    }

    /// The graph entry of an assigned variable.
    pub open spec fn node(&self, v: int) -> DerivationGraphNode {
        self.derivation_graph@[v]->0
    }

    /// The literal `a` stands on the trail below position `p`.
    pub open spec fn placed_before(&self, a: Atom, p: int) -> bool {
        exists|q: int| 0 <= q < p && q < self.trail().len() && #[trigger] self.trail()[q] == a
    }

    /// The variable `v` stands on the trail.
    pub open spec fn on_trail(&self, v: int) -> bool {
        exists|q: int| 0 <= q < self.trail().len() && (#[trigger] self.trail()[q]).index() == v
    }

    /// The graph entry of the literal at trail position `p` fits its place:
    /// a decision opens its level, a derivation rests on earlier literals.
    pub open spec fn justified(&self, p: int) -> bool {
        match self.node(self.trail()[p].index()) {
            DerivationGraphNode::Guess { level } => level >= 1 && p
                == self.assignment_stack.lo(level as int),
            DerivationGraphNode::Derivation { level, inputs } => forall|k: int|
                0 <= k < inputs@.len() ==> self.placed_before(#[trigger] inputs@[k], p)}
    }

    /// The literal at trail position `p` agrees with the assignment and
    /// with the graph, and lies in the layer of its recorded level.
    pub open spec fn entry_ok(&self, p: int) -> bool {
        let a = self.trail()[p];
        let v = a.index();
        &&& 0 <= v < self.num_vars()
        &&& self.asg()[v] == Some(a.polarity)
        &&& self.derivation_graph@[v] is Some
        &&& 0 <= self.node(v).depth() <= self.depth()
        &&& self.assignment_stack.lo(self.node(v).depth()) <= p < self.assignment_stack.hi(
            self.node(v).depth(),
        )
        &&& self.justified(p)
    }

    /// Assignment, trail and graph describe the same assigned variables.
    pub open spec fn wf(&self) -> bool {
        &&& self.assignment_stack.wf()
        &&& self.derivation_graph@.len() == self.assignments@.len()
        &&& forall|c: int|
            0 <= c < self.clauses@.len() ==> in_range(
                (#[trigger] self.clauses@[c]).body@,
                self.num_vars(),
            )
        &&& forall|l: int|
            1 <= l <= self.depth() ==> #[trigger] self.assignment_stack.lo(l)
                < self.assignment_stack.hi(l)
        &&& forall|p: int| 0 <= p < self.trail().len() ==> #[trigger] self.entry_ok(p)
        &&& forall|v: int|
            0 <= v < self.num_vars() ==> (#[trigger] self.asg()[v] is Some
                <==> self.derivation_graph@[v] is Some)
        &&& forall|v: int|
            0 <= v < self.num_vars() && #[trigger] self.asg()[v] is Some ==> self.on_trail(v)
        &&& forall|p: int, q: int|
            0 <= p < q < self.trail().len() ==> (#[trigger] self.trail()[p]).index() != (
            #[trigger] self.trail()[q]).index()
    }

    /// The level at which an assigned variable got its value.
    pub open spec fn level_of(&self, v: int) -> int {
        self.node(v).depth()
    }

    /// `self` continues `pre` at the same decision level: the trail grew at
    /// its end and nothing that was assigned changed.
    pub open spec fn extends(&self, pre: State) -> bool {
        &&& self.num_vars() == pre.num_vars()
        &&& self.assignment_stack.marks() == pre.assignment_stack.marks()
        &&& self.trail().len() >= pre.trail().len()
        &&& self.trail().take(pre.trail().len() as int) == pre.trail()
        &&& forall|v: int|
            0 <= v < pre.num_vars() && #[trigger] pre.asg()[v] is Some ==> self.asg()[v]
                == pre.asg()[v] && self.derivation_graph@[v] == pre.derivation_graph@[v]
    }

    /// A state over `num_vars` variables with nothing assigned.
    pub fn new(clauses: Vec<Clause>, num_vars: usize) -> (s: Self)
        requires
            forall|c: int|
                0 <= c < clauses@.len() ==> in_range(
                    (#[trigger] clauses@[c]).body@,
                    num_vars as int,
                ),
        ensures
            s.wf(),
            s.clauses == clauses,
            s.num_vars() == num_vars,
            s.depth() == 0,
            s.trail().len() == 0,
            forall|v: int| 0 <= v < num_vars ==> #[trigger] s.asg()[v] is None,
            forall|v: int| 0 <= v < num_vars ==> #[trigger] s.derivation_graph@[v] is None,
    {
        let mut assignments: Vec<Option<bool>> = Vec::new();
        let mut derivation_graph: Vec<Option<DerivationGraphNode>> = Vec::new();
        let mut i: usize = 0;
        while i < num_vars
            invariant
                0 <= i <= num_vars,
                assignments@.len() == i,
                derivation_graph@.len() == i,
                forall|v: int| 0 <= v < i ==> #[trigger] assignments@[v] is None,
                forall|v: int| 0 <= v < i ==> #[trigger] derivation_graph@[v] is None,
            decreases num_vars - i,
        {
            assignments.push(None);
            derivation_graph.push(None);
            i += 1;
        }
        State { clauses, assignment_stack: StackStack::new(), assignments, derivation_graph }
    }
}

/// A trail without repeated variables is no longer than the number of
/// variables.
pub proof fn lemma_trail_bounded(s: &State)
    requires
        s.wf(),
    ensures
        s.trail().len() <= s.num_vars(),
{
    let ids = Seq::new(s.trail().len(), |p: int| s.trail()[p].index());
    assert forall|p: int, q: int| 0 <= p < ids.len() && 0 <= q < ids.len() && p != q implies ids[p]
        != ids[q] by {
        if p < q {
            assert(s.trail()[p].index() != s.trail()[q].index());
        } else {
            assert(s.trail()[q].index() != s.trail()[p].index());
        }
    }
    assert(ids.no_duplicates());
    ids.unique_seq_to_set();
    let range = vstd::set_lib::set_int_range(0, s.num_vars());
    vstd::set_lib::lemma_int_range(0, s.num_vars());
    assert forall|x: int| ids.to_set().contains(x) implies range.contains(x) by {
        let p = choose|p: int| 0 <= p < ids.len() && ids[p] == x;
        assert(s.entry_ok(p));
    }
    vstd::set_lib::lemma_len_subset(ids.to_set(), range);
}

} // verus!
