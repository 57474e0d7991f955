use crate::clauses::{in_range, lit_unset};
use crate::propagation::lemma_install;
use crate::state::{DerivationGraphNode, State};
use crate::variables::{Atom, VarRef};
use vstd::prelude::*;

verus! {

/// The variable `v` stands on the trail at a position from `lo` up to `hi`.
pub open spec fn in_span(trail: Seq<Atom>, lo: int, hi: int, v: int) -> bool {
    exists|p: int| lo <= p < hi && 0 <= p < trail.len() && (#[trigger] trail[p]).index() == v
}

/// The variables on the trail of `pre` from position `low` on are unset in
/// `cur`; `v`, if it is none of them, is as it was.
pub open spec fn span_cleared(pre: State, cur: State, low: int, v: int) -> bool {
    if in_span(pre.trail(), low, pre.trail().len() as int, v) {
        cur.asg()[v] is None && cur.derivation_graph@[v] is None
    } else {
        cur.asg()[v] == pre.asg()[v] && cur.derivation_graph@[v] == pre.derivation_graph@[v]
    }
}

/// If `v` was assigned at a level up to `target` it is as it was in `pre`;
/// otherwise it is unset in `cur`.
pub open spec fn level_kept(pre: State, cur: State, target: int, v: int) -> bool {
    if pre.asg()[v] is Some && pre.level_of(v) <= target {
        cur.asg()[v] == pre.asg()[v] && cur.derivation_graph@[v] == pre.derivation_graph@[v]
    } else {
        cur.asg()[v] is None && cur.derivation_graph@[v] is None
    }
}

/// Dropping the top layer of the trail and clearing exactly its variables
/// keeps the state consistent, and clears exactly the variables of the top
/// level.
pub proof fn lemma_pop_level(pre: State, post: State)
    requires
        pre.wf(),
        pre.depth() >= 1,
        post.clauses@ == pre.clauses@,
        post.assignment_stack.wf(),
        post.assignment_stack.marks() == pre.assignment_stack.marks().drop_last(),
        post.trail() == pre.trail().take(pre.assignment_stack.marks().last()),
        post.assignments@.len() == pre.assignments@.len(),
        post.derivation_graph@.len() == pre.derivation_graph@.len(),
        forall|v: int|
            0 <= v < pre.num_vars() ==> #[trigger] span_cleared(
                pre,
                post,
                pre.assignment_stack.marks().last(),
                v,
            ),
    ensures
        post.wf(),
        forall|v: int|
            0 <= v < pre.num_vars() ==> #[trigger] level_kept(pre, post, post.depth(), v),
        post.keeps_valid(pre),
{
    let d = pre.depth();
    let m = pre.assignment_stack.marks().last();
    let n = pre.trail().len() as int;
    assert(m == pre.assignment_stack.lo(d));
    assert(pre.assignment_stack.lo(d) < pre.assignment_stack.hi(d));
    assert(0 <= m < n) by {
        assert(pre.assignment_stack.marks()[d - 1] <= n);
        if d >= 2 {
            assert(pre.assignment_stack.lo(d - 1) < pre.assignment_stack.hi(d - 1));
        }
    }
    // A position lies at or above the mark exactly if its level is the top one.
    assert forall|p: int| 0 <= p < n implies ((p >= m) <==> pre.level_of(
        (#[trigger] pre.trail()[p]).index(),
    ) == d) by {
        assert(pre.entry_ok(p));
        let l = pre.level_of(pre.trail()[p].index());
        if l < d {
            assert(pre.assignment_stack.marks()[l] <= pre.assignment_stack.marks()[d - 1]);
        }
    }
    assert forall|v: int| 0 <= v < pre.num_vars() implies #[trigger] level_kept(
        pre,
        post,
        post.depth(),
        v,
    ) by {
        assert(span_cleared(pre, post, m, v));
        assert(pre.asg()[v] is Some <==> pre.derivation_graph@[v] is Some);
        if pre.asg()[v] is Some {
            assert(pre.on_trail(v));
            let p = choose|p: int|
                0 <= p < pre.trail().len() && (#[trigger] pre.trail()[p]).index() == v;
            assert(pre.entry_ok(p));
            if pre.level_of(v) < d {
                if in_span(pre.trail(), m, n, v) {
                    let q = choose|q: int|
                        m <= q < n && 0 <= q < pre.trail().len() && (
                        #[trigger] pre.trail()[q]).index() == v;
                    assert(pre.entry_ok(q));
                    assert(false);
                }
            } else {
                assert(p >= m);
                assert(in_span(pre.trail(), m, n, v));
            }
        } else {
            if in_span(pre.trail(), m, n, v) {
            } else {
            }
        }
    }
    assert forall|l: int| 0 <= l <= post.depth() implies post.assignment_stack.lo(l)
        == pre.assignment_stack.lo(l) && (l < post.depth() ==> post.assignment_stack.hi(l)
        == pre.assignment_stack.hi(l)) && (l == post.depth() ==> post.assignment_stack.hi(l)
        == m) by {}
    assert forall|p: int| 0 <= p < post.trail().len() implies #[trigger] post.entry_ok(p) by {
        assert(pre.entry_ok(p));
        assert(post.trail()[p] == pre.trail()[p]);
        let w = pre.trail()[p].index();
        let l = pre.level_of(w);
        assert(l < d);
        assert(pre.asg()[w] is Some);
        assert(level_kept(pre, post, post.depth(), w));
        assert(post.node(w) == pre.node(w));
        assert(post.assignment_stack.lo(l) == pre.assignment_stack.lo(l));
        match pre.node(w) {
            DerivationGraphNode::Guess { level } => {},
            DerivationGraphNode::Derivation { level, inputs } => {
                assert forall|k: int| 0 <= k < inputs@.len() implies post.placed_before(
                    #[trigger] inputs@[k],
                    p,
                ) by {
                    assert(pre.placed_before(inputs@[k], p));
                    let q = choose|q: int|
                        0 <= q < p && q < pre.trail().len() && #[trigger] pre.trail()[q]
                            == inputs@[k];
                    assert(post.trail()[q] == inputs@[k]);
                }
            },
        }
        assert(post.justified(p));
    }
    assert forall|l: int| 1 <= l <= post.depth() implies #[trigger] post.assignment_stack.lo(l)
        < post.assignment_stack.hi(l) by {
        assert(pre.assignment_stack.lo(l) < pre.assignment_stack.hi(l));
    }
    assert forall|w: int| 0 <= w < post.num_vars() && #[trigger] post.asg()[w] is Some implies post.on_trail(
        w,
    ) by {
        assert(level_kept(pre, post, post.depth(), w));
        assert(pre.asg()[w] is Some);
        assert(pre.on_trail(w));
        let q = choose|q: int|
            0 <= q < pre.trail().len() && (#[trigger] pre.trail()[q]).index() == w;
        assert(pre.entry_ok(q));
        assert(q < m);
        assert(post.trail()[q].index() == w);
    }
    assert forall|p: int, q: int| 0 <= p < q < post.trail().len() implies (
    #[trigger] post.trail()[p]).index() != (#[trigger] post.trail()[q]).index() by {
        assert(pre.trail()[p].index() != pre.trail()[q].index());
    }
    assert forall|c: int| 0 <= c < post.clauses@.len() implies in_range(
        (#[trigger] post.clauses@[c]).body@,
        post.num_vars(),
    ) by {
        assert(in_range(pre.clauses@[c].body@, pre.num_vars()));
    }
    assert forall|v: int| 0 <= v < post.num_vars() implies (#[trigger] post.asg()[v] is Some
        <==> post.derivation_graph@[v] is Some) by {
        assert(level_kept(pre, post, post.depth(), v));
        assert(pre.asg()[v] is Some <==> pre.derivation_graph@[v] is Some);
    }
    assert forall|mo: Seq<bool>| #[trigger] pre.respects(mo) implies post.respects(mo) by {
        assert forall|p: int| 0 <= p < post.trail().len() implies #[trigger] post.step_valid(
            p,
            mo,
        ) by {
            assert(pre.step_valid(p, mo));
            assert(post.entry_ok(p));
            assert(post.trail()[p] == pre.trail()[p]);
            assert(level_kept(pre, post, post.depth(), pre.trail()[p].index()));
        }
    }
}

impl State {
    /// Every variable has a value.
    pub open spec fn complete(&self) -> bool {
        forall|v: int| 0 <= v < self.num_vars() ==> #[trigger] self.asg()[v] is Some
    }

    /// `self` is `pre` cut back to its first `target` levels: the variables
    /// assigned at a level up to `target` keep value and graph entry, every
    /// other variable is unset.
    pub open spec fn cut_back_from(&self, pre: State, target: int) -> bool {
        &&& self.clauses@ == pre.clauses@
        &&& self.num_vars() == pre.num_vars()
        &&& self.depth() == target
        &&& self.assignment_stack.marks() == pre.assignment_stack.marks().take(target)
        &&& self.trail() == pre.trail().take(pre.assignment_stack.hi(target))
        &&& forall|v: int|
            0 <= v < pre.num_vars() ==> #[trigger] level_kept(pre, *self, target, v)
    }

    /// The first unset variable, as a positive literal; `None` when every
    /// variable has a value.
    pub fn guess(&self) -> (r: Option<Atom>)
        ensures
            r matches Some(a) ==> a.polarity && lit_unset(a, self.asg()) && forall|j: int|
                0 <= j < a.index() ==> #[trigger] self.asg()[j] is Some,
            r is None <==> self.complete(),
    {
        let mut i: usize = 0;
        while i < self.assignments.len()
            invariant
                0 <= i <= self.assignments@.len(),
                forall|j: int| 0 <= j < i ==> #[trigger] self.asg()[j] is Some,
            decreases self.assignments@.len() - i,
        {
            if self.assignments[i].is_none() {
                return Some(VarRef { id: i }.as_atom(true));
            }
            i += 1;
        }
        None
    }

    /// Open a new decision level with `guess` as its decision literal.
    pub fn make_guess(&mut self, guess: Atom)
        requires
            old(self).wf(),
            lit_unset(guess, old(self).asg()),
        ensures
            final(self).wf(),
            final(self).clauses@ == old(self).clauses@,
            final(self).depth() == old(self).depth() + 1,
            final(self).trail() == old(self).trail().push(guess),
            final(self).assignment_stack.marks() == old(self).assignment_stack.marks().push(
                old(self).trail().len() as int,
            ),
            final(self).asg() == old(self).asg().update(guess.index(), Some(guess.polarity)),
            final(self).derivation_graph@.len() == old(self).derivation_graph@.len(),
            forall|v: int|
                0 <= v < old(self).num_vars() && v != guess.index() ==> final(self).derivation_graph@[v]
                    == old(self).derivation_graph@[v],
            final(self).node(guess.index()) is Guess,
            final(self).level_of(guess.index()) == old(self).depth() + 1,
            final(self).keeps_valid(*old(self)),
    {
        self.assignment_stack.push_stack();
        let node = DerivationGraphNode::Guess { level: self.assignment_stack.len() };
        let ghost gnode = node;
        self.derivation_graph.set(guess.get_var().id, Some(node));
        self.assignments.set(guess.get_var().id, Some(guess.polarity()));
        self.assignment_stack.push_value(guess);
        proof {
            lemma_install(*old(self), *self, guess, gnode, true);
        }
    }

    /// Undo every decision level above `target`.
    pub fn backjump(&mut self, target: usize)
        requires
            old(self).wf(),
            target <= old(self).depth(),
        ensures
            final(self).wf(),
            final(self).cut_back_from(*old(self), target as int),
            final(self).keeps_valid(*old(self)),
    {
        proof {
            assert(self.trail().take(self.trail().len() as int) =~= self.trail());
            assert(self.assignment_stack.marks().take(self.depth()) =~= self.assignment_stack.marks());
            assert forall|v: int| 0 <= v < self.num_vars() implies #[trigger] level_kept(
                *self,
                *self,
                self.depth(),
                v,
            ) by {
                assert(self.asg()[v] is Some <==> self.derivation_graph@[v] is Some);
                if self.asg()[v] is Some {
                    assert(self.on_trail(v));
                    let p = choose|p: int|
                        0 <= p < self.trail().len() && (#[trigger] self.trail()[p]).index() == v;
                    assert(self.entry_ok(p));
                }
            }
        }
        while self.assignment_stack.len() > target
            invariant
                self.wf(),
                old(self).wf(),
                target <= self.depth() <= old(self).depth(),
                self.cut_back_from(*old(self), self.depth()),
                self.keeps_valid(*old(self)),
            decreases self.depth(),
        {
            let ghost pre = *self;
            let ghost m = pre.assignment_stack.marks().last();
            let ghost n = pre.trail().len() as int;
            let popped = self.assignment_stack.pop_stack_iter();
            proof {
                assert(pre.assignment_stack.lo(pre.depth()) < pre.assignment_stack.hi(pre.depth()));
                assert(0 <= m < n);
                assert(popped@.len() == n - m);
            }
            let mut t: usize = 0;
            let ghost mut low: int = n;
            while t < popped.len()
                invariant
                    pre.wf(),
                    pre.depth() >= 1,
                    m == pre.assignment_stack.marks().last(),
                    n == pre.trail().len(),
                    0 <= m < n,
                    0 <= t <= popped@.len(),
                    popped@.len() == n - m,
                    popped@ == pre.assignment_stack.top().reverse(),
                    self.clauses@ == pre.clauses@,
                    self.assignment_stack.wf(),
                    self.assignment_stack.marks() == pre.assignment_stack.marks().drop_last(),
                    self.trail() == pre.trail().take(m),
                    self.assignments@.len() == pre.assignments@.len(),
                    self.derivation_graph@.len() == pre.derivation_graph@.len(),
                    low == n - t,
                    forall|v: int|
                        0 <= v < pre.num_vars() ==> #[trigger] span_cleared(pre, *self, low, v),
                decreases popped@.len() - t,
            {
                let var = popped[t];
                let ghost before = *self;
                proof {
                    assert(var == pre.trail()[n - 1 - t]);
                    assert(pre.entry_ok(n - 1 - t));
                }
                self.assignments.set(var.get_var().id, None);
                self.derivation_graph.set(var.get_var().id, None);
                proof {
                    low = low - 1;
                    assert forall|v: int| 0 <= v < pre.num_vars() implies #[trigger] span_cleared(
                        pre,
                        *self,
                        low,
                        v,
                    ) by {
                        assert(span_cleared(pre, before, low + 1, v));
                        if v == var.index() {
                            assert(pre.trail()[n - 1 - t].index() == v);
                        } else if in_span(pre.trail(), low, n, v) {
                            let p = choose|p: int|
                                low <= p < n && 0 <= p < pre.trail().len() && (
                                #[trigger] pre.trail()[p]).index() == v;
                            assert(p != n - 1 - t);
                            assert(in_span(pre.trail(), low + 1, n, v));
                        } else {
                            assert(!in_span(pre.trail(), low + 1, n, v));
                        }
                    }
                }
                t += 1;
            }
            proof {
                lemma_pop_level(pre, *self);
                assert forall|mo: Seq<bool>| #[trigger] old(self).respects(mo) implies self.respects(
                    mo,
                ) by {
                    assert(pre.respects(mo));
                }
                assert forall|v: int| 0 <= v < self.num_vars() implies #[trigger] level_kept(
                    *old(self),
                    *self,
                    self.depth(),
                    v,
                ) by {
                    assert(level_kept(*old(self), pre, pre.depth(), v));
                    assert(level_kept(pre, *self, self.depth(), v));
                }
                assert(self.trail() =~= old(self).trail().take(
                    old(self).assignment_stack.hi(self.depth()),
                ));
                assert(self.assignment_stack.marks() =~= old(self).assignment_stack.marks().take(
                    self.depth(),
                ));
            }
        }
    }
}

} // verus!
