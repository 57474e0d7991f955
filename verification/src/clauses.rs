use crate::variables::Atom;
use vstd::prelude::*;

verus! {

/// A disjunction of literals, kept in the order given.
#[derive(Debug, Eq, PartialEq, Hash, Clone)]
pub struct Clause {
    pub body: Vec<Atom>,
}

/// What one clause says under a partial assignment.
#[derive(Debug, PartialEq)]
pub enum SingleUnitPropResult {
    /// Every literal is false.
    Conflict,
    /// The clause is satisfied, or at least two literals are unset.
    NoProp,
    /// Exactly one literal (`output`) is unset and all others are false;
    /// `inputs` are the complements of the false literals.
    UnitProp { inputs: Vec<Atom>, output: Atom },
}

/// The literal is true under the assignment.
pub open spec fn lit_true(a: Atom, asg: Seq<Option<bool>>) -> bool {
    0 <= a.index() < asg.len() && asg[a.index()] == Some(a.polarity)
}

/// The literal is false under the assignment.
pub open spec fn lit_false(a: Atom, asg: Seq<Option<bool>>) -> bool {
    0 <= a.index() < asg.len() && asg[a.index()] == Some(!a.polarity)
}

/// The literal's variable has no value under the assignment.
pub open spec fn lit_unset(a: Atom, asg: Seq<Option<bool>>) -> bool {
    0 <= a.index() < asg.len() && asg[a.index()] is None
}

/// Every literal of the body names a variable below `n`.
pub open spec fn in_range(body: Seq<Atom>, n: int) -> bool {
    forall|i: int| 0 <= i < body.len() ==> 0 <= (#[trigger] body[i]).index() < n
}

/// Some literal of the body is true.
pub open spec fn satisfied(body: Seq<Atom>, asg: Seq<Option<bool>>) -> bool {
    exists|i: int| 0 <= i < body.len() && lit_true(#[trigger] body[i], asg)
}

/// Every literal of the body is false.
pub open spec fn falsified(body: Seq<Atom>, asg: Seq<Option<bool>>) -> bool {
    forall|i: int| 0 <= i < body.len() ==> lit_false(#[trigger] body[i], asg)
}

/// The literal at position `k` is unset and every other literal is false.
pub open spec fn unit_at(body: Seq<Atom>, asg: Seq<Option<bool>>, k: int) -> bool {
    &&& 0 <= k < body.len()
    &&& lit_unset(body[k], asg)
    &&& forall|i: int| 0 <= i < body.len() && i != k ==> lit_false(#[trigger] body[i], asg)
}

/// Exactly one position of the body is unset and the others are false.
pub open spec fn is_unit(body: Seq<Atom>, asg: Seq<Option<bool>>) -> bool {
    exists|k: int| unit_at(body, asg, k)
}

/// The clause forces nothing: it is neither falsified nor unit.
pub open spec fn quiet(body: Seq<Atom>, asg: Seq<Option<bool>>) -> bool {
    &&& !falsified(body, asg)
    &&& forall|k: int| !unit_at(body, asg, k)
}

/// The complements of the false literals of the body, in body order.
pub open spec fn reasons_of(body: Seq<Atom>, asg: Seq<Option<bool>>) -> Seq<Atom>
    decreases body.len(),
{
    if body.len() == 0 {
        Seq::empty()
    } else {
        let rest = reasons_of(body.drop_last(), asg);
        if lit_false(body.last(), asg) {
            rest.push(body.last().complement())
        } else {
            rest
        }
    }
}

/// The complement of every literal of the body, in body order.
pub open spec fn complements(body: Seq<Atom>) -> Seq<Atom> {
    Seq::new(body.len(), |i: int| body[i].complement())
}

/// The literals as text, each followed by a blank.
pub open spec fn body_text(body: Seq<Atom>) -> Seq<u8>
    decreases body.len(),
{
    if body.len() == 0 {
        Seq::empty()
    } else {
        body_text(body.drop_last()) + body.last().text() + seq![32u8]
    }
}

impl Clause {
    /// Write the clause as text: every literal followed by a blank.
    pub fn to_text(&self) -> (out: Vec<u8>)
        ensures
            out@ == body_text(self.body@),
    {
        let mut out: Vec<u8> = Vec::new();
        let mut k: usize = 0;
        proof {
            assert(self.body@.take(0) =~= Seq::<Atom>::empty());
        }
        while k < self.body.len()
            invariant
                0 <= k <= self.body@.len(),
                out@ == body_text(self.body@.take(k as int)),
            decreases self.body@.len() - k,
        {
            let ghost line_start = out@;
            let word = self.body[k].to_text();
            let mut j: usize = 0;
            while j < word.len()
                invariant
                    0 <= j <= word@.len(),
                    out@ == line_start + word@.take(j as int),
                decreases word@.len() - j,
            {
                out.push(word[j]);
                proof {
                    assert(out@ =~= line_start + word@.take(j + 1));
                }
                j += 1;
            }
            out.push(32);
            proof {
                assert(word@.take(word@.len() as int) =~= word@);
                assert(self.body@.take(k + 1).drop_last() =~= self.body@.take(k as int));
                assert(self.body@.take(k + 1).last() == self.body@[k as int]);
                assert(out@ =~= body_text(self.body@.take(k + 1)));
            }
            k += 1;
        }
        proof {
            assert(self.body@.take(self.body@.len() as int) =~= self.body@);
        }
        out
    }

    /// The clause with the given literals.
    pub fn new(body: Vec<Atom>) -> (c: Self)
        ensures
            c.body == body,
    {
        Clause { body }
    }

    /// Classify the clause under the assignment.
    pub fn unit_prop_clause(&mut self, assignments: &[Option<bool>]) -> (r: SingleUnitPropResult)
        requires
            in_range(old(self).body@, assignments@.len() as int),
        ensures
            *final(self) == *old(self),
            r is Conflict <==> falsified(old(self).body@, assignments@),
            r is UnitProp <==> exists|k: int| unit_at(old(self).body@, assignments@, k),
            r is NoProp <==> quiet(old(self).body@, assignments@),
            r matches SingleUnitPropResult::UnitProp { inputs, output } ==> {
                &&& exists|k: int|
                    unit_at(old(self).body@, assignments@, k) && output == old(self).body@[k]
                &&& inputs@ == reasons_of(old(self).body@, assignments@)
                &&& forall|j: int| 0 <= j < inputs@.len() ==> lit_true(#[trigger] inputs@[j], assignments@)
            },
    {
        let ghost body = self.body@;
        let ghost asg = assignments@;
        let mut unit_result: Option<Atom> = Option::None;
        let ghost mut k: int = -1;
        let n = self.body.len();
        let mut i: usize = 0;
        while i < n
            invariant
                n == body.len(),
                body == self.body@,
                asg == assignments@,
                in_range(body, asg.len() as int),
                0 <= i <= n,
                unit_result is None ==> forall|j: int|
                    0 <= j < i ==> lit_false(#[trigger] body[j], asg),
                unit_result is Some ==> {
                    &&& 0 <= k < i
                    &&& unit_result == Some(body[k])
                    &&& lit_unset(body[k], asg)
                    &&& forall|j: int| 0 <= j < i && j != k ==> lit_false(#[trigger] body[j], asg)
                },
            decreases n - i,
        {
            let atom = self.body[i];
            assert(atom == body[i as int]);
            match &assignments[atom.get_var().id] {
                Some(assignment) => {
                    if atom.polarity() == *assignment {
                        proof {
                            assert(lit_true(body[i as int], asg));
                            assert(!lit_false(body[i as int], asg));
                            assert(!lit_unset(body[i as int], asg));
                        }
                        return SingleUnitPropResult::NoProp;
                    }
                },
                None => {
                    if let Some(_) = unit_result {
                        proof {
                            assert(lit_unset(body[i as int], asg));
                            assert(!lit_false(body[i as int], asg));
                            assert(!lit_false(body[k], asg));
                        }
                        return SingleUnitPropResult::NoProp;
                    } else {
                        unit_result = Some(atom);
                        proof {
                            k = i as int;
                        }
                    }
                },
            }
            i += 1;
        }
        if let Some(unit) = unit_result {
            assert(unit_at(body, asg, k));
            assert(!lit_false(body[k], asg));
            let mut atom_deps: Vec<Atom> = Vec::new();
            let mut j: usize = 0;
            while j < n
                invariant
                    n == body.len(),
                    body == self.body@,
                    asg == assignments@,
                    in_range(body, asg.len() as int),
                    0 <= j <= n,
                    atom_deps@ == reasons_of(body.take(j as int), asg),
                    forall|t: int|
                        0 <= t < atom_deps@.len() ==> lit_true(#[trigger] atom_deps@[t], asg),
                decreases n - j,
            {
                let atom = self.body[j];
                assert(body.take(j + 1).drop_last() =~= body.take(j as int));
                assert(body.take(j + 1).last() == body[j as int]);
                match &assignments[atom.get_var().id] {
                    Some(assignment) => {
                        if atom.polarity() != *assignment {
                            atom_deps.push(atom.negated());
                        }
                    },
                    None => {},
                }
                j += 1;
            }
            assert(body.take(n as int) =~= body);
            SingleUnitPropResult::UnitProp { inputs: atom_deps, output: unit }
        } else {
            assert(falsified(body, asg));
            assert forall|k2: int| !unit_at(body, asg, k2) by {
                if 0 <= k2 < body.len() {
                    assert(lit_false(body[k2], asg));
                }
            }
            SingleUnitPropResult::Conflict
        }
    }
}

} // verus!
