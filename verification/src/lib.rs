pub mod analysis;
pub mod clauses;
pub mod cnf;
pub mod decision;
pub mod measure;
pub mod models;
pub mod printing;
pub mod propagation;
pub mod search;
pub mod stack_stack;
pub mod state;
pub mod variables;
pub mod words;

use crate::clauses::{satisfied, Clause};
use crate::cnf::{parse, render_sat, render_unsat, sat_text, unsat_text, Formula};
use crate::models::satisfiable;
use crate::state::State;
use crate::words::lines_from;
use vstd::prelude::*;

verus! {

/// The partial assignment gives every variable a value and every clause a
/// true literal.
pub open spec fn satisfying(clauses: Seq<Clause>, asg: Seq<Option<bool>>) -> bool {
    &&& forall|v: int| 0 <= v < asg.len() ==> #[trigger] asg[v] is Some
    &&& forall|c: int| 0 <= c < clauses.len() ==> satisfied((#[trigger] clauses[c]).body@, asg)
}

/// `out` is a correct report on the formula: `UNSAT` exactly if no
/// assignment satisfies it; otherwise `SAT` with the values of a satisfying
/// assignment, one line per variable in index order.
pub open spec fn reports(f: Formula, out: Seq<u8>) -> bool {
    if satisfiable(f.clauses@, f.names@.len() as int) {
        exists|asg: Seq<Option<bool>>|
            #[trigger] satisfying(f.clauses@, asg) && asg.len() == f.names@.len() && out
                == sat_text(f.names@, asg)
    } else {
        out == unsat_text()
    }
}

/// Decide the clauses written in the text and report the outcome.
pub fn run_cnf(input: &[u8]) -> (out: Vec<u8>)
    ensures
        exists|f: Formula| #[trigger] f.reads(lines_from(input@, 0)) && reports(f, out@),
{
    let f = parse(input);
    let ghost read = f;
    let Formula { clauses, names } = f;
    let mut state = State::new(clauses, names.len());
    let sat = state.sat();
    if sat {
        let out = render_sat(&names, &state.assignments);
        proof {
            let asg = state.assignments@;
            assert forall|c: int| 0 <= c < read.clauses@.len() implies satisfied(
                (#[trigger] read.clauses@[c]).body@,
                asg,
            ) by {
                assert(read.clauses@[c] == state.clauses@.take(read.clauses@.len() as int)[c]);
                assert(satisfied(state.clauses@[c].body@, asg));
            }
            assert(satisfying(read.clauses@, asg));
            assert(reports(read, out@));
        }
        out
    } else {
        let out = render_unsat();
        proof {
            assert(reports(read, out@));
        }
        out
    }
}

} // verus!
