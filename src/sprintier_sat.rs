//! Entry point of one tuning of the solver.
use vstd::prelude::*;
use crate::model::{all_hold, clause_seqs, clauses_ok};
use crate::search::Policy;
use crate::simplify::simplified;
use crate::solver::{
    forced_solution, search_exhausted, settled_by_propagation, solve_with, Challenge, Solution,
};

verus! {

/// The policy of this tuning.
pub open spec fn tuning() -> Policy {
    Policy { multiplier: 25, zero_break_shortcut: false }
}

/// Solves a challenge with a budget of 25 flips per variable; every move first tosses the
/// noise coin, and a greedy move draws uniformly among the least-breaking positions.
/// A solution is returned only if it satisfies every clause, and always when propagation
/// alone settles the instance (then it agrees with the forced values).
pub fn solve_challenge(challenge: &Challenge) -> (r: Option<Solution>)
    requires
        clauses_ok(clause_seqs(challenge.clauses), challenge.num_variables as nat),
    ensures
        match r {
            Some(s) => s.variables@.len() == challenge.num_variables && all_hold(
                clause_seqs(challenge.clauses),
                s.variables@,
            ),
            None => true,
        },
        (forall|a: Seq<bool>|
            a.len() == challenge.num_variables ==> !all_hold(clause_seqs(challenge.clauses), a))
            ==> r is None,
        settled_by_propagation(clause_seqs(challenge.clauses), challenge.num_variables as nat)
            ==> forced_solution(
            clause_seqs(challenge.clauses),
            challenge.num_variables as nat,
            match r {
                Some(s) => Some(s.variables@),
                None => None,
            },
        ),
        r is None ==> simplified(clause_seqs(challenge.clauses), challenge.num_variables as nat).0
            || search_exhausted(
            clause_seqs(challenge.clauses),
            challenge.num_variables as nat,
            tuning(),
        ),
{
    let policy = Policy { multiplier: 25, zero_break_shortcut: false };
    assert(policy == tuning());
    solve_with(challenge, &policy)
}

} // verus!
