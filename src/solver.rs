//! The solver: simplification, random completion of the forced assignment, local search.
use vstd::prelude::*;
use rand::rngs::StdRng;
use crate::model::{all_hold, clause_seqs, clauses_ok, lit_var};
use crate::random::{chance, seeded};
use crate::search::{budget, runs, Policy, Search};
use crate::simplify::{consistent, disjoint, lit_free, simplified, simplify, Simplified};

verus! {

/// An instance: `num_variables` variables, clauses of signed literals, and a seed whose
/// first eight bytes, read little-endian, seed the random generator.
pub struct Challenge {
    pub seed: [u8; 32],
    pub num_variables: usize,
    pub clauses: Vec<Vec<i32>>,
}

/// A satisfying assignment, one value per variable.
pub struct Solution {
    pub variables: Vec<bool>,
}

/// The first eight bytes of `b` as a little-endian unsigned integer.
pub open spec fn le_u64(b: Seq<u8>) -> int {
    b[0] + 256 * (b[1] + 256 * (b[2] + 256 * (b[3] + 256 * (b[4] + 256 * (b[5] + 256 * (b[6]
        + 256 * b[7]))))))
}

/// Propagation alone settles the instance: it empties no clause and leaves none.
pub open spec fn settled_by_propagation(cs: Seq<Seq<i32>>, n: nat) -> bool {
    !simplified(cs, n).0 && simplified(cs, n).1.len() == 0
}

/// `r` is a solution that agrees with the values propagation forced.
pub open spec fn forced_solution(cs: Seq<Seq<i32>>, n: nat, r: Option<Seq<bool>>) -> bool {
    match r {
        Some(a) => consistent(simplified(cs, n).2, simplified(cs, n).3, a),
        None => false,
    }
}

/// Some search over the reduced clauses, started from an assignment that agrees with
/// the forced values, ran its whole flip budget under `policy` and still has a violated
/// clause.
pub open spec fn search_exhausted(cs: Seq<Seq<i32>>, n: nat, policy: Policy) -> bool {
    exists|first: Search, last: Search|
        first.wf() && first.clause_set() == simplified(cs, n).1 && first.values().len() == n
            && consistent(simplified(cs, n).2, simplified(cs, n).3, first.values()) && #[trigger] runs(
            policy,
            first,
            last,
            budget(n, policy.multiplier as nat),
        ) && !(last.violated() =~= Set::empty())
}

/// Reads the generator seed from the first eight bytes, little-endian.
pub fn seed_value(seed: &[u8; 32]) -> (r: u64)
    ensures
        r as int == le_u64(seed@),
{
    let r7: u64 = seed[7] as u64;
    let r6: u64 = r7 * 256 + seed[6] as u64;
    let r5: u64 = r6 * 256 + seed[5] as u64;
    let r4: u64 = r5 * 256 + seed[4] as u64;
    let r3: u64 = r4 * 256 + seed[3] as u64;
    let r2: u64 = r3 * 256 + seed[2] as u64;
    let r1: u64 = r2 * 256 + seed[1] as u64;
    r1 * 256 + seed[0] as u64
}

/// Completes the forced partial assignment: forced variables take their forced value,
/// each other variable, in index order, a fair coin.
pub fn initial_assignment(ft: &Vec<bool>, ff: &Vec<bool>, rng: &mut StdRng) -> (r: Vec<bool>)
    requires
        ft@.len() == ff@.len(),
        disjoint(ft@, ff@),
    ensures
        r@.len() == ft@.len(),
        consistent(ft@, ff@, r@),
{
    let mut r: Vec<bool> = Vec::new();
    let mut v: usize = 0;
    while v < ft.len()
        invariant
            v <= ft@.len(),
            ft@.len() == ff@.len(),
            disjoint(ft@, ff@),
            r@.len() == v,
            forall|w: int| 0 <= w < v ==> (ft@[w] ==> #[trigger] r@[w]) && (ff@[w] ==> !r@[w]),
        decreases ft.len() - v,
    {
        let value = if ft[v] {
            true
        } else if ff[v] {
            false
        } else {
            chance(rng, 1, 2)
        };
        r.push(value);
        v += 1;
    }
    r
}

/// Solves an instance: simplifies it, completes the forced values at random, and runs
/// the local search under `policy`. An assignment is returned only if it satisfies every
/// input clause; an unsatisfiable instance therefore always gives `None`.
pub fn solve(clauses: &Vec<Vec<i32>>, num_variables: usize, seed: u64, policy: &Policy) -> (r:
    Option<Vec<bool>>)
    requires
        clauses_ok(clause_seqs(*clauses), num_variables as nat),
    ensures
        match r {
            Some(a) => a@.len() == num_variables && all_hold(clause_seqs(*clauses), a@),
            None => true,
        },
        (forall|a: Seq<bool>| a.len() == num_variables ==> !all_hold(clause_seqs(*clauses), a))
            ==> r is None,
        settled_by_propagation(clause_seqs(*clauses), num_variables as nat) ==> forced_solution(
            clause_seqs(*clauses),
            num_variables as nat,
            match r {
                Some(a) => Some(a@),
                None => None,
            },
        ),
        r is None ==> simplified(clause_seqs(*clauses), num_variables as nat).0 || search_exhausted(
            clause_seqs(*clauses),
            num_variables as nat,
            *policy,
        ),
{
    match simplify(clauses, num_variables) {
        Simplified::Contradiction => None,
        Simplified::Reduced { clauses: reduced, forced_true, forced_false } => {
            let mut rng = seeded(seed);
            let values = initial_assignment(&forced_true, &forced_false, &mut rng);
            let ghost red = clause_seqs(reduced);
            let mut search = Search::new(reduced, values);
            proof {
                if red.len() == 0 {
                    search.lemma_counters();
                    assert(search.violated() =~= Set::empty());
                }
            }
            let ghost first = search;
            let (solved, _) = search.run(policy, &mut rng);
            proof {
                if !solved {
                    assert(first.wf() && first.clause_set() == red && first.values().len() == num_variables
                        && consistent(forced_true@, forced_false@, first.values()));
                    assert(runs(*policy, first, search, budget(num_variables as nat, policy.multiplier as nat)));
                }
            }
            if solved {
                let out = search.into_values();
                proof {
                    assert(consistent(forced_true@, forced_false@, out@)) by {
                        assert forall|w: int| 0 <= w < out@.len() implies (forced_true@[w] ==> #[trigger] out@[w]) && (forced_false@[w] ==> !out@[w]) by {
                            if out@[w] != values@[w] {
                                let (j, i) = choose|j: int, i: int| 0 <= j < red.len() && 0 <= i < red[j].len() && lit_var(#[trigger] red[j][i]) == w;
                                assert(lit_free(red[j][i], forced_true@, forced_false@));
                            }
                        }
                    }
                }
                Some(out)
            } else {
                None
            }
        },
    }
}

/// Solves a challenge under `policy`.
pub fn solve_with(challenge: &Challenge, policy: &Policy) -> (r: Option<Solution>)
    requires
        clauses_ok(clause_seqs(challenge.clauses), challenge.num_variables as nat),
    ensures
        match r {
            Some(s) => s.variables@.len() == challenge.num_variables && all_hold(
                clause_seqs(challenge.clauses),
                s.variables@,
            ),
            None => true,
        },
        (forall|a: Seq<bool>|
            a.len() == challenge.num_variables ==> !all_hold(clause_seqs(challenge.clauses), a))
            ==> r is None,
        settled_by_propagation(clause_seqs(challenge.clauses), challenge.num_variables as nat)
            ==> forced_solution(
            clause_seqs(challenge.clauses),
            challenge.num_variables as nat,
            match r {
                Some(s) => Some(s.variables@),
                None => None,
            },
        ),
        r is None ==> simplified(clause_seqs(challenge.clauses), challenge.num_variables as nat).0
            || search_exhausted(
            clause_seqs(challenge.clauses),
            challenge.num_variables as nat,
            *policy,
        ),
{
    let seed = seed_value(&challenge.seed);
    match solve(&challenge.clauses, challenge.num_variables, seed, policy) {
        Some(variables) => Some(Solution { variables }),
        None => None,
    }
}

} // verus!
