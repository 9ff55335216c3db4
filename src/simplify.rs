//! Clause filtering against a forced partial assignment, and unit propagation to a fixpoint.
use vstd::prelude::*;
use crate::model::{
    all_hold, clause_holds, clause_ok, clause_seqs, clauses_ok, distinct_vars, lit_holds, lit_var,
    var_of,
};

verus! {

/// The assignment `a` agrees with every forced value.
pub open spec fn consistent(ft: Seq<bool>, ff: Seq<bool>, a: Seq<bool>) -> bool {
    forall|v: int| 0 <= v < a.len() ==> (ft[v] ==> #[trigger] a[v]) && (ff[v] ==> !a[v])
}

/// Neither value of the variable of `l` is forced.
pub open spec fn lit_free(l: i32, ft: Seq<bool>, ff: Seq<bool>) -> bool {
    !ft[lit_var(l)] && !ff[lit_var(l)]
}

/// The literal is made false by the forced values.
pub open spec fn lit_forced_false(l: i32, ft: Seq<bool>, ff: Seq<bool>) -> bool {
    if l > 0 {
        ff[lit_var(l)]
    } else {
        ft[lit_var(l)]
    }
}

/// What is left of a clause once the forced values are taken into account.
pub enum Filtered {
    /// The clause holds under every assignment that agrees with the forced values.
    Satisfied,
    /// The literals that still matter, each once, in their first order.
    Kept(Vec<i32>),
}

/// The literals a clause keeps once its first `i` literals are filtered against the forced
/// values, or `None` once the clause is known to hold: a literal made true, or a literal
/// whose negation was kept, makes it hold; a literal made false or already kept is dropped.
pub open spec fn filter_prefix(c: Seq<i32>, i: int, ft: Seq<bool>, ff: Seq<bool>) -> Option<Seq<i32>>
    decreases i,
{
    if i <= 0 {
        Some(Seq::empty())
    } else {
        match filter_prefix(c, i - 1, ft, ff) {
            None => None,
            Some(kept) => {
                let l = c[i - 1];
                if (l > 0 && ft[lit_var(l)]) || (l < 0 && ff[lit_var(l)]) || kept.contains(
                    (-l) as i32,
                ) {
                    None
                } else if !ft[lit_var(l)] && !ff[lit_var(l)] && !kept.contains(l) {
                    Some(kept.push(l))
                } else {
                    Some(kept)
                }
            },
        }
    }
}

/// What filtering leaves of a whole clause.
pub open spec fn filtered(c: Seq<i32>, ft: Seq<bool>, ff: Seq<bool>) -> Option<Seq<i32>> {
    filter_prefix(c, c.len() as int, ft, ff)
}

proof fn lemma_filter_none_stays(c: Seq<i32>, i: int, j: int, ft: Seq<bool>, ff: Seq<bool>)
    requires
        0 <= i <= j,
        filter_prefix(c, i, ft, ff) is None,
    ensures
        filter_prefix(c, j, ft, ff) is None,
    decreases j - i,
{
    if j > i {
        lemma_filter_none_stays(c, i, j - 1, ft, ff);
    }
}

fn has_literal(c: &Vec<i32>, l: i32) -> (r: bool)
    ensures
        r == c@.contains(l),
{
    let mut i: usize = 0;
    while i < c.len()
        invariant
            i <= c.len(),
            forall|k: int| 0 <= k < i ==> c@[k] != l,
        decreases c.len() - i,
    {
        if c[i] == l {
            return true;
        }
        i += 1;
    }
    false
}

/// Filters one clause: a literal made true by the forced values, or a literal together
/// with its negation, makes the whole clause hold; literals made false and repeated
/// literals are dropped.
pub fn filter_clause(c: &Vec<i32>, ft: &Vec<bool>, ff: &Vec<bool>) -> (r: Filtered)
    requires
        ft@.len() == ff@.len(),
        clause_ok(c@, ft@.len()),
    ensures
        match r {
            Filtered::Satisfied => forall|a: Seq<bool>|
                a.len() == ft@.len() && consistent(ft@, ff@, a) ==> clause_holds(c@, a),
            Filtered::Kept(k) => {
                &&& clause_ok(k@, ft@.len())
                &&& distinct_vars(k@)
                &&& forall|i: int| 0 <= i < k@.len() ==> lit_free(#[trigger] k@[i], ft@, ff@)
                &&& forall|a: Seq<bool>|
                    a.len() == ft@.len() && consistent(ft@, ff@, a) ==> (clause_holds(c@, a)
                        <==> clause_holds(k@, a))
            },
        },
        match r {
            Filtered::Satisfied => filtered(c@, ft@, ff@) is None,
            Filtered::Kept(k) => filtered(c@, ft@, ff@) == Some(k@),
        },
{
    let n = ft.len();
    let mut kept: Vec<i32> = Vec::new();
    let mut i: usize = 0;
    while i < c.len()
        invariant
            i <= c.len(),
            n == ft@.len(),
            ft@.len() == ff@.len(),
            clause_ok(c@, n as nat),
            clause_ok(kept@, n as nat),
            distinct_vars(kept@),
            filter_prefix(c@, i as int, ft@, ff@) == Some(kept@),
            forall|m: int| 0 <= m < kept@.len() ==> lit_free(#[trigger] kept@[m], ft@, ff@),
            forall|m: int| 0 <= m < kept@.len() ==> c@.contains(#[trigger] kept@[m]),
            forall|j: int|
                0 <= j < i ==> (lit_free(#[trigger] c@[j], ft@, ff@) && kept@.contains(c@[j]))
                    || lit_forced_false(c@[j], ft@, ff@),
        decreases c.len() - i,
    {
        let l = c[i];
        let v = var_of(l);
        if (l > 0 && ft[v]) || (l < 0 && ff[v]) {
            proof {
                assert forall|a: Seq<bool>|
                    a.len() == ft@.len() && consistent(ft@, ff@, a) implies clause_holds(
                        c@,
                        a,
                    ) by {
                    assert(lit_holds(c@[i as int], a));
                }
                lemma_filter_none_stays(c@, i + 1, c@.len() as int, ft@, ff@);
            }
            return Filtered::Satisfied;
        }
        let neg: i32 = -l;
        if has_literal(&kept, neg) {
            proof {
                assert(c@.contains(neg));
                let j = choose|j: int| 0 <= j < c@.len() && c@[j] == neg;
                assert forall|a: Seq<bool>|
                    a.len() == ft@.len() && consistent(ft@, ff@, a) implies clause_holds(
                        c@,
                        a,
                    ) by {
                    if !lit_holds(c@[i as int], a) {
                        assert(lit_holds(c@[j], a));
                    }
                }
                assert(neg == (-l) as i32);
                lemma_filter_none_stays(c@, i + 1, c@.len() as int, ft@, ff@);
            }
            return Filtered::Satisfied;
        }
        if !ft[v] && !ff[v] && !has_literal(&kept, l) {
            proof {
                assert forall|m: int| 0 <= m < kept@.len() implies lit_var(kept@[m]) != lit_var(
                    l,
                ) by {
                    assert(kept@[m] != l);
                    assert(kept@[m] != neg);
                }
            }
            let ghost prev = kept@;
            kept.push(l);
            proof {
                assert forall|m: int| 0 <= m < kept@.len() implies c@.contains(
                    #[trigger] kept@[m],
                ) by {
                    if m == kept@.len() - 1 {
                        assert(c@[i as int] == l);
                    }
                }
                assert forall|j: int|
                    0 <= j <= i implies (lit_free(#[trigger] c@[j], ft@, ff@) && kept@.contains(
                        c@[j],
                    )) || lit_forced_false(c@[j], ft@, ff@) by {
                    if j == i {
                        assert(kept@[kept@.len() - 1] == l);
                    } else if prev.contains(c@[j]) {
                        let m = choose|m: int| 0 <= m < prev.len() && prev[m] == c@[j];
                        assert(kept@[m] == c@[j]);
                    }
                }
            }
        }
        proof {
            assert(neg == (-l) as i32);
        }
        i += 1;
    }
    proof {
        assert forall|a: Seq<bool>|
            a.len() == ft@.len() && consistent(ft@, ff@, a) implies (clause_holds(c@, a)
                <==> clause_holds(kept@, a)) by {
            if clause_holds(c@, a) {
                let j = choose|j: int| 0 <= j < c@.len() && lit_holds(c@[j], a);
                assert(kept@.contains(c@[j]));
                let m = choose|m: int| 0 <= m < kept@.len() && kept@[m] == c@[j];
                assert(lit_holds(kept@[m], a));
            }
            if clause_holds(kept@, a) {
                let m = choose|m: int| 0 <= m < kept@.len() && lit_holds(kept@[m], a);
                assert(c@.contains(kept@[m]));
                let j = choose|j: int| 0 <= j < c@.len() && c@[j] == kept@[m];
                assert(lit_holds(c@[j], a));
            }
        }
    }
    Filtered::Kept(kept)
}

/// Number of variables below `k` whose value is not forced.
pub open spec fn free_count(ft: Seq<bool>, ff: Seq<bool>, k: int) -> nat
    decreases k,
{
    if k <= 0 {
        0
    } else {
        free_count(ft, ff, k - 1) + if !ft[k - 1] && !ff[k - 1] {
            1nat
        } else {
            0nat
        }
    }
}

/// No variable is forced both ways.
pub open spec fn disjoint(ft: Seq<bool>, ff: Seq<bool>) -> bool {
    forall|v: int| 0 <= v < ft.len() ==> !(#[trigger] ft[v] && ff[v])
}

/// Every clause from index `k` on holds under `a`.
pub open spec fn holds_from(cs: Seq<Seq<i32>>, k: int, a: Seq<bool>) -> bool {
    forall|j: int| k <= j < cs.len() ==> clause_holds(#[trigger] cs[j], a)
}

/// A clause set after propagation: no clause is short, repeats a variable, or mentions
/// a forced variable.
pub open spec fn settled(cs: Seq<Seq<i32>>, ft: Seq<bool>, ff: Seq<bool>) -> bool {
    forall|j: int|
        0 <= j < cs.len() ==> {
            &&& #[trigger] cs[j].len() >= 2
            &&& distinct_vars(cs[j])
            &&& forall|i: int| 0 <= i < cs[j].len() ==> lit_free(#[trigger] cs[j][i], ft, ff)
        }
}

proof fn lemma_free_count_force(ft: Seq<bool>, ff: Seq<bool>, ft2: Seq<bool>, ff2: Seq<bool>, v: int, k: int)
    requires
        0 <= v < ft.len(),
        k <= ft.len(),
        ft.len() == ff.len(),
        ft2.len() == ft.len(),
        ff2.len() == ft.len(),
        !ft[v] && !ff[v],
        ft2[v] || ff2[v],
        forall|i: int| 0 <= i < ft.len() && i != v ==> ft2[i] == ft[i] && ff2[i] == ff[i],
    ensures
        free_count(ft2, ff2, k) + (if v < k { 1int } else { 0int }) == free_count(ft, ff, k),
    decreases k,
{
    if k > 0 {
        lemma_free_count_force(ft, ff, ft2, ff2, v, k - 1);
    }
}

/// State of a pass after its first `k` clauses: whether a clause was emptied, the clauses
/// kept so far, the forced values, and whether a value was newly forced.
pub open spec fn pass_prefix(cs: Seq<Seq<i32>>, k: int, ft: Seq<bool>, ff: Seq<bool>) -> (bool, Seq<Seq<i32>>, Seq<bool>, Seq<bool>, bool)
    decreases k,
{
    if k <= 0 {
        (false, Seq::empty(), ft, ff, false)
    } else {
        let s = pass_prefix(cs, k - 1, ft, ff);
        if s.0 {
            s
        } else {
            match filtered(cs[k - 1], s.2, s.3) {
                None => s,
                Some(kept) => if kept.len() == 0 {
                    (true, s.1, s.2, s.3, s.4)
                } else if kept.len() == 1 {
                    if kept[0] > 0 {
                        (false, s.1, s.2.update(lit_var(kept[0]), true), s.3, true)
                    } else {
                        (false, s.1, s.2, s.3.update(lit_var(kept[0]), true), true)
                    }
                } else {
                    (false, s.1.push(kept), s.2, s.3, s.4)
                },
            }
        }
    }
}

/// The state after a whole pass.
pub open spec fn pass_result(cs: Seq<Seq<i32>>, ft: Seq<bool>, ff: Seq<bool>) -> (bool, Seq<Seq<i32>>, Seq<bool>, Seq<bool>, bool) {
    pass_prefix(cs, cs.len() as int, ft, ff)
}

proof fn lemma_dead_stays(cs: Seq<Seq<i32>>, i: int, j: int, ft: Seq<bool>, ff: Seq<bool>)
    requires
        0 <= i <= j,
        pass_prefix(cs, i, ft, ff).0,
    ensures
        pass_prefix(cs, j, ft, ff).0,
    decreases j - i,
{
    if j > i {
        lemma_dead_stays(cs, i, j - 1, ft, ff);
    }
}

/// Outcome of one propagation pass.
pub enum Pass {
    /// A clause lost all its literals: no assignment satisfies the instance.
    Dead,
    /// The clauses that remain, and whether a new value was forced.
    Next(Vec<Vec<i32>>, bool),
}

/// One pass of unit propagation: filters each clause against the current forced values,
/// forces the variable of each clause left with one literal, and keeps the longer ones.
pub fn propagate_pass(cur: &Vec<Vec<i32>>, ft: &mut Vec<bool>, ff: &mut Vec<bool>) -> (r: Pass)
    requires
        old(ft)@.len() == old(ff)@.len(),
        disjoint(old(ft)@, old(ff)@),
        clauses_ok(clause_seqs(*cur), old(ft)@.len()),
    ensures
        final(ft)@.len() == old(ft)@.len(),
        final(ff)@.len() == old(ft)@.len(),
        disjoint(final(ft)@, final(ff)@),
        free_count(final(ft)@, final(ff)@, old(ft)@.len() as int) <= free_count(
            old(ft)@,
            old(ff)@,
            old(ft)@.len() as int,
        ),
        match r {
            Pass::Dead => forall|a: Seq<bool>|
                a.len() == old(ft)@.len() && consistent(old(ft)@, old(ff)@, a) ==> !all_hold(
                    clause_seqs(*cur),
                    a,
                ),
            Pass::Next(nx, changed) => {
                &&& clauses_ok(clause_seqs(nx), old(ft)@.len())
                &&& changed ==> free_count(final(ft)@, final(ff)@, old(ft)@.len() as int)
                    < free_count(old(ft)@, old(ff)@, old(ft)@.len() as int)
                &&& !changed ==> final(ft)@ == old(ft)@ && final(ff)@ == old(ff)@ && settled(
                    clause_seqs(nx),
                    final(ft)@,
                    final(ff)@,
                )
                &&& forall|a: Seq<bool>|
                    a.len() == old(ft)@.len() ==> ((consistent(old(ft)@, old(ff)@, a) && all_hold(
                        clause_seqs(*cur),
                        a,
                    )) <==> (consistent(final(ft)@, final(ff)@, a) && all_hold(
                        clause_seqs(nx),
                        a,
                    )))
            },
        },
        match r {
            Pass::Dead => pass_result(clause_seqs(*cur), old(ft)@, old(ff)@).0,
            Pass::Next(nx, changed) => pass_result(clause_seqs(*cur), old(ft)@, old(ff)@) == (
            false,
            clause_seqs(nx),
            final(ft)@,
            final(ff)@,
            changed,
            ),
        },
{
    let ghost ft0 = ft@;
    let ghost ff0 = ff@;
    let ghost cs = clause_seqs(*cur);
    let ghost n = ft@.len();
    let mut next: Vec<Vec<i32>> = Vec::new();
    let mut changed = false;
    let mut k: usize = 0;
    while k < cur.len()
        invariant
            k <= cur.len(),
            cs == clause_seqs(*cur),
            ft0 == old(ft)@,
            ff0 == old(ff)@,
            n == ft0.len(),
            ft@.len() == n,
            ff@.len() == n,
            ft0.len() == ff0.len(),
            disjoint(ft@, ff@),
            clauses_ok(cs, n),
            clauses_ok(clause_seqs(next), n),
            free_count(ft@, ff@, n as int) <= free_count(ft0, ff0, n as int),
            changed ==> free_count(ft@, ff@, n as int) < free_count(ft0, ff0, n as int),
            !changed ==> ft@ == ft0 && ff@ == ff0 && settled(clause_seqs(next), ft@, ff@),
            forall|j: int| 0 <= j < next@.len() ==> #[trigger] next@[j]@.len() >= 2,
            pass_prefix(cs, k as int, ft0, ff0) == (false, clause_seqs(next), ft@, ff@, changed),
            forall|a: Seq<bool>|
                a.len() == n ==> ((consistent(ft0, ff0, a) && all_hold(cs, a)) <==> (consistent(
                    ft@,
                    ff@,
                    a,
                ) && all_hold(clause_seqs(next), a) && holds_from(cs, k as int, a))),
        decreases cur.len() - k,
    {
        assert(cs[k as int] == cur@[k as int]@);
        let filtered = filter_clause(&cur[k], ft, ff);
        match filtered {
            Filtered::Satisfied => {
                proof {
                    assert forall|a: Seq<bool>|
                        a.len() == n && consistent(ft@, ff@, a) implies (holds_from(cs, k as int, a)
                            <==> holds_from(cs, k + 1, a)) by {
                        assert(clause_holds(cs[k as int], a));
                    }
                }
            },
            Filtered::Kept(kept) => {
                if kept.len() == 0 {
                    proof {
                        assert forall|a: Seq<bool>|
                            a.len() == n && consistent(ft0, ff0, a) implies !all_hold(cs, a) by {
                            if all_hold(cs, a) {
                                assert(holds_from(cs, k as int, a));
                                assert(clause_holds(cs[k as int], a));
                            }
                        }
                    }
                    proof {
                        lemma_dead_stays(cs, k + 1, cs.len() as int, ft0, ff0);
                    }
                    return Pass::Dead;
                } else if kept.len() == 1 {
                    let l = kept[0];
                    let v = var_of(l);
                    let ghost ft1 = ft@;
                    let ghost ff1 = ff@;
                    let ghost nx = clause_seqs(next);
                    assert(lit_free(kept@[0], ft@, ff@));
                    if l > 0 {
                        ft.set(v, true);
                    } else {
                        ff.set(v, true);
                    }
                    changed = true;
                    proof {
                        assert(pass_prefix(cs, k + 1, ft0, ff0) == (false, clause_seqs(next), ft@, ff@, changed));
                        lemma_free_count_force(ft1, ff1, ft@, ff@, v as int, n as int);
                        assert forall|a: Seq<bool>|
                            a.len() == n implies ((consistent(ft1, ff1, a) && holds_from(
                                cs,
                                k as int,
                                a,
                            )) <==> (consistent(ft@, ff@, a) && holds_from(cs, k + 1, a))) by {
                            if consistent(ft1, ff1, a) {
                                assert(clause_holds(cs[k as int], a) <==> clause_holds(kept@, a));
                                assert(clause_holds(kept@, a) <==> lit_holds(l, a)) by {
                                    if lit_holds(l, a) {
                                        assert(lit_holds(kept@[0], a));
                                    }
                                }
                                if lit_holds(l, a) {
                                    assert forall|w: int| 0 <= w < a.len() implies (ft@[w] ==> #[trigger] a[w]) && (ff@[w] ==> !a[w]) by {
                                        if w != v {
                                            assert(ft@[w] == ft1[w] && ff@[w] == ff1[w]);
                                        }
                                    }
                                }
                            }
                            if consistent(ft@, ff@, a) {
                                assert forall|w: int| 0 <= w < a.len() implies (ft1[w] ==> #[trigger] a[w]) && (ff1[w] ==> !a[w]) by {
                                    if w != v {
                                        assert(ft@[w] == ft1[w] && ff@[w] == ff1[w]);
                                    }
                                }
                                assert(lit_holds(l, a));
                                assert(lit_holds(kept@[0], a));
                                assert(clause_holds(kept@, a));
                            }
                        }
                    }
                } else {
                    let ghost nx = clause_seqs(next);
                    next.push(kept);
                    proof {
                        assert(clause_seqs(next) =~= nx.push(kept@));
                        assert(pass_prefix(cs, k + 1, ft0, ff0) == (false, clause_seqs(next), ft@, ff@, changed));
                        assert forall|a: Seq<bool>|
                            a.len() == n implies (all_hold(clause_seqs(next), a) <==> (all_hold(
                                nx,
                                a,
                            ) && clause_holds(kept@, a))) by {
                            if all_hold(nx, a) && clause_holds(kept@, a) {
                                assert forall|j: int| 0 <= j < clause_seqs(next).len() implies clause_holds(#[trigger] clause_seqs(next)[j], a) by {
                                    if j < nx.len() {
                                        assert(clause_seqs(next)[j] == nx[j]);
                                    }
                                }
                            }
                            if all_hold(clause_seqs(next), a) {
                                assert(clause_seqs(next)[nx.len() as int] == kept@);
                                assert forall|j: int| 0 <= j < nx.len() implies clause_holds(#[trigger] nx[j], a) by {
                                    assert(clause_seqs(next)[j] == nx[j]);
                                }
                            }
                        }
                    }
                }
            },
        }
        k += 1;
    }
    proof {
        assert forall|a: Seq<bool>| a.len() == n implies holds_from(cs, k as int, a) by {}
        assert(cs.len() == k);
    }
    Pass::Next(next, changed)
}

/// Passes repeated from the given state until one forces nothing new, at most `fuel`
/// more times: whether a clause was emptied, the clauses left, and the forced values.
pub open spec fn propagate(cs: Seq<Seq<i32>>, ft: Seq<bool>, ff: Seq<bool>, fuel: nat) -> (bool, Seq<Seq<i32>>, Seq<bool>, Seq<bool>)
    decreases fuel,
{
    let s = pass_result(cs, ft, ff);
    if s.0 {
        (true, Seq::empty(), s.2, s.3)
    } else if !s.4 || fuel == 0 {
        (false, s.1, s.2, s.3)
    } else {
        propagate(s.1, s.2, s.3, (fuel - 1) as nat)
    }
}

/// The outcome of simplifying `cs` over `n` variables, starting with nothing forced:
/// each pass forces a new variable or is the last, so `n` passes after the first suffice.
pub open spec fn simplified(cs: Seq<Seq<i32>>, n: nat) -> (bool, Seq<Seq<i32>>, Seq<bool>, Seq<bool>) {
    propagate(cs, Seq::new(n, |v: int| false), Seq::new(n, |v: int| false), n)
}

proof fn lemma_free_count_bound(ft: Seq<bool>, ff: Seq<bool>, k: int)
    requires
        k >= 0,
    ensures
        free_count(ft, ff, k) <= k,
    decreases k,
{
    if k > 0 {
        lemma_free_count_bound(ft, ff, k - 1);
    }
}

/// Result of simplifying an instance.
pub enum Simplified {
    /// Unit propagation emptied a clause: the instance has no satisfying assignment.
    Contradiction,
    /// The clauses that still constrain the search, with the forced partial assignment.
    Reduced { clauses: Vec<Vec<i32>>, forced_true: Vec<bool>, forced_false: Vec<bool> },
}

/// One more pass is owed when the last one forced a value.
pub open spec fn pending(p: Pass) -> nat {
    match p {
        Pass::Next(_, true) => 1,
        _ => 0,
    }
}

/// Where propagation stands, relative to the input clauses `orig`.
pub open spec fn pass_state(orig: Seq<Seq<i32>>, p: Pass, ft: Seq<bool>, ff: Seq<bool>) -> bool {
    match p {
        Pass::Dead => forall|a: Seq<bool>| a.len() == ft.len() ==> !all_hold(orig, a),
        Pass::Next(nx, changed) => {
            &&& clauses_ok(clause_seqs(nx), ft.len())
            &&& !changed ==> settled(clause_seqs(nx), ft, ff)
            &&& forall|a: Seq<bool>|
                a.len() == ft.len() ==> (all_hold(orig, a) <==> (consistent(ft, ff, a) && all_hold(
                    clause_seqs(nx),
                    a,
                )))
        },
    }
}

/// Simplifies the clauses over `num_variables` variables: repeats propagation passes until
/// one forces nothing new. Every assignment of the right length satisfies the input
/// exactly when it agrees with the forced values and satisfies the reduced clauses.
pub fn simplify(input: &Vec<Vec<i32>>, num_variables: usize) -> (r: Simplified)
    requires
        clauses_ok(clause_seqs(*input), num_variables as nat),
    ensures
        match r {
            Simplified::Contradiction => forall|a: Seq<bool>|
                a.len() == num_variables ==> !all_hold(clause_seqs(*input), a),
            Simplified::Reduced { clauses: red, forced_true: ft, forced_false: ff } => {
                &&& ft@.len() == num_variables
                &&& ff@.len() == num_variables
                &&& disjoint(ft@, ff@)
                &&& clauses_ok(clause_seqs(red), num_variables as nat)
                &&& settled(clause_seqs(red), ft@, ff@)
                &&& forall|a: Seq<bool>|
                    a.len() == num_variables ==> (all_hold(clause_seqs(*input), a) <==> (
                    consistent(ft@, ff@, a) && all_hold(clause_seqs(red), a)))
            },
        },
        match r {
            Simplified::Contradiction => simplified(clause_seqs(*input), num_variables as nat).0,
            Simplified::Reduced { clauses: red, forced_true: ft, forced_false: ff } => simplified(
                clause_seqs(*input),
                num_variables as nat,
            ) == (false, clause_seqs(red), ft@, ff@),
        },
{
    let ghost orig = clause_seqs(*input);
    let n = num_variables;
    let mut ft: Vec<bool> = Vec::new();
    let mut ff: Vec<bool> = Vec::new();
    let mut v: usize = 0;
    while v < n
        invariant
            v <= n,
            ft@.len() == v,
            ff@.len() == v,
            forall|w: int| 0 <= w < v ==> !(#[trigger] ft@[w]) && !ff@[w],
        decreases n - v,
    {
        ft.push(false);
        ff.push(false);
        v += 1;
    }
    let ghost ft0 = ft@;
    let ghost ff0 = ff@;
    let mut outcome = propagate_pass(input, &mut ft, &mut ff);
    let ghost mut prev = orig;
    let ghost mut pft = ft0;
    let ghost mut pff = ff0;
    let ghost mut fuel: nat = n as nat;
    proof {
        assert forall|a: Seq<bool>| a.len() == n implies consistent(ft0, ff0, a) by {}
        assert(ft0 =~= Seq::new(n as nat, |v: int| false));
        assert(ff0 =~= Seq::new(n as nat, |v: int| false));
        lemma_free_count_bound(ft0, ff0, n as int);
    }
    loop
        invariant
            ft@.len() == n,
            ff@.len() == n,
            disjoint(ft@, ff@),
            orig == clause_seqs(*input),
            n == num_variables,
            pass_state(orig, outcome, ft@, ff@),
            simplified(orig, n as nat) == propagate(prev, pft, pff, fuel),
            pft.len() == n,
            pff.len() == n,
            fuel >= free_count(pft, pff, n as int),
            match outcome {
                Pass::Dead => pass_result(prev, pft, pff).0,
                Pass::Next(nx, changed) => {
                    &&& pass_result(prev, pft, pff) == (false, clause_seqs(nx), ft@, ff@, changed)
                    &&& changed ==> free_count(ft@, ff@, n as int) < free_count(pft, pff, n as int)
                },
            },
        decreases free_count(ft@, ff@, n as int) + pending(outcome),
    {
        match outcome {
            Pass::Dead => {
                return Simplified::Contradiction;
            },
            Pass::Next(nx, changed) => {
                if !changed {
                    return Simplified::Reduced { clauses: nx, forced_true: ft, forced_false: ff };
                }
                let ghost ft1 = ft@;
                let ghost ff1 = ff@;
                let after = propagate_pass(&nx, &mut ft, &mut ff);
                proof {
                    prev = clause_seqs(nx);
                    pft = ft1;
                    pff = ff1;
                    fuel = (fuel - 1) as nat;
                }
                proof {
                    if after is Dead {
                        assert forall|a: Seq<bool>| a.len() == n implies !all_hold(orig, a) by {
                            if all_hold(orig, a) {
                                assert(consistent(ft1, ff1, a) && all_hold(clause_seqs(nx), a));
                            }
                        }
                    }
                }
                outcome = after;
            },
        }
    }
}

} // verus!
