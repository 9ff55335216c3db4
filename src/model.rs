//! Literals, clauses and assignments, and what it means for them to hold.
use vstd::prelude::*;

verus! {

/// Zero-based variable index of a literal: its magnitude minus one.
pub open spec fn lit_var(l: i32) -> int {
    if l > 0 {
        l as int - 1
    } else {
        -(l as int) - 1
    }
}

/// The literal is true under the assignment `a`.
pub open spec fn lit_holds(l: i32, a: Seq<bool>) -> bool {
    if l > 0 {
        a[lit_var(l)]
    } else {
        !a[lit_var(l)]
    }
}

/// Some literal of the clause is true under `a`.
pub open spec fn clause_holds(c: Seq<i32>, a: Seq<bool>) -> bool {
    exists|i: int| 0 <= i < c.len() && #[trigger] lit_holds(c[i], a)
}

/// Every clause of the instance is true under `a`.
pub open spec fn all_hold(cs: Seq<Seq<i32>>, a: Seq<bool>) -> bool {
    forall|j: int| 0 <= j < cs.len() ==> clause_holds(#[trigger] cs[j], a)
}

/// A literal is non-zero, its negation fits in `i32`, and it names one of `n` variables.
pub open spec fn lit_ok(l: i32, n: nat) -> bool {
    l != 0 && l != i32::MIN && lit_var(l) < n
}

pub open spec fn clause_ok(c: Seq<i32>, n: nat) -> bool {
    forall|i: int| 0 <= i < c.len() ==> lit_ok(#[trigger] c[i], n)
}

/// Every literal of every clause names one of `n` variables.
pub open spec fn clauses_ok(cs: Seq<Seq<i32>>, n: nat) -> bool {
    forall|j: int| 0 <= j < cs.len() ==> clause_ok(#[trigger] cs[j], n)
}

/// The clause mentions each variable at most once.
pub open spec fn distinct_vars(c: Seq<i32>) -> bool {
    forall|p: int, q: int|
        0 <= p < c.len() && 0 <= q < c.len() && p != q ==> lit_var(#[trigger] c[p]) != lit_var(
            #[trigger] c[q],
        )
}

/// The clauses of a `Vec` of clauses, as sequences.
pub open spec fn clause_seqs(cs: Vec<Vec<i32>>) -> Seq<Seq<i32>> {
    cs@.map_values(|c: Vec<i32>| c@)
}

/// The variable of a literal, as an index.
pub fn var_of(l: i32) -> (r: usize)
    requires
        l != 0,
        l != i32::MIN,
    ensures
        r == lit_var(l),
{
    if l > 0 {
        (l - 1) as usize
    } else {
        (-l - 1) as usize
    }
}

/// Whether literal `l` is true under the assignment.
pub fn literal_holds(l: i32, a: &Vec<bool>) -> (r: bool)
    requires
        lit_ok(l, a@.len()),
    ensures
        r == lit_holds(l, a@),
{
    let v = var_of(l);
    if l > 0 {
        a[v]
    } else {
        !a[v]
    }
}

/// Whether some literal of the clause is true under the assignment.
pub fn clause_satisfied(c: &Vec<i32>, a: &Vec<bool>) -> (r: bool)
    requires
        clause_ok(c@, a@.len()),
    ensures
        r == clause_holds(c@, a@),
{
    let mut i: usize = 0;
    while i < c.len()
        invariant
            i <= c.len(),
            clause_ok(c@, a@.len()),
            forall|k: int| 0 <= k < i ==> !lit_holds(#[trigger] c@[k], a@),
        decreases c.len() - i,
    {
        if literal_holds(c[i], a) {
            return true;
        }
        i += 1;
    }
    false
}

/// Whether every literal of every clause is non-zero, has a negation in `i32`, and names
/// one of `n` variables.
pub fn instance_ok(clauses: &Vec<Vec<i32>>, n: usize) -> (r: bool)
    ensures
        r == clauses_ok(clause_seqs(*clauses), n as nat),
{
    let mut j: usize = 0;
    while j < clauses.len()
        invariant
            j <= clauses.len(),
            forall|k: int| 0 <= k < j ==> clause_ok(#[trigger] clause_seqs(*clauses)[k], n as nat),
        decreases clauses.len() - j,
    {
        let c = &clauses[j];
        assert(clause_seqs(*clauses)[j as int] == c@);
        let mut i: usize = 0;
        while i < c.len()
            invariant
                i <= c.len(),
                j < clauses@.len(),
                c@ == clause_seqs(*clauses)[j as int],
                forall|k: int| 0 <= k < j ==> clause_ok(#[trigger] clause_seqs(*clauses)[k], n as nat),
                forall|t: int| 0 <= t < i ==> lit_ok(#[trigger] c@[t], n as nat),
            decreases c.len() - i,
        {
            let l = c[i];
            if l == 0 || l == i32::MIN || var_of(l) >= n {
                assert(!lit_ok(c@[i as int], n as nat));
                return false;
            }
            i += 1;
        }
        assert(clause_ok(clause_seqs(*clauses)[j as int], n as nat));
        j += 1;
    }
    true
}

/// Whether the assignment satisfies every clause, evaluated directly on the literals.
pub fn is_solution(clauses: &Vec<Vec<i32>>, a: &Vec<bool>) -> (r: bool)
    requires
        clauses_ok(clause_seqs(*clauses), a@.len()),
    ensures
        r == all_hold(clause_seqs(*clauses), a@),
{
    let mut j: usize = 0;
    while j < clauses.len()
        invariant
            j <= clauses.len(),
            clauses_ok(clause_seqs(*clauses), a@.len()),
            forall|k: int| 0 <= k < j ==> clause_holds(#[trigger] clause_seqs(*clauses)[k], a@),
        decreases clauses.len() - j,
    {
        assert(clause_seqs(*clauses)[j as int] == clauses@[j as int]@);
        if !clause_satisfied(&clauses[j], a) {
            return false;
        }
        j += 1;
    }
    true
}

/// Number of literals of the clause that are true under `a`.
pub open spec fn num_true(c: Seq<i32>, a: Seq<bool>) -> nat
    decreases c.len(),
{
    if c.len() == 0 {
        0
    } else {
        num_true(c.drop_last(), a) + if lit_holds(c.last(), a) {
            1nat
        } else {
            0nat
        }
    }
}

/// The clause holds variable `v` with polarity `pol` (true: the plain literal).
pub open spec fn occurs(c: Seq<i32>, v: int, pol: bool) -> bool {
    exists|i: int| 0 <= i < c.len() && lit_var(#[trigger] c[i]) == v && (c[i] > 0) == pol
}

/// The assignment `a` with variable `v` flipped.
pub open spec fn flipped(a: Seq<bool>, v: int) -> Seq<bool> {
    a.update(v, !a[v])
}

/// The number of true literals is at most the clause's length, and zero exactly when
/// the clause does not hold.
pub proof fn lemma_num_true(c: Seq<i32>, a: Seq<bool>)
    ensures
        num_true(c, a) <= c.len(),
        num_true(c, a) == 0 <==> !clause_holds(c, a),
    decreases c.len(),
{
    if c.len() > 0 {
        let d = c.drop_last();
        lemma_num_true(d, a);
        if clause_holds(d, a) {
            let i = choose|i: int| 0 <= i < d.len() && lit_holds(d[i], a);
            assert(c[i] == d[i]);
        }
        if clause_holds(c, a) && !lit_holds(c.last(), a) {
            let i = choose|i: int| 0 <= i < c.len() && lit_holds(c[i], a);
            assert(d[i] == c[i]);
        }
        if lit_holds(c.last(), a) {
            assert(lit_holds(c[c.len() - 1], a));
        }
    }
}

/// Flipping variable `v` changes the number of true literals of a clause that mentions
/// each variable at most once by exactly the literal of `v` it holds, if any: plus one
/// when that literal becomes true, minus one when it becomes false, and not at all for
/// a clause without `v`.
pub proof fn lemma_flip_count(c: Seq<i32>, a: Seq<bool>, v: int)
    requires
        clause_ok(c, a.len()),
        distinct_vars(c),
        0 <= v < a.len(),
    ensures
        num_true(c, flipped(a, v)) as int == num_true(c, a) as int + (if occurs(c, v, !a[v]) {
            1int
        } else {
            0int
        }) - (if occurs(c, v, a[v]) {
            1int
        } else {
            0int
        }),
        !(occurs(c, v, true) && occurs(c, v, false)),
    decreases c.len(),
{
    let a2 = flipped(a, v);
    if c.len() > 0 {
        let d = c.drop_last();
        let l = c.last();
        assert(clause_ok(d, a.len()));
        assert(distinct_vars(d)) by {
            assert forall|p: int, q: int|
                0 <= p < d.len() && 0 <= q < d.len() && p != q implies lit_var(#[trigger] d[p])
                != lit_var(#[trigger] d[q]) by {
                assert(d[p] == c[p] && d[q] == c[q]);
            }
        }
        lemma_flip_count(d, a, v);
        assert(lit_ok(c[c.len() - 1], a.len()));
        assert forall|pol: bool| occurs(c, v, pol) <==> (occurs(d, v, pol) || (lit_var(l) == v && (l > 0) == pol)) by {
            if occurs(c, v, pol) {
                let i = choose|i: int| 0 <= i < c.len() && lit_var(#[trigger] c[i]) == v && (c[i] > 0) == pol;
                if i < d.len() {
                    assert(d[i] == c[i]);
                }
            }
            if occurs(d, v, pol) {
                let i = choose|i: int| 0 <= i < d.len() && lit_var(#[trigger] d[i]) == v && (d[i] > 0) == pol;
                assert(d[i] == c[i]);
            }
            if lit_var(l) == v && (l > 0) == pol {
                assert(lit_var(c[c.len() - 1]) == v);
            }
        }
        if lit_var(l) == v {
            assert forall|pol: bool| !occurs(d, v, pol) by {
                if occurs(d, v, pol) {
                    let i = choose|i: int| 0 <= i < d.len() && lit_var(#[trigger] d[i]) == v && (d[i] > 0) == pol;
                    assert(d[i] == c[i]);
                    assert(lit_var(c[i]) != lit_var(c[c.len() - 1]));
                }
            }
        } else {
            assert(lit_holds(l, a2) == lit_holds(l, a));
        }
    }
}

} // verus!
