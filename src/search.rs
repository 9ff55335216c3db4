//! The local search: occurrence lists, satisfaction counters, the residual set of
//! violated clauses, and the flip that keeps them all in step.
use vstd::prelude::*;
use rand::rngs::StdRng;
use crate::model::{
    clause_holds, clause_ok, clause_seqs, clauses_ok, distinct_vars, flipped, lemma_flip_count,
    lemma_num_true, lit_ok, lit_var, literal_holds, num_true, occurs, var_of, all_hold,
};
use crate::random::{below, chance};
use crate::residual::ResidualSet;

verus! {

/// How the variable to flip is chosen, and how long the search may run.
#[derive(Clone, Copy)]
pub struct Policy {
    /// Flips allowed per variable before the search gives up.
    pub multiplier: usize,
    /// Take a move that breaks nothing, when there is one, without tossing the noise coin.
    pub zero_break_shortcut: bool,
}

/// The flip budget: `n * k`, capped at the largest `usize`.
pub open spec fn budget(n: nat, k: nat) -> nat {
    if n * k <= usize::MAX {
        n * k
    } else {
        usize::MAX as nat
    }
}

/// `after` follows `before` by one round of the search under `policy`: some clause was
/// violated, and the variable flipped is the one at the position that the move draws
/// select in the clause of the residual set's first slot.
pub open spec fn round_taken(policy: Policy, before: Search, after: Search) -> bool {
    let i = before.first_violated();
    let b = before.break_seq(i);
    &&& before.wf()
    &&& after.wf()
    &&& !(before.violated() =~= Set::empty())
    &&& after.clause_set() == before.clause_set()
    &&& exists|m: Seq<usize>, noise: bool, draw: int|
        least_positions(b, m) && 0 <= draw < draw_range(policy, b, m, noise) && after.values()
            == flipped(before.values(), lit_var(before.clause_set()[i][move_position(policy, b, m, noise, draw)]))
}

/// `last` is reached from `first` by exactly `k` rounds.
pub open spec fn runs(policy: Policy, first: Search, last: Search, k: nat) -> bool
    decreases k,
{
    if k == 0 {
        last == first
    } else {
        exists|mid: Search| runs(policy, first, mid, (k - 1) as nat) && #[trigger] round_taken(policy, mid, last)
    }
}

/// Variable `v` occurs in some clause.
pub open spec fn mentions(cs: Seq<Seq<i32>>, v: int) -> bool {
    exists|j: int, i: int| 0 <= j < cs.len() && 0 <= i < cs[j].len() && lit_var(#[trigger] cs[j][i]) == v
}

/// Number of entries of `list` whose counter is exactly one.
pub open spec fn critical(list: Seq<usize>, counts: Seq<usize>) -> nat
    decreases list.len(),
{
    if list.len() == 0 {
        0
    } else {
        critical(list.drop_last(), counts) + if counts[list.last() as int] == 1 {
            1nat
        } else {
            0nat
        }
    }
}

/// `s` is strictly increasing.
pub open spec fn increasing(s: Seq<usize>) -> bool {
    forall|p: int, q: int| 0 <= p < q < s.len() ==> s[p] < s[q]
}

/// The occurrence list of variable `v` with polarity `pol`.
pub open spec fn occ_list(p: Seq<Vec<usize>>, q: Seq<Vec<usize>>, v: int, pol: bool) -> Seq<usize> {
    if pol {
        p[v]@
    } else {
        q[v]@
    }
}

/// The lists hold, for each variable and polarity, exactly the indices below `upto` of the
/// clauses holding that literal, in increasing order.
pub open spec fn index_ok(cs: Seq<Seq<i32>>, p: Seq<Vec<usize>>, q: Seq<Vec<usize>>, n: nat, upto: int) -> bool {
    &&& p.len() == n
    &&& q.len() == n
    &&& forall|v: int, pol: bool| 0 <= v < n ==> increasing(#[trigger] occ_list(p, q, v, pol))
    &&& forall|v: int, pol: bool, k: int|
        0 <= v < n && 0 <= k < occ_list(p, q, v, pol).len() ==> (#[trigger] occ_list(p, q, v, pol)[k]) < upto
            && occurs(cs[occ_list(p, q, v, pol)[k] as int], v, pol)
    &&& forall|v: int, pol: bool, j: int|
        0 <= v < n && 0 <= j < upto && #[trigger] occurs(cs[j], v, pol) ==> occ_list(p, q, v, pol).contains(
            j as usize,
        )
}

proof fn lemma_push_contains(s: Seq<usize>, x: usize, y: usize)
    ensures
        s.push(y).contains(x) <==> s.contains(x) || x == y,
{
    if s.contains(x) {
        let k = choose|k: int| 0 <= k < s.len() && s[k] == x;
        assert(s.push(y)[k] == x);
    }
    if x == y {
        assert(s.push(y)[s.len() as int] == x);
    }
    if s.push(y).contains(x) && x != y {
        let k = choose|k: int| 0 <= k < s.len() + 1 && s.push(y)[k] == x;
        assert(s[k] == x);
    }
}

/// Clauses the search can run on: literals in range, none empty, no variable twice.
pub open spec fn search_clauses(cs: Seq<Seq<i32>>, n: nat) -> bool {
    &&& clauses_ok(cs, n)
    &&& forall|j: int| 0 <= j < cs.len() ==> #[trigger] cs[j].len() >= 1 && distinct_vars(cs[j])
}

/// `n` empty lists.
fn empty_lists(n: usize) -> (r: Vec<Vec<usize>>)
    ensures
        r@.len() == n,
        forall|w: int| 0 <= w < n ==> (#[trigger] r@[w])@.len() == 0,
{
    let mut r: Vec<Vec<usize>> = Vec::new();
    let mut u: usize = 0;
    while u < n
        invariant
            u <= n,
            r@.len() == u,
            forall|w: int| 0 <= w < u ==> (#[trigger] r@[w])@.len() == 0,
        decreases n - u,
    {
        r.push(Vec::new());
        u += 1;
    }
    r
}

/// Builds the positive and negative occurrence lists of every variable.
fn build_index(clauses: &Vec<Vec<i32>>, n: usize) -> (r: (Vec<Vec<usize>>, Vec<Vec<usize>>))
    requires
        search_clauses(clause_seqs(*clauses), n as nat),
    ensures
        index_ok(clause_seqs(*clauses), r.0@, r.1@, n as nat, clauses@.len() as int),
{
    let ghost cs = clause_seqs(*clauses);
    let mut pos = empty_lists(n);
    let mut neg = empty_lists(n);
    assert(index_ok(cs, pos@, neg@, n as nat, 0)) by {
        assert forall|v: int, pol: bool| 0 <= v < n implies occ_list(pos@, neg@, v, pol).len() == 0 by {
            assert(pos@[v]@.len() == 0 && neg@[v]@.len() == 0);
        }
    }
    let mut j: usize = 0;
    while j < clauses.len()
        invariant
            j <= clauses.len(),
            cs == clause_seqs(*clauses),
            search_clauses(cs, n as nat),
            index_ok(cs, pos@, neg@, n as nat, j as int),
        decreases clauses.len() - j,
    {
        let c = &clauses[j];
        assert(cs[j as int] == c@);
        let mut i: usize = 0;
        while i < c.len()
            invariant
                i <= c.len(),
                j < clauses.len(),
                cs == clause_seqs(*clauses),
                cs[j as int] == c@,
                search_clauses(cs, n as nat),
                pos@.len() == n,
                neg@.len() == n,
                forall|v: int, pol: bool| 0 <= v < n ==> increasing(#[trigger] occ_list(pos@, neg@, v, pol)),
                forall|v: int, pol: bool, k: int|
                    0 <= v < n && 0 <= k < occ_list(pos@, neg@, v, pol).len() ==> {
                        let e = #[trigger] occ_list(pos@, neg@, v, pol)[k];
                        &&& e <= j
                        &&& occurs(cs[e as int], v, pol)
                        &&& e == j ==> occurs(c@.take(i as int), v, pol)
                    },
                forall|v: int, pol: bool, e: int|
                    0 <= v < n && 0 <= e < j && #[trigger] occurs(cs[e], v, pol) ==> occ_list(pos@, neg@, v, pol).contains(
                        e as usize,
                    ),
                forall|v: int, pol: bool|
                    0 <= v < n && #[trigger] occurs(c@.take(i as int), v, pol) ==> occ_list(pos@, neg@, v, pol).contains(
                        j,
                    ),
            decreases c.len() - i,
        {
            let l = c[i];
            assert(lit_ok(c@[i as int], n as nat));
            let w = var_of(l);
            let ghost pol = l > 0;
            let ghost before = occ_list(pos@, neg@, w as int, pol);
            let ghost p0 = pos@;
            let ghost n0 = neg@;
            proof {
                // no earlier literal of this clause has variable `w`
                assert forall|k: int| 0 <= k < before.len() implies before[k] < j by {
                    if before[k] == j {
                        let t = choose|t: int| 0 <= t < c@.take(i as int).len() && lit_var(#[trigger] c@.take(i as int)[t]) == w && (c@.take(i as int)[t] > 0) == pol;
                        assert(c@[t] == c@.take(i as int)[t]);
                        assert(lit_var(c@[t]) != lit_var(c@[i as int]));
                    }
                }
            }
            if l > 0 {
                pos[w].push(j);
            } else {
                neg[w].push(j);
            }
            proof {
                let ci = c@.take(i as int);
                let cn = c@.take(i + 1);
                assert(occ_list(pos@, neg@, w as int, pol) == before.push(j));
                assert forall|v: int, q: bool| 0 <= v < n && (v != w || q != pol) implies occ_list(pos@, neg@, v, q) == occ_list(p0, n0, v, q) by {}
                assert(cn[i as int] == l);
                assert(occurs(cn, w as int, pol));
                assert(occurs(c@, w as int, pol)) by {
                    assert(c@[i as int] == l);
                }
                assert forall|v: int, q: bool| occurs(ci, v, q) implies occurs(cn, v, q) by {
                    let t = choose|t: int| 0 <= t < ci.len() && lit_var(#[trigger] ci[t]) == v && (ci[t] > 0) == q;
                    assert(cn[t] == ci[t]);
                }
                assert forall|v: int, q: bool| 0 <= v < n implies increasing(#[trigger] occ_list(pos@, neg@, v, q)) by {
                    if v == w && q == pol {
                        assert(increasing(before));
                    } else {
                        assert(increasing(occ_list(p0, n0, v, q)));
                    }
                }
                assert forall|v: int, q: bool, k: int|
                    0 <= v < n && 0 <= k < occ_list(pos@, neg@, v, q).len() implies {
                        let e = #[trigger] occ_list(pos@, neg@, v, q)[k];
                        &&& e <= j
                        &&& occurs(cs[e as int], v, q)
                        &&& e == j ==> occurs(cn, v, q)
                    } by {
                    if v == w && q == pol {
                        if k == before.len() {
                        } else {
                            assert(occ_list(pos@, neg@, v, q)[k] == before[k]);
                        }
                    } else {
                        assert(occ_list(pos@, neg@, v, q)[k] == occ_list(p0, n0, v, q)[k]);
                    }
                }
                assert forall|v: int, q: bool, e: int|
                    0 <= v < n && 0 <= e < j && #[trigger] occurs(cs[e], v, q) implies occ_list(pos@, neg@, v, q).contains(
                        e as usize,
                    ) by {
                    if v == w && q == pol {
                        lemma_push_contains(before, e as usize, j);
                    }
                }
                assert forall|v: int, q: bool|
                    0 <= v < n && #[trigger] occurs(cn, v, q) implies occ_list(pos@, neg@, v, q).contains(
                        j,
                    ) by {
                    let t = choose|t: int| 0 <= t < cn.len() && lit_var(#[trigger] cn[t]) == v && (cn[t] > 0) == q;
                    if t < i {
                        assert(ci[t] == cn[t]);
                        assert(occurs(ci, v, q));
                    }
                    if v == w && q == pol {
                        lemma_push_contains(before, j, j);
                    }
                }
            }
            i += 1;
        }
        proof {
            assert(c@.take(c@.len() as int) =~= c@);
            assert forall|v: int, q: bool, k: int|
                0 <= v < n && 0 <= k < occ_list(pos@, neg@, v, q).len() implies (#[trigger] occ_list(pos@, neg@, v, q)[k]) < j + 1
                    && occurs(cs[occ_list(pos@, neg@, v, q)[k] as int], v, q) by {}
            assert forall|v: int, q: bool, e: int|
                0 <= v < n && 0 <= e < j + 1 && #[trigger] occurs(cs[e], v, q) implies occ_list(pos@, neg@, v, q).contains(
                    e as usize,
                ) by {
                if e == j {
                    assert(occurs(c@.take(c@.len() as int), v, q));
                }
            }
        }
        j += 1;
    }
    (pos, neg)
}

/// Number of literals of `c` true under `a`.
fn count_true(c: &Vec<i32>, a: &Vec<bool>) -> (r: usize)
    requires
        clause_ok(c@, a@.len()),
    ensures
        r == num_true(c@, a@),
        c@.len() <= usize::MAX,
{
    let mut r: usize = 0;
    let mut i: usize = 0;
    while i < c.len()
        invariant
            i <= c.len(),
            clause_ok(c@, a@.len()),
            r <= i,
            r == num_true(c@.take(i as int), a@),
        decreases c.len() - i,
    {
        assert(c@.take(i + 1).drop_last() =~= c@.take(i as int));
        if literal_holds(c[i], a) {
            r += 1;
        }
        i += 1;
    }
    assert(c@.take(c@.len() as int) =~= c@);
    r
}

/// Adds one to the counter of each clause in `list`; a clause whose counter leaves zero
/// leaves the residual set.
fn raise(list: &Vec<usize>, counts: &mut Vec<usize>, residual: &mut ResidualSet)
    requires
        increasing(list@),
        old(residual).wf(),
        old(residual).capacity() == old(counts)@.len(),
        forall|j: int| 0 <= j < old(counts)@.len() ==> (old(residual).has(j) <==> #[trigger] old(counts)@[j] == 0),
        forall|k: int| 0 <= k < list@.len() ==> (#[trigger] list@[k] as int) < old(counts)@.len() && old(counts)@[list@[k] as int] < usize::MAX,
    ensures
        final(counts)@.len() == old(counts)@.len(),
        final(residual).wf(),
        final(residual).capacity() == old(counts)@.len(),
        forall|j: int| 0 <= j < final(counts)@.len() ==> (final(residual).has(j) <==> #[trigger] final(counts)@[j] == 0),
        forall|j: int| 0 <= j < final(counts)@.len() ==> #[trigger] final(counts)@[j] == old(counts)@[j] + if list@.contains(j as usize) { 1int } else { 0int },
{
    let ghost c0 = counts@;
    let len = counts.len();
    let mut k: usize = 0;
    while k < list.len()
        invariant
            k <= list.len(),
            increasing(list@),
            c0 == old(counts)@,
            len == c0.len(),
            counts@.len() == c0.len(),
            residual.wf(),
            residual.capacity() == c0.len(),
            forall|k: int| 0 <= k < list@.len() ==> (#[trigger] list@[k] as int) < c0.len() && c0[list@[k] as int] < usize::MAX,
            forall|j: int| 0 <= j < c0.len() ==> (residual.has(j) <==> #[trigger] counts@[j] == 0),
            forall|j: int| 0 <= j < c0.len() ==> #[trigger] counts@[j] == c0[j] + if list@.take(k as int).contains(j as usize) { 1int } else { 0int },
        decreases list.len() - k,
    {
        let e = list[k];
        proof {
            assert(list@.take(k + 1) =~= list@.take(k as int).push(e));
            lemma_push_contains(list@.take(k as int), e, e);
            assert forall|j: int| 0 <= j < c0.len() && j != e implies (#[trigger] list@.take(k + 1).contains(j as usize) <==> list@.take(k as int).contains(j as usize)) by {
                lemma_push_contains(list@.take(k as int), j as usize, e);
            }
            if list@.take(k as int).contains(e) {
                let p = choose|p: int| 0 <= p < k && list@.take(k as int)[p] == e;
                assert(list@[p] == e);
            }
        }
        let now = counts[e] + 1;
        counts.set(e, now);
        if now == 1 {
            residual.remove(e);
        }
        k += 1;
    }
    assert(list@.take(list@.len() as int) =~= list@);
}

/// Subtracts one from the counter of each clause in `list`; a clause whose counter
/// reaches zero enters the residual set.
fn lower(list: &Vec<usize>, counts: &mut Vec<usize>, residual: &mut ResidualSet)
    requires
        increasing(list@),
        old(residual).wf(),
        old(residual).capacity() == old(counts)@.len(),
        forall|j: int| 0 <= j < old(counts)@.len() ==> (old(residual).has(j) <==> #[trigger] old(counts)@[j] == 0),
        forall|k: int| 0 <= k < list@.len() ==> (#[trigger] list@[k] as int) < old(counts)@.len() && old(counts)@[list@[k] as int] >= 1,
    ensures
        final(counts)@.len() == old(counts)@.len(),
        final(residual).wf(),
        final(residual).capacity() == old(counts)@.len(),
        forall|j: int| 0 <= j < final(counts)@.len() ==> (final(residual).has(j) <==> #[trigger] final(counts)@[j] == 0),
        forall|j: int| 0 <= j < final(counts)@.len() ==> #[trigger] final(counts)@[j] == old(counts)@[j] - if list@.contains(j as usize) { 1int } else { 0int },
{
    let ghost c0 = counts@;
    let len = counts.len();
    let mut k: usize = 0;
    while k < list.len()
        invariant
            k <= list.len(),
            increasing(list@),
            c0 == old(counts)@,
            len == c0.len(),
            counts@.len() == c0.len(),
            residual.wf(),
            residual.capacity() == c0.len(),
            forall|k: int| 0 <= k < list@.len() ==> (#[trigger] list@[k] as int) < c0.len() && c0[list@[k] as int] >= 1,
            forall|j: int| 0 <= j < c0.len() ==> (residual.has(j) <==> #[trigger] counts@[j] == 0),
            forall|j: int| 0 <= j < c0.len() ==> #[trigger] counts@[j] == c0[j] - if list@.take(k as int).contains(j as usize) { 1int } else { 0int },
        decreases list.len() - k,
    {
        let e = list[k];
        proof {
            assert(list@.take(k + 1) =~= list@.take(k as int).push(e));
            lemma_push_contains(list@.take(k as int), e, e);
            assert forall|j: int| 0 <= j < c0.len() && j != e implies (#[trigger] list@.take(k + 1).contains(j as usize) <==> list@.take(k as int).contains(j as usize)) by {
                lemma_push_contains(list@.take(k as int), j as usize, e);
            }
            if list@.take(k as int).contains(e) {
                let p = choose|p: int| 0 <= p < k && list@.take(k as int)[p] == e;
                assert(list@[p] == e);
            }
        }
        if counts[e] == 1 {
            residual.insert(e);
        }
        let now = counts[e] - 1;
        counts.set(e, now);
        k += 1;
    }
    assert(list@.take(list@.len() as int) =~= list@);
}

/// The working state of one search: the reduced clauses, the current assignment, the
/// occurrence lists, one satisfaction counter per clause and the residual set.
pub struct Search {
    clauses: Vec<Vec<i32>>,
    assignment: Vec<bool>,
    pos_occ: Vec<Vec<usize>>,
    neg_occ: Vec<Vec<usize>>,
    counts: Vec<usize>,
    residual: ResidualSet,
}

impl Search {
    /// The clauses searched over.
    pub closed spec fn clause_set(&self) -> Seq<Seq<i32>> {
        clause_seqs(self.clauses)
    }

    /// The current assignment.
    pub closed spec fn values(&self) -> Seq<bool> {
        self.assignment@
    }

    /// The satisfaction counter of clause `j`.
    pub closed spec fn counter(&self, j: int) -> int {
        self.counts@[j] as int
    }

    /// The residual set: indices of the clauses held as violated.
    pub closed spec fn violated(&self) -> Set<int> {
        self.residual@
    }

    /// The lists index the clauses exactly, each counter is its clause's number of true
    /// literals, and the residual set holds exactly the clauses whose counter is zero.
    pub closed spec fn wf(&self) -> bool {
        let cs = self.clause_set();
        let n = self.values().len();
        &&& search_clauses(cs, n)
        &&& index_ok(cs, self.pos_occ@, self.neg_occ@, n, cs.len() as int)
        &&& self.counts@.len() == cs.len()
        &&& forall|j: int| 0 <= j < cs.len() ==> (#[trigger] cs[j]).len() <= usize::MAX
        &&& forall|j: int| 0 <= j < cs.len() ==> #[trigger] self.counts@[j] == num_true(cs[j], self.values())
        &&& self.residual.wf()
        &&& self.residual.capacity() == cs.len()
        &&& forall|j: int| #![trigger self.residual.has(j)] #![trigger self.counts@[j]]
            0 <= j < cs.len() ==> (self.residual.has(j) <==> self.counts@[j] == 0)
    }

    /// Each counter is the number of true literals of its clause, and a clause is in the
    /// residual set exactly when its counter is zero, that is when it does not hold.
    pub proof fn lemma_counters(&self)
        requires
            self.wf(),
        ensures
            forall|j: int| 0 <= j < self.clause_set().len() ==> #[trigger] self.counter(j) == num_true(self.clause_set()[j], self.values()),
            forall|j: int| 0 <= j < self.clause_set().len() ==> (#[trigger] self.violated().contains(j) <==> self.counter(j) == 0),
            forall|j: int| 0 <= j < self.clause_set().len() ==> (self.violated().contains(j) <==> !clause_holds(#[trigger] self.clause_set()[j], self.values())),
            forall|j: int| #[trigger] self.violated().contains(j) ==> 0 <= j < self.clause_set().len(),
    {
        self.residual.lemma_bounded();
        assert forall|j: int| 0 <= j < self.clause_set().len() implies (self.violated().contains(j) <==> !clause_holds(#[trigger] self.clause_set()[j], self.values())) by {
            lemma_num_true(self.clause_set()[j], self.values());
        }
    }

    /// Sets up the search from clauses and a complete assignment: builds the occurrence
    /// lists, counts the true literals of each clause and collects the violated ones.
    pub fn new(clauses: Vec<Vec<i32>>, assignment: Vec<bool>) -> (r: Self)
        requires
            search_clauses(clause_seqs(clauses), assignment@.len()),
        ensures
            r.wf(),
            r.clause_set() == clause_seqs(clauses),
            r.values() == assignment@,
    {
        let ghost cs = clause_seqs(clauses);
        let (pos_occ, neg_occ) = build_index(&clauses, assignment.len());
        let mut counts: Vec<usize> = Vec::new();
        let mut residual = ResidualSet::new(clauses.len());
        let mut j: usize = 0;
        while j < clauses.len()
            invariant
                j <= clauses.len(),
                cs == clause_seqs(clauses),
                search_clauses(cs, assignment@.len()),
                counts@.len() == j,
                forall|k: int| 0 <= k < j ==> (#[trigger] cs[k]).len() <= usize::MAX,
                forall|k: int| 0 <= k < j ==> #[trigger] counts@[k] == num_true(cs[k], assignment@),
                residual.wf(),
                residual.capacity() == clauses@.len(),
                forall|k: int| #![trigger residual.has(k)] 0 <= k < clauses@.len() ==> (residual.has(k) <==> k < j && counts@[k] == 0),
            decreases clauses.len() - j,
        {
            assert(cs[j as int] == clauses@[j as int]@);
            let cnt = count_true(&clauses[j], &assignment);
            counts.push(cnt);
            if cnt == 0 {
                residual.insert(j);
            }
            proof {
                assert forall|k: int| #![trigger residual.has(k)] 0 <= k < clauses@.len() implies (residual.has(k) <==> k < j + 1 && counts@[k] == 0) by {
                    assert(residual@.contains(k) == residual.has(k));
                }
            }
            j += 1;
        }
        Search { clauses, assignment, pos_occ, neg_occ, counts, residual }
    }

    /// Gives up the state, keeping the assignment.
    pub fn into_values(self) -> (r: Vec<bool>)
        ensures
            r@ == self.values(),
    {
        self.assignment
    }

    /// The satisfaction counter of clause `j`.
    pub fn counter_of(&self, j: usize) -> (r: usize)
        requires
            self.wf(),
            (j as int) < self.clause_set().len(),
        ensures
            r == self.counter(j as int),
    {
        self.counts[j]
    }

    /// Whether clause `j` is in the residual set.
    pub fn is_violated(&self, j: usize) -> (r: bool)
        requires
            self.wf(),
        ensures
            r == self.violated().contains(j as int),
    {
        self.residual.contains(j)
    }

    /// The current value of variable `v`.
    pub fn value(&self, v: usize) -> (r: bool)
        requires
            (v as int) < self.values().len(),
        ensures
            r == self.values()[v as int],
    {
        self.assignment[v]
    }

    /// Number of clauses searched over.
    pub fn num_clauses(&self) -> (r: usize)
        ensures
            r == self.clause_set().len(),
    {
        self.clauses.len()
    }

    /// Number of variables.
    pub fn num_variables(&self) -> (r: usize)
        ensures
            r == self.values().len(),
    {
        self.assignment.len()
    }

    /// Flips variable `v`, then brings every counter and the residual set up to date by
    /// walking only the two occurrence lists of `v`.
    pub fn flip(&mut self, v: usize)
        requires
            old(self).wf(),
            (v as int) < old(self).values().len(),
        ensures
            final(self).wf(),
            final(self).clause_set() == old(self).clause_set(),
            final(self).values() == flipped(old(self).values(), v as int),
            forall|j: int|
                0 <= j < old(self).clause_set().len() ==> -1 <= #[trigger] final(self).counter(j)
                    - old(self).counter(j) <= 1,
            forall|j: int|
                0 <= j < old(self).clause_set().len() && !occurs(old(self).clause_set()[j], v as int, true)
                    && !occurs(old(self).clause_set()[j], v as int, false) ==> #[trigger] final(self).counter(j)
                    == old(self).counter(j),
    {
        let ghost cs = self.clause_set();
        let ghost a = self.values();
        let ghost a2 = flipped(a, v as int);
        let ghost n = a.len();
        let m = self.clauses.len();
        assert(cs.len() == m);
        let new_val = !self.assignment[v];
        let ghost gains = occ_list(self.pos_occ@, self.neg_occ@, v as int, new_val);
        let ghost losses = occ_list(self.pos_occ@, self.neg_occ@, v as int, !new_val);
        proof {
            assert forall|j: int| 0 <= j < cs.len() implies {
                &&& num_true(#[trigger] cs[j], a2) as int == num_true(cs[j], a) as int
                    + (if gains.contains(j as usize) { 1int } else { 0int })
                    - (if losses.contains(j as usize) { 1int } else { 0int })
                &&& !(gains.contains(j as usize) && losses.contains(j as usize))
                &&& gains.contains(j as usize) ==> num_true(cs[j], a2) <= cs[j].len()
                &&& losses.contains(j as usize) ==> num_true(cs[j], a) >= 1
            } by {
                lemma_flip_count(cs[j], a, v as int);
                lemma_num_true(cs[j], a2);
                assert(clauses_ok(cs, n));
                if gains.contains(j as usize) {
                    let k = choose|k: int| 0 <= k < gains.len() && gains[k] == j as usize;
                    assert(occ_list(self.pos_occ@, self.neg_occ@, v as int, new_val)[k] == j);
                }
                if losses.contains(j as usize) {
                    let k = choose|k: int| 0 <= k < losses.len() && losses[k] == j as usize;
                    assert(occ_list(self.pos_occ@, self.neg_occ@, v as int, !new_val)[k] == j);
                }
            }
            assert forall|k: int| 0 <= k < gains.len() implies (#[trigger] gains[k] as int) < cs.len()
                && self.counts@[gains[k] as int] < usize::MAX by {
                let j = gains[k] as int;
                assert(occ_list(self.pos_occ@, self.neg_occ@, v as int, new_val)[k] == gains[k]);
                assert(gains.contains(j as usize));
                assert(cs[j] == self.clauses@[j]@);
            }
            assert forall|k: int| 0 <= k < losses.len() implies (#[trigger] losses[k] as int) < cs.len()
                && self.counts@[losses[k] as int] >= 1 by {
                let j = losses[k] as int;
                assert(occ_list(self.pos_occ@, self.neg_occ@, v as int, !new_val)[k] == losses[k]);
                assert(losses.contains(j as usize));
            }
            assert(increasing(gains));
            assert(increasing(losses));
        }
        let ghost c0 = self.counts@;
        if new_val {
            raise(&self.pos_occ[v], &mut self.counts, &mut self.residual);
        } else {
            raise(&self.neg_occ[v], &mut self.counts, &mut self.residual);
        }
        let ghost c1 = self.counts@;
        proof {
            assert forall|k: int| 0 <= k < losses.len() implies (#[trigger] losses[k] as int) < c1.len()
                && c1[losses[k] as int] >= 1 by {
                let j = losses[k] as int;
                assert(losses.contains(j as usize));
                assert(c1[j] == c0[j]);
            }
        }
        if new_val {
            lower(&self.neg_occ[v], &mut self.counts, &mut self.residual);
        } else {
            lower(&self.pos_occ[v], &mut self.counts, &mut self.residual);
        }
        self.assignment.set(v, new_val);
        proof {
            assert(self.values() == a2);
            assert forall|j: int| 0 <= j < cs.len() implies #[trigger] self.counts@[j] == num_true(cs[j], a2) by {}
            assert forall|j: int| 0 <= j < cs.len() && !occurs(cs[j], v as int, true) && !occurs(cs[j], v as int, false)
                implies #[trigger] self.counts@[j] == c0[j] by {
                lemma_flip_count(cs[j], a, v as int);
            }
        }
    }

    /// The occurrence list of `v` for its current value: the clauses that `v` now helps
    /// satisfy.
    pub closed spec fn supporting(&self, v: int) -> Seq<usize> {
        occ_list(self.pos_occ@, self.neg_occ@, v, self.values()[v])
    }

    /// Break count of `v`: how many clauses it supports have a counter of exactly one,
    /// that is how many clauses flipping `v` would leave violated.
    pub closed spec fn breaks(&self, v: int) -> nat {
        critical(self.supporting(v), self.counts@)
    }

    /// Computes the break count of `v`.
    pub fn break_count(&self, v: usize) -> (r: usize)
        requires
            self.wf(),
            (v as int) < self.values().len(),
        ensures
            r == self.breaks(v as int),
    {
        let ghost list = self.supporting(v as int);
        let occ = if self.assignment[v] {
            &self.pos_occ[v]
        } else {
            &self.neg_occ[v]
        };
        assert(occ@ == list);
        let mut r: usize = 0;
        let mut k: usize = 0;
        while k < occ.len()
            invariant
                self.wf(),
                occ@ == list,
                (v as int) < self.values().len(),
                list == self.supporting(v as int),
                k <= occ@.len(),
                r <= k,
                r == critical(list.take(k as int), self.counts@),
            decreases occ.len() - k,
        {
            assert(list.take(k + 1).drop_last() =~= list.take(k as int));
            assert(occ_list(self.pos_occ@, self.neg_occ@, v as int, self.values()[v as int])[k as int] == list[k as int]);
            if self.counts[occ[k]] == 1 {
                r += 1;
            }
            k += 1;
        }
        assert(list.take(list.len() as int) =~= list);
        r
    }

    /// The clause in the residual set's first slot.
    pub closed spec fn first_violated(&self) -> int {
        self.residual.slots()[0] as int
    }

    /// Break counts of the variables of the literals of clause `i`, in literal order.
    pub closed spec fn break_seq(&self, i: int) -> Seq<usize> {
        Seq::new(self.clause_set()[i].len(), |t: int| self.breaks(lit_var(self.clause_set()[i][t])) as usize)
    }

    /// Break counts of the variables of the literals of clause `i`, in literal order.
    fn clause_breaks(&self, i: usize) -> (r: Vec<usize>)
        requires
            self.wf(),
            (i as int) < self.clause_set().len(),
        ensures
            r@ == self.break_seq(i as int),
            r@.len() == self.clause_set()[i as int].len(),
            forall|t: int| 0 <= t < r@.len() ==> #[trigger] r@[t] == self.breaks(lit_var(self.clause_set()[i as int][t])),
    {
        let c = &self.clauses[i];
        assert(c@ == self.clause_set()[i as int]);
        let mut r: Vec<usize> = Vec::new();
        let mut t: usize = 0;
        while t < c.len()
            invariant
                self.wf(),
                (i as int) < self.clause_set().len(),
                c@ == self.clause_set()[i as int],
                t <= c@.len(),
                r@.len() == t,
                forall|u: int| 0 <= u < t ==> #[trigger] r@[u] == self.breaks(lit_var(c@[u])),
            decreases c.len() - t,
        {
            assert(clause_ok(c@, self.values().len()));
            assert(lit_ok(c@[t as int], self.values().len()));
            let b = self.break_count(var_of(c[t]));
            r.push(b);
            t += 1;
        }
        assert(r@ =~= self.break_seq(i as int));
        r
    }

    /// Runs the search: while some clause is violated and fewer than
    /// `budget(n, policy.multiplier)` flips were made, takes the clause in the residual
    /// set's first slot and flips one of its variables, chosen by `pick_position`.
    /// Returns whether every clause holds, and the number of flips made.
    pub fn run(&mut self, policy: &Policy, rng: &mut StdRng) -> (r: (bool, usize))
        requires
            old(self).wf(),
        ensures
            final(self).wf(),
            final(self).clause_set() == old(self).clause_set(),
            final(self).values().len() == old(self).values().len(),
            r.1 <= budget(old(self).values().len(), policy.multiplier as nat),
            r.0 <==> final(self).violated() =~= Set::empty(),
            r.0 ==> all_hold(final(self).clause_set(), final(self).values()),
            old(self).violated() =~= Set::empty() ==> r == (true, 0usize),
            !r.0 ==> r.1 == budget(old(self).values().len(), policy.multiplier as nat),
            forall|v: int|
                0 <= v < final(self).values().len() && final(self).values()[v] != old(self).values()[v]
                    ==> mentions(final(self).clause_set(), v),
            runs(*policy, *old(self), *final(self), r.1 as nat),
    {
        let ghost s0 = *self;
        let ghost cs = self.clause_set();
        let ghost a0 = self.values();
        let ghost settled_at_start = self.violated() =~= Set::empty();
        let n = self.num_variables();
        let limit: usize = match n.checked_mul(policy.multiplier) {
            Some(x) => x,
            None => usize::MAX,
        };
        let mut rounds: usize = 0;
        while rounds < limit && !self.residual.is_empty()
            invariant
                self.wf(),
                self.clause_set() == cs,
                self.values().len() == a0.len(),
                n == a0.len(),
                limit == budget(n as nat, policy.multiplier as nat),
                rounds <= limit,
                settled_at_start ==> rounds == 0 && self.violated() =~= Set::empty(),
                runs(*policy, s0, *self, rounds as nat),
                forall|v: int|
                    0 <= v < a0.len() && self.values()[v] != a0[v] ==> mentions(cs, v),
            decreases limit - rounds,
        {
            let ghost mid = *self;
            let i = self.residual.first();
            proof {
                self.lemma_counters();
            }
            let breaks = self.clause_breaks(i);
            assert(breaks@.len() > 0);
            let p = pick_position(policy, &breaks, rng);
            let l = self.clauses[i][p];
            assert(self.clauses@[i as int]@ == cs[i as int]);
            assert(clause_ok(cs[i as int], n as nat));
            assert(lit_ok(cs[i as int][p as int], n as nat));
            let v = var_of(l);
            let ghost before = self.values();
            self.flip(v);
            proof {
                assert forall|w: int|
                    0 <= w < a0.len() && self.values()[w] != a0[w] implies mentions(cs, w) by {
                    if w == v {
                        assert(lit_var(cs[i as int][p as int]) == w);
                    } else {
                        assert(self.values()[w] == before[w]);
                    }
                }
            }
            proof {
                let (m, noise, draw) = choose|m: Seq<usize>, noise: bool, draw: int|
                    least_positions(breaks@, m) && 0 <= draw < draw_range(*policy, breaks@, m, noise)
                        && p as int == move_position(*policy, breaks@, m, noise, draw);
                assert(mid.first_violated() == i);
                assert(least_positions(mid.break_seq(i as int), m) && 0 <= draw < draw_range(*policy, mid.break_seq(i as int), m, noise)
                    && self.values() == flipped(mid.values(), lit_var(mid.clause_set()[i as int][move_position(*policy, mid.break_seq(i as int), m, noise, draw)])));
                assert(round_taken(*policy, mid, *self));
                assert(runs(*policy, s0, mid, rounds as nat));
            }
            rounds += 1;
        }
        let solved = self.residual.is_empty();
        proof {
            self.lemma_counters();
            if solved {
                assert forall|j: int| 0 <= j < cs.len() implies clause_holds(#[trigger] cs[j], self.values()) by {
                    assert(!self.violated().contains(j));
                }
            }
        }
        (solved, rounds)
    }
}

/// `m` lists, in increasing order, exactly the positions where `b` takes its least value.
pub open spec fn least_positions(b: Seq<usize>, m: Seq<usize>) -> bool {
    &&& m.len() > 0
    &&& increasing(m)
    &&& forall|k: int| 0 <= k < m.len() ==> (#[trigger] m[k] as int) < b.len() && b[m[k] as int] == b[m[0] as int]
    &&& forall|t: int| 0 <= t < b.len() ==> #[trigger] b[t] >= b[m[0] as int]
    &&& forall|t: int| 0 <= t < b.len() && #[trigger] b[t] == b[m[0] as int] ==> m.contains(t as usize)
}

/// The zero-break shortcut applies: the policy has it and some position breaks nothing.
pub open spec fn shortcut_applies(policy: Policy, b: Seq<usize>, m: Seq<usize>) -> bool {
    policy.zero_break_shortcut && b[m[0] as int] == 0
}

/// The position a move takes, given the draws: under the shortcut the `draw`-th least
/// position; otherwise position `draw` for a noise move, and the `draw`-th least position
/// for a greedy one.
pub open spec fn move_position(policy: Policy, b: Seq<usize>, m: Seq<usize>, noise: bool, draw: int) -> int {
    if shortcut_applies(policy, b, m) || !noise {
        m[draw] as int
    } else {
        draw
    }
}

/// The range the move's draw is taken from: the least positions, or for a noise move
/// every position.
pub open spec fn draw_range(policy: Policy, b: Seq<usize>, m: Seq<usize>, noise: bool) -> int {
    if shortcut_applies(policy, b, m) || !noise {
        m.len() as int
    } else {
        b.len() as int
    }
}

/// Indices where `breaks` takes its least value, in increasing order.
pub fn minimizers(breaks: &Vec<usize>) -> (r: Vec<usize>)
    requires
        breaks@.len() > 0,
    ensures
        least_positions(breaks@, r@),
{
    let mut r: Vec<usize> = Vec::new();
    r.push(0);
    let mut best: usize = breaks[0];
    let mut t: usize = 1;
    assert(r@[0] == 0);
    while t < breaks.len()
        invariant
            1 <= t <= breaks@.len(),
            r@.len() > 0,
            best == breaks@[r@[0] as int],
            increasing(r@),
            forall|k: int| 0 <= k < r@.len() ==> (#[trigger] r@[k] as int) < t && breaks@[r@[k] as int] == best,
            forall|u: int| 0 <= u < t ==> #[trigger] breaks@[u] >= best,
            forall|u: int| 0 <= u < t && #[trigger] breaks@[u] == best ==> r@.contains(u as usize),
        decreases breaks.len() - t,
    {
        let b = breaks[t];
        if b < best {
            r = Vec::new();
            r.push(t);
            best = b;
            assert(r@[0] == t);
        } else if b == best {
            let ghost prev = r@;
            r.push(t);
            proof {
                assert forall|u: int| 0 <= u <= t && #[trigger] breaks@[u] == best implies r@.contains(u as usize) by {
                    lemma_push_contains(prev, u as usize, t);
                }
            }
        }
        t += 1;
    }
    r
}

/// Turns the draws of one move into the position to flip.
pub fn position_from_draws(policy: &Policy, breaks: &Vec<usize>, mins: &Vec<usize>, noise: bool, draw: usize) -> (r: usize)
    requires
        least_positions(breaks@, mins@),
        (draw as int) < draw_range(*policy, breaks@, mins@, noise),
    ensures
        r as int == move_position(*policy, breaks@, mins@, noise, draw as int),
        (r as int) < breaks@.len(),
{
    if (policy.zero_break_shortcut && breaks[mins[0]] == 0) || !noise {
        mins[draw]
    } else {
        draw
    }
}

/// Chooses the literal position to flip in a violated clause, given the break count of
/// each position. Under the zero-break shortcut (the policy has it and some position
/// breaks nothing) no coin is tossed, and a draw is made only among several zero-break
/// positions. Otherwise a fair coin picks a noise move (a draw over all positions) or a
/// greedy one (a draw over the least positions).
pub fn pick_position(policy: &Policy, breaks: &Vec<usize>, rng: &mut StdRng) -> (r: usize)
    requires
        breaks@.len() > 0,
    ensures
        r < breaks@.len(),
        policy.zero_break_shortcut && (exists|t: int| 0 <= t < breaks@.len() && breaks@[t] == 0)
            ==> breaks@[r as int] == 0,
        exists|m: Seq<usize>, noise: bool, draw: int|
            least_positions(breaks@, m) && 0 <= draw < draw_range(*policy, breaks@, m, noise)
                && r as int == move_position(*policy, breaks@, m, noise, draw),
{
    let mins = minimizers(breaks);
    let shortcut = policy.zero_break_shortcut && breaks[mins[0]] == 0;
    let noise = if shortcut {
        false
    } else {
        chance(rng, 1, 2)
    };
    let range = if shortcut || !noise {
        mins.len()
    } else {
        breaks.len()
    };
    let draw = if shortcut && mins.len() == 1 {
        0
    } else {
        below(rng, range)
    };
    let r = position_from_draws(policy, breaks, &mins, noise, draw);
    assert(least_positions(breaks@, mins@) && 0 <= draw < draw_range(*policy, breaks@, mins@, noise)
        && r as int == move_position(*policy, breaks@, mins@, noise, draw as int));
    r
}

} // verus!
