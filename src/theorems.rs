use vstd::prelude::*;

use vstd::arithmetic::div_mod::lemma_fundamental_div_mod;

use crate::graph::{builds, dangling, edge, in_deps, TransitionModel};
use crate::package::Package;
use crate::error::RankError;
use crate::rank::{
    before, converged, even_share, give, inflow, initial_rank, lemma_share_bound, lists, next_entry, next_rank,
    pool, rank_after, ranked, ranking_of, sent, settled, settles_by, share, sum_upto, total,
    Damping, MAX_ROUNDS, SCALE,
};

verus! {

/// The sum of the first `m` weights of a row of length `k`, each `1 / k`.
pub open spec fn weight_sum(k: nat, m: nat) -> real
    decreases m,
{
    if m == 0 {
        0real
    } else {
        weight_sum(k, (m - 1) as nat) + 1real / (k as real)
    }
}

proof fn lemma_weight_sum(k: nat, m: nat)
    requires
        k > 0,
    ensures
        weight_sum(k, m) == (m as real) / (k as real),
    decreases m,
{
    if m > 0 {
        lemma_weight_sum(k, (m - 1) as nat);
        let kr = k as real;
        let mr = m as real;
        assert(((m - 1) as nat) as real == mr - 1real);
        assert((mr - 1real) / kr + 1real / kr == mr / kr) by (nonlinear_arith)
            requires
                kr > 0real,
        ;
    } else {
        assert(0real / (k as real) == 0real) by (nonlinear_arith)
            requires
                k as real > 0real,
        ;
    }
}

/// Every row of the transition model of two or more packages is a
/// probability distribution: it is not empty, names each position at most
/// once and only positions of the collection, and its equal weights `1 / len`
/// add up to one.
pub proof fn lemma_row_stochastic(packages: Seq<Package>, model: TransitionModel, i: int)
    requires
        builds(packages, model),
        packages.len() >= 2,
        0 <= i < packages.len(),
    ensures
        model.row(i).len() > 0,
        model.row(i).no_duplicates(),
        forall|m: int| 0 <= m < model.row(i).len() ==> #[trigger] model.row(i)[m] < packages.len(),
        weight_sum(model.row(i).len(), model.row(i).len()) == 1real,
{
    if !dangling(packages, i) {
        let j = choose|j: int| 0 <= j < packages.len() && in_deps(packages, i, j);
        assert(edge(packages, i, j));
        assert(model.row(i).contains(j as usize));
    }
    let k = model.row(i).len();
    lemma_weight_sum(k, k);
    assert((k as real) / (k as real) == 1real) by (nonlinear_arith)
        requires
            k > 0,
    ;
}

/// A package that declares no dependency in the collection hands the same
/// share, `give / (N - 1)`, to every other package and nothing to itself.
pub proof fn lemma_dangling_redistribution(
    packages: Seq<Package>,
    model: TransitionModel,
    rank: Seq<u64>,
    d: Damping,
    p: int,
)
    requires
        builds(packages, model),
        packages.len() >= 2,
        0 <= p < packages.len(),
        dangling(packages, p),
    ensures
        forall|j: int|
            0 <= j < packages.len() ==> (#[trigger] model.row(p).contains(j as usize) <==> j != p),
        model.row(p).len() == packages.len() - 1,
        share(model, rank, d, p) == give(rank[p], d) / (packages.len() - 1),
{
    assert forall|j: int| 0 <= j < packages.len() implies (#[trigger] model.row(p).contains(
        j as usize,
    ) <==> j != p) by {
        assert(edge(packages, p, j) == (j != p));
    }
}

proof fn lemma_rows_agree(packages: Seq<Package>, m1: TransitionModel, m2: TransitionModel, p: int)
    requires
        builds(packages, m1),
        builds(packages, m2),
        0 <= p < packages.len(),
    ensures
        m1.row(p).len() == m2.row(p).len(),
        forall|j: int|
            0 <= j < packages.len() ==> (#[trigger] m1.row(p).contains(j as usize)
                == m2.row(p).contains(j as usize)),
{
    let r1 = m1.row(p);
    let r2 = m2.row(p);
    assert forall|x: usize| r1.contains(x) implies r2.contains(x) by {
        let w = choose|w: int| 0 <= w < r1.len() && r1[w] == x;
        assert(r1[w] < packages.len());
        assert(r1.contains(x as int as usize));
    }
    assert forall|x: usize| r2.contains(x) implies r1.contains(x) by {
        let w = choose|w: int| 0 <= w < r2.len() && r2[w] == x;
        assert(r2[w] < packages.len());
        assert(r2.contains(x as int as usize));
    }
    assert(r1.to_set() =~= r2.to_set());
    r1.unique_seq_to_set();
    r2.unique_seq_to_set();
}

proof fn lemma_sent_agrees(
    packages: Seq<Package>,
    m1: TransitionModel,
    m2: TransitionModel,
    rank: Seq<u64>,
    d: Damping,
    n: int,
)
    requires
        builds(packages, m1),
        builds(packages, m2),
        0 <= n <= packages.len(),
    ensures
        sent(m1, rank, d, n) == sent(m2, rank, d, n),
    decreases n,
{
    if n > 0 {
        lemma_sent_agrees(packages, m1, m2, rank, d, n - 1);
        lemma_rows_agree(packages, m1, m2, n - 1);
    }
}

proof fn lemma_inflow_agrees(
    packages: Seq<Package>,
    m1: TransitionModel,
    m2: TransitionModel,
    rank: Seq<u64>,
    d: Damping,
    n: int,
    j: int,
)
    requires
        builds(packages, m1),
        builds(packages, m2),
        0 <= n <= packages.len(),
        0 <= j < packages.len(),
    ensures
        inflow(m1, rank, d, n, j) == inflow(m2, rank, d, n, j),
    decreases n,
{
    if n > 0 {
        lemma_inflow_agrees(packages, m1, m2, rank, d, n - 1, j);
        lemma_rows_agree(packages, m1, m2, n - 1);
    }
}

proof fn lemma_rank_after_agrees(
    packages: Seq<Package>,
    m1: TransitionModel,
    m2: TransitionModel,
    d: Damping,
    k: nat,
)
    requires
        builds(packages, m1),
        builds(packages, m2),
    ensures
        rank_after(m1, d, packages.len(), k) == rank_after(m2, d, packages.len(), k),
        rank_after(m1, d, packages.len(), k).len() == packages.len(),
    decreases k,
{
    let n = packages.len();
    if k > 0 {
        lemma_rank_after_agrees(packages, m1, m2, d, (k - 1) as nat);
        let prev = rank_after(m1, d, n, (k - 1) as nat);
        lemma_sent_agrees(packages, m1, m2, prev, d, n as int);
        assert forall|j: int| 0 <= j < n implies next_entry(m1, prev, d, j) == next_entry(
            m2,
            prev,
            d,
            j,
        ) by {
            lemma_inflow_agrees(packages, m1, m2, prev, d, n as int, j);
        }
        assert(next_rank(m1, prev, d) =~= next_rank(m2, prev, d));
    }
}

proof fn lemma_ranked_unique(v1: Seq<(usize, u64)>, v2: Seq<(usize, u64)>, scores: Seq<u64>, i: int)
    requires
        ranked(v1, scores),
        ranked(v2, scores),
        0 <= i < v1.len(),
    ensures
        forall|e: int| 0 <= e <= i ==> v1[e] == v2[e],
    decreases i,
{
    if i > 0 {
        lemma_ranked_unique(v1, v2, scores, i - 1);
    }
    let x = v1[i];
    let y = v2[i];
    if x != y {
        assert(lists(v2, x.0 as int));
        let a = choose|a: int| 0 <= a < v2.len() && #[trigger] v2[a].0 == x.0 as int;
        assert(v2[a] == x);
        assert(lists(v1, y.0 as int));
        let b = choose|b: int| 0 <= b < v1.len() && #[trigger] v1[b].0 == y.0 as int;
        assert(v1[b] == y);
        if a < i {
            assert(v1[a] == x);
            assert(before(v1[a], v1[i]));
        } else if b < i {
            assert(v2[b] == y);
            assert(before(v2[b], v2[i]));
        } else {
            assert(a > i && b > i);
            assert(before(v1[i], v1[b]));
            assert(before(v2[i], v2[a]));
        }
    }
}

/// Ranking the same collection with the same damping and threshold twice
/// gives the same outcome: the same error, or the same entries in the same
/// order.
pub proof fn lemma_deterministic(
    packages: Seq<Package>,
    d: Damping,
    threshold: u64,
    r1: Result<Vec<(usize, u64)>, RankError>,
    r2: Result<Vec<(usize, u64)>, RankError>,
)
    requires
        ranking_of(packages, d, threshold, r1),
        ranking_of(packages, d, threshold, r2),
    ensures
        r1 is Ok <==> r2 is Ok,
        r1 is Ok ==> r1->Ok_0@ == r2->Ok_0@,
        r1 is Err ==> r1 == r2,
{
    let n = packages.len();
    if n >= 2 {
        let limit = MAX_ROUNDS as nat;
        if r1 is Ok && r2 is Ok {
            let v1 = r1->Ok_0@;
            let v2 = r2->Ok_0@;
            let (m1, s1) = choose|m: TransitionModel, s: Seq<u64>|
                builds(packages, m) && #[trigger] converged(m, d, n, threshold, limit, s) && ranked(
                    v1,
                    s,
                );
            let (m2, s2) = choose|m: TransitionModel, s: Seq<u64>|
                builds(packages, m) && #[trigger] converged(m, d, n, threshold, limit, s) && ranked(
                    v2,
                    s,
                );
            let k1 = choose|k: nat|
                1 <= k <= limit && #[trigger] settled(m1, d, n, threshold, k) && s1 == rank_after(
                    m1,
                    d,
                    n,
                    k,
                ) && forall|e: nat| 1 <= e < k ==> !#[trigger] settled(m1, d, n, threshold, e);
            let k2 = choose|k: nat|
                1 <= k <= limit && #[trigger] settled(m2, d, n, threshold, k) && s2 == rank_after(
                    m2,
                    d,
                    n,
                    k,
                ) && forall|e: nat| 1 <= e < k ==> !#[trigger] settled(m2, d, n, threshold, e);
            lemma_rank_after_agrees(packages, m1, m2, d, (k1 - 1) as nat);
            lemma_rank_after_agrees(packages, m1, m2, d, k1);
            lemma_rank_after_agrees(packages, m1, m2, d, (k2 - 1) as nat);
            lemma_rank_after_agrees(packages, m1, m2, d, k2);
            assert(settled(m2, d, n, threshold, k1));
            assert(settled(m1, d, n, threshold, k2));
            assert(k1 == k2);
            assert(s1 == s2);
            lemma_ranked_unique(v1, v2, s1, v1.len() - 1);
            assert(v1 =~= v2);
        } else if r1 is Ok {
            let v1 = r1->Ok_0@;
            let (m1, s1) = choose|m: TransitionModel, s: Seq<u64>|
                builds(packages, m) && #[trigger] converged(m, d, n, threshold, limit, s) && ranked(
                    v1,
                    s,
                );
            let m2 = choose|m: TransitionModel|
                #[trigger] builds(packages, m) && !settles_by(m, d, n, threshold, limit);
            let k1 = choose|k: nat|
                1 <= k <= limit && #[trigger] settled(m1, d, n, threshold, k) && s1 == rank_after(
                    m1,
                    d,
                    n,
                    k,
                ) && forall|e: nat| 1 <= e < k ==> !#[trigger] settled(m1, d, n, threshold, e);
            lemma_rank_after_agrees(packages, m1, m2, d, (k1 - 1) as nat);
            lemma_rank_after_agrees(packages, m1, m2, d, k1);
            assert(settled(m2, d, n, threshold, k1));
        } else if r2 is Ok {
            let v2 = r2->Ok_0@;
            let (m2, s2) = choose|m: TransitionModel, s: Seq<u64>|
                builds(packages, m) && #[trigger] converged(m, d, n, threshold, limit, s) && ranked(
                    v2,
                    s,
                );
            let m1 = choose|m: TransitionModel|
                #[trigger] builds(packages, m) && !settles_by(m, d, n, threshold, limit);
            let k2 = choose|k: nat|
                1 <= k <= limit && #[trigger] settled(m2, d, n, threshold, k) && s2 == rank_after(
                    m2,
                    d,
                    n,
                    k,
                ) && forall|e: nat| 1 <= e < k ==> !#[trigger] settled(m2, d, n, threshold, e);
            lemma_rank_after_agrees(packages, m1, m2, d, (k2 - 1) as nat);
            lemma_rank_after_agrees(packages, m1, m2, d, k2);
            assert(settled(m1, d, n, threshold, k2));
        }
    } else if n == 1 {
        assert(r1->Ok_0@ == r2->Ok_0@);
    }
}

/// How many positions below `m` the row holds.
pub open spec fn hits(row: Seq<usize>, m: int) -> int
    decreases m,
{
    if m <= 0 {
        0
    } else {
        hits(row, m - 1) + if row.contains((m - 1) as usize) {
            1int
        } else {
            0int
        }
    }
}

proof fn lemma_hits_last(row: Seq<usize>, m: int)
    requires
        row.len() > 0,
        row.no_duplicates(),
        0 <= m <= usize::MAX + 1,
    ensures
        hits(row, m) == hits(row.drop_last(), m) + if (row.last() as int) < m {
            1int
        } else {
            0int
        },
    decreases m,
{
    let rest = row.drop_last();
    if m > 0 {
        lemma_hits_last(row, m - 1);
        let j = (m - 1) as usize;
        assert(row.contains(j) <==> rest.contains(j) || row.last() == j) by {
            if row.contains(j) {
                let w = choose|w: int| 0 <= w < row.len() && row[w] == j;
                if w < rest.len() {
                    assert(rest[w] == j);
                }
            }
            if rest.contains(j) {
                let w = choose|w: int| 0 <= w < rest.len() && rest[w] == j;
                assert(row[w] == j);
            }
            if row.last() == j {
                assert(row[row.len() - 1] == j);
            }
        }
        if row.last() == j {
            assert(!rest.contains(j)) by {
                if rest.contains(j) {
                    let w = choose|w: int| 0 <= w < rest.len() && rest[w] == j;
                    assert(row[w] == row[row.len() - 1]);
                }
            }
        }
    }
}

proof fn lemma_hits_full(row: Seq<usize>, n: int)
    requires
        row.no_duplicates(),
        0 <= n <= usize::MAX,
        forall|m: int| 0 <= m < row.len() ==> #[trigger] row[m] < n,
    ensures
        hits(row, n) == row.len(),
    decreases row.len(),
{
    if row.len() > 0 {
        let rest = row.drop_last();
        assert(rest.no_duplicates()) by {
            assert forall|a: int, b: int| 0 <= a < b < rest.len() implies rest[a] != rest[b] by {
                assert(rest[a] == row[a] && rest[b] == row[b]);
            }
        }
        assert forall|m: int| 0 <= m < rest.len() implies #[trigger] rest[m] < n by {
            assert(rest[m] == row[m]);
        }
        lemma_hits_full(rest, n);
        lemma_hits_last(row, n);
        assert(row.last() == row[row.len() - 1]);
    } else {
        lemma_hits_empty(row, n);
    }
}

proof fn lemma_hits_empty(row: Seq<usize>, m: int)
    requires
        row.len() == 0,
    ensures
        hits(row, m) == 0,
    decreases m,
{
    if m > 0 {
        lemma_hits_empty(row, m - 1);
    }
}

/// The mass received along edges from the first `p` packages by the
/// positions below `m`.
pub open spec fn inflow_total(model: TransitionModel, rank: Seq<u64>, d: Damping, p: int, m: int) -> int
    decreases m,
{
    if m <= 0 {
        0
    } else {
        inflow_total(model, rank, d, p, m - 1) + inflow(model, rank, d, p, m - 1)
    }
}

proof fn lemma_share_facts(model: TransitionModel, rank: Seq<u64>, d: Damping, p: int)
    requires
        d.wf(),
        0 <= p < rank.len(),
    ensures
        0 <= share(model, rank, d, p),
        share(model, rank, d, p) * model.row(p).len() <= rank[p],
{
    let k = model.row(p).len() as int;
    if k > 0 {
        lemma_share_bound(rank[p], d, k);
        let g = give(rank[p], d);
        assert(g / k >= 0) by (nonlinear_arith)
            requires
                g >= 0,
                k > 0,
        ;
    }
}

proof fn lemma_inflow_total_step(model: TransitionModel, rank: Seq<u64>, d: Damping, p: int, m: int)
    requires
        p >= 0,
    ensures
        inflow_total(model, rank, d, p + 1, m) == inflow_total(model, rank, d, p, m) + share(
            model,
            rank,
            d,
            p,
        ) * hits(model.row(p), m),
    decreases m,
{
    if m > 0 {
        lemma_inflow_total_step(model, rank, d, p, m - 1);
        let s = share(model, rank, d, p);
        let h = hits(model.row(p), m - 1);
        assert(s * (h + 1) == s * h + s) by (nonlinear_arith);
    }
}

proof fn lemma_inflow_total(model: TransitionModel, rank: Seq<u64>, d: Damping, p: int)
    requires
        0 <= p <= rank.len() <= usize::MAX,
        model.wf(rank.len()),
    ensures
        inflow_total(model, rank, d, p, rank.len() as int) == sent(model, rank, d, p),
    decreases p,
{
    let n = rank.len() as int;
    if p > 0 {
        lemma_inflow_total(model, rank, d, p - 1);
        lemma_inflow_total_step(model, rank, d, p - 1, n);
        lemma_hits_full(model.row(p - 1), n);
    } else {
        lemma_inflow_total_zero(model, rank, d, n);
    }
}

proof fn lemma_inflow_total_zero(model: TransitionModel, rank: Seq<u64>, d: Damping, m: int)
    ensures
        inflow_total(model, rank, d, 0, m) == 0,
    decreases m,
{
    if m > 0 {
        lemma_inflow_total_zero(model, rank, d, m - 1);
    }
}

proof fn lemma_inflow_bounds(model: TransitionModel, rank: Seq<u64>, d: Damping, p: int, j: int)
    requires
        d.wf(),
        0 <= p <= rank.len(),
    ensures
        0 <= inflow(model, rank, d, p, j),
    decreases p,
{
    if p > 0 {
        lemma_inflow_bounds(model, rank, d, p - 1, j);
        lemma_share_facts(model, rank, d, p - 1);
    }
}

proof fn lemma_inflow_le_total(model: TransitionModel, rank: Seq<u64>, d: Damping, j: int, m: int)
    requires
        d.wf(),
        0 <= j < m,
    ensures
        0 <= inflow(model, rank, d, rank.len() as int, j) <= inflow_total(
            model,
            rank,
            d,
            rank.len() as int,
            m,
        ),
    decreases m,
{
    lemma_inflow_bounds(model, rank, d, rank.len() as int, m - 1);
    if j < m - 1 {
        lemma_inflow_le_total(model, rank, d, j, m - 1);
    } else {
        lemma_inflow_total_nonneg(model, rank, d, m - 1);
    }
}

proof fn lemma_inflow_total_nonneg(model: TransitionModel, rank: Seq<u64>, d: Damping, m: int)
    requires
        d.wf(),
    ensures
        0 <= inflow_total(model, rank, d, rank.len() as int, m),
    decreases m,
{
    if m > 0 {
        lemma_inflow_total_nonneg(model, rank, d, m - 1);
        lemma_inflow_bounds(model, rank, d, rank.len() as int, m - 1);
    }
}

proof fn lemma_sent_bound(model: TransitionModel, rank: Seq<u64>, d: Damping, p: int)
    requires
        d.wf(),
        0 <= p <= rank.len(),
    ensures
        0 <= sent(model, rank, d, p) <= sum_upto(rank, p),
    decreases p,
{
    if p > 0 {
        lemma_sent_bound(model, rank, d, p - 1);
        lemma_share_facts(model, rank, d, p - 1);
    }
}

/// The sum of the first `m` even shares of `amount` over `n` positions.
pub open spec fn even_total(amount: int, n: int, m: int) -> int
    decreases m,
{
    if m <= 0 {
        0
    } else {
        even_total(amount, n, m - 1) + even_share(amount, n, m - 1)
    }
}

proof fn lemma_even_total(amount: int, n: int, m: int)
    requires
        amount >= 0,
        n > 0,
        0 <= m <= n,
    ensures
        even_total(amount, n, m) == m * (amount / n) + if m < amount % n {
            m
        } else {
            amount % n
        },
    decreases m,
{
    let q = amount / n;
    let r = amount % n;
    assert(0 <= r) by (nonlinear_arith)
        requires
            n > 0,
            r == amount % n,
    ;
    if m > 0 {
        lemma_even_total(amount, n, m - 1);
        assert(m * q == (m - 1) * q + q) by (nonlinear_arith);
        assert(even_share(amount, n, m - 1) == q + if m - 1 < r {
            1int
        } else {
            0int
        });
    } else {
        assert(m * q == 0) by (nonlinear_arith)
            requires
                m == 0,
        ;
    }
}

proof fn lemma_next_sum(model: TransitionModel, rank: Seq<u64>, d: Damping, m: int)
    requires
        0 <= m <= rank.len(),
        forall|j: int|
            0 <= j < rank.len() ==> 0 <= #[trigger] next_entry(model, rank, d, j) <= u64::MAX,
    ensures
        sum_upto(next_rank(model, rank, d), m) == inflow_total(
            model,
            rank,
            d,
            rank.len() as int,
            m,
        ) + even_total(pool(model, rank, d), rank.len() as int, m),
    decreases m,
{
    if m > 0 {
        lemma_next_sum(model, rank, d, m - 1);
        assert(next_rank(model, rank, d)[m - 1] == next_entry(model, rank, d, m - 1));
    }
}

/// One round of the iteration keeps the total mass: when every row of the
/// model is a set of positions, the rank vector after the round adds up to
/// what the one before did.
pub proof fn lemma_round_keeps_mass(model: TransitionModel, rank: Seq<u64>, d: Damping)
    requires
        0 < rank.len() <= usize::MAX,
        model.wf(rank.len()),
        d.wf(),
        total(rank) <= SCALE,
    ensures
        total(next_rank(model, rank, d)) == total(rank),
{
    let n = rank.len() as int;
    let p = pool(model, rank, d);
    lemma_sent_bound(model, rank, d, n);
    lemma_inflow_total(model, rank, d, n);
    assert(p >= 0);
    assert forall|j: int| 0 <= j < n implies 0 <= #[trigger] next_entry(model, rank, d, j)
        <= u64::MAX by {
        lemma_inflow_le_total(model, rank, d, j, n);
        assert(p / n <= p) by (nonlinear_arith)
            requires
                p >= 0,
                n > 0,
        ;
        assert(p / n >= 0) by (nonlinear_arith)
            requires
                p >= 0,
                n > 0,
        ;
    }
    lemma_next_sum(model, rank, d, n);
    lemma_even_total(p, n, n);
    lemma_fundamental_div_mod(p, n);
    assert(p % n < n) by (nonlinear_arith)
        requires
            n > 0,
    ;
    assert(n * (p / n) + p % n == p);
}

proof fn lemma_initial_sum(n: int, m: int)
    requires
        0 <= m <= n,
    ensures
        sum_upto(initial_rank(n as nat), m) == even_total(SCALE as int, n, m),
    decreases m,
{
    if m > 0 {
        lemma_initial_sum(n, m - 1);
        let s = SCALE as int;
        assert(s / n <= s && s / n >= 0) by (nonlinear_arith)
            requires
                n > 0,
                s >= 0,
        ;
        assert(initial_rank(n as nat)[m - 1] == even_share(s, n, m - 1));
    }
}

/// At every round the rank vector holds the whole mass, `SCALE`, which
/// stands for 1.0.
pub proof fn lemma_mass_conserved(model: TransitionModel, d: Damping, n: nat, k: nat)
    requires
        0 < n <= usize::MAX,
        model.wf(n),
        d.wf(),
    ensures
        rank_after(model, d, n, k).len() == n,
        total(rank_after(model, d, n, k)) == SCALE,
    decreases k,
{
    if k == 0 {
        let s = SCALE as int;
        lemma_initial_sum(n as int, n as int);
        lemma_even_total(s, n as int, n as int);
        lemma_fundamental_div_mod(s, n as int);
        assert(s % (n as int) < n) by (nonlinear_arith)
            requires
                n > 0,
        ;
    } else {
        lemma_mass_conserved(model, d, n, (k - 1) as nat);
        lemma_round_keeps_mass(model, rank_after(model, d, n, (k - 1) as nat), d);
    }
}

} // verus!
