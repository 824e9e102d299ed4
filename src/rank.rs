//! Damped power iteration in fixed point. A rank vector holds integers in
//! units of `1 / SCALE`, and the whole mass is always exactly `SCALE`: each
//! round, every package passes on `damping` of its rank, split evenly over its
//! row and rounded down, and whatever is not passed on (the undamped part and
//! the rounding remainders) is spread evenly over all packages.

use vstd::prelude::*;

use vstd::arithmetic::div_mod::lemma_fundamental_div_mod;

use crate::error::RankError;
use crate::graph::{build_model, builds, TransitionModel};
use crate::package::{unique_names, Package};

verus! {

/// The whole rank mass: a score of `SCALE` stands for 1.0.
pub const SCALE: u64 = 1_000_000_000_000;

/// The largest denominator a damping factor may have.
pub const MAX_DAMPING_DEN: u64 = 1_000_000;

/// Convergence threshold on the L1 change between rounds: 1e-6 of the mass.
pub const DEFAULT_THRESHOLD: u64 = 1_000_000;

/// The most rounds a ranking runs before it gives up.
pub const MAX_ROUNDS: u64 = 10_000;

/// The damping factor `num / den`: the part of its rank that a package passes
/// along its edges each round.
#[derive(Debug, Clone, Copy, PartialEq, Eq, Structural)]
pub struct Damping {
    pub num: u64,
    pub den: u64,
}

impl Damping {
    pub open spec fn wf(self) -> bool {
        0 < self.den <= MAX_DAMPING_DEN && self.num <= self.den
    }

    /// The usual damping factor, 0.85.
    pub fn standard() -> (r: Damping)
        ensures
            r.num == 85,
            r.den == 100,
            r.wf(),
    {
        Damping { num: 85, den: 100 }
    }
}

/// The sum of the first `n` entries of `s`.
pub open spec fn sum_upto(s: Seq<u64>, n: int) -> int
    decreases n,
{
    if n <= 0 {
        0
    } else {
        sum_upto(s, n - 1) + s[n - 1]
    }
}

/// The sum of all entries of `s`.
pub open spec fn total(s: Seq<u64>) -> int {
    sum_upto(s, s.len() as int)
}

proof fn lemma_sum_update(s: Seq<u64>, i: int, v: u64, n: int)
    requires
        0 <= i < s.len(),
        0 <= n <= s.len(),
    ensures
        sum_upto(s.update(i, v), n) == sum_upto(s, n) + if i < n {
            v - s[i]
        } else {
            0int
        },
    decreases n,
{
    if n > 0 {
        lemma_sum_update(s, i, v, n - 1);
    }
}

proof fn lemma_sum_monotone(s: Seq<u64>, a: int, b: int)
    requires
        0 <= a <= b <= s.len(),
    ensures
        0 <= sum_upto(s, a) <= sum_upto(s, b),
    decreases b,
{
    if b > a {
        lemma_sum_monotone(s, a, b - 1);
    } else if a > 0 {
        lemma_sum_monotone(s, a - 1, a - 1);
    }
}

proof fn lemma_entry_le_total(s: Seq<u64>, i: int)
    requires
        0 <= i < s.len(),
    ensures
        s[i] <= total(s),
{
    lemma_sum_monotone(s, 0, i);
    lemma_sum_monotone(s, i + 1, s.len() as int);
}

/// The share that position `j` of `n` gets when `amount` is spread evenly:
/// `amount / n`, and one more for the first `amount % n` positions.
pub open spec fn even_share(amount: int, n: int, j: int) -> int {
    amount / n + if j < amount % n {
        1int
    } else {
        0int
    }
}

/// Adds `amount` to `acc`, spread evenly over its positions.
fn spread_evenly(acc: &mut Vec<u64>, amount: u64)
    requires
        old(acc)@.len() > 0,
        amount <= SCALE,
        forall|j: int| 0 <= j < old(acc)@.len() ==> #[trigger] old(acc)@[j] <= SCALE,
    ensures
        final(acc)@.len() == old(acc)@.len(),
        forall|j: int|
            0 <= j < old(acc)@.len() ==> #[trigger] final(acc)@[j] == old(acc)@[j] + even_share(
                amount as int,
                old(acc)@.len() as int,
                j,
            ),
        total(final(acc)@) == total(old(acc)@) + amount,
{
    let n = acc.len();
    let base = amount / (n as u64);
    let extra = amount % (n as u64);
    let ghost start = acc@;
    let mut j: usize = 0;
    while j < n
        invariant
            n == start.len(),
            n > 0,
            acc@.len() == n,
            j <= n,
            base == amount as int / n as int,
            extra == amount as int % n as int,
            amount <= SCALE,
            forall|q: int| 0 <= q < n ==> #[trigger] start[q] <= SCALE,
            forall|q: int|
                0 <= q < n ==> #[trigger] acc@[q] == start[q] + if q < j {
                    even_share(amount as int, n as int, q)
                } else {
                    0int
                },
            total(acc@) == total(start) + j * base + if j < extra {
                j as int
            } else {
                extra as int
            },
        decreases n - j,
    {
        let add: u64 = if (j as u64) < extra {
            base + 1
        } else {
            base
        };
        let ghost before = acc@;
        proof {
            assert(base <= amount) by (nonlinear_arith)
                requires
                    base == amount as int / n as int,
                    n > 0,
            ;
        }
        acc.set(j, acc[j] + add);
        proof {
            lemma_sum_update(before, j as int, acc@[j as int], n as int);
            assert(acc@ == before.update(j as int, acc@[j as int]));
            assert((j + 1) * base == j * base + base) by (nonlinear_arith);
        }
        j += 1;
    }
    proof {
        lemma_fundamental_div_mod(amount as int, n as int);
        assert(n * base + extra == amount) by (nonlinear_arith)
            requires
                amount == n * (amount as int / n as int) + (amount as int % n as int),
                base == amount as int / n as int,
                extra == amount as int % n as int,
        ;
        assert(extra < n) by (nonlinear_arith)
            requires
                extra == amount as int % n as int,
                n > 0,
        ;
    }
}

/// What a package of rank `r` passes along its edges in one round:
/// `r * num / den`, rounded down.
pub open spec fn give(r: u64, d: Damping) -> int {
    (r as int * d.num as int) / d.den as int
}

/// What package `p` sends to each position of its row in one round; the
/// rounding remainder, like the undamped part, goes back to everyone evenly.
pub open spec fn share(model: TransitionModel, rank: Seq<u64>, d: Damping, p: int) -> int {
    if model.row(p).len() == 0 {
        0
    } else {
        give(rank[p], d) / model.row(p).len() as int
    }
}

/// The mass sent along edges by the first `n` packages.
pub open spec fn sent(model: TransitionModel, rank: Seq<u64>, d: Damping, n: int) -> int
    decreases n,
{
    if n <= 0 {
        0
    } else {
        sent(model, rank, d, n - 1) + share(model, rank, d, n - 1) * model.row(n - 1).len()
    }
}

/// The mass that position `j` receives along edges from the first `n`
/// packages.
pub open spec fn inflow(model: TransitionModel, rank: Seq<u64>, d: Damping, n: int, j: int) -> int
    decreases n,
{
    if n <= 0 {
        0
    } else {
        inflow(model, rank, d, n - 1, j) + if model.row(n - 1).contains(j as usize) {
            share(model, rank, d, n - 1)
        } else {
            0int
        }
    }
}

/// The mass not sent along edges, which is spread evenly over all positions.
pub open spec fn pool(model: TransitionModel, rank: Seq<u64>, d: Damping) -> int {
    total(rank) - sent(model, rank, d, rank.len() as int)
}

/// The rank of position `j` after one round.
pub open spec fn next_entry(model: TransitionModel, rank: Seq<u64>, d: Damping, j: int) -> int {
    inflow(model, rank, d, rank.len() as int, j) + even_share(
        pool(model, rank, d),
        rank.len() as int,
        j,
    )
}

/// The rank vector after one round of damped power iteration.
pub open spec fn next_rank(model: TransitionModel, rank: Seq<u64>, d: Damping) -> Seq<u64> {
    Seq::new(rank.len(), |j: int| next_entry(model, rank, d, j) as u64)
}

/// The starting rank vector: the whole mass spread evenly over `n` positions.
pub open spec fn initial_rank(n: nat) -> Seq<u64> {
    Seq::new(n, |j: int| even_share(SCALE as int, n as int, j) as u64)
}

pub(crate) proof fn lemma_share_bound(r: u64, d: Damping, k: int)
    requires
        d.wf(),
        k > 0,
    ensures
        0 <= (give(r, d) / k) * k <= give(r, d) <= r,
{
    let g = give(r, d);
    assert(0 <= g <= r) by (nonlinear_arith)
        requires
            g == (r as int * d.num as int) / d.den as int,
            0 < d.den,
            d.num <= d.den,
            r >= 0,
    ;
    assert(0 <= (g / k) * k <= g) by (nonlinear_arith)
        requires
            k > 0,
            g >= 0,
    ;
}

fn zeros(n: usize) -> (r: Vec<u64>)
    ensures
        r@.len() == n,
        forall|j: int| 0 <= j < n ==> #[trigger] r@[j] == 0,
        total(r@) == 0,
{
    let mut r: Vec<u64> = Vec::new();
    while r.len() < n
        invariant
            r@.len() <= n,
            forall|j: int| 0 <= j < r@.len() ==> #[trigger] r@[j] == 0,
            total(r@) == 0,
        decreases n - r@.len(),
    {
        proof {
            lemma_prefix_sum_eq(r@.push(0), r@, r@.len() as int);
        }
        r.push(0);
    }
    r
}

/// The rank vector every ranking starts from.
pub fn start_rank(n: usize) -> (r: Vec<u64>)
    requires
        n > 0,
    ensures
        r@ == initial_rank(n as nat),
        total(r@) == SCALE,
{
    let mut r = zeros(n);
    spread_evenly(&mut r, SCALE);
    assert(r@ =~= initial_rank(n as nat));
    r
}

proof fn lemma_prefix_sum_eq(a: Seq<u64>, b: Seq<u64>, m: int)
    requires
        0 <= m <= a.len(),
        m <= b.len(),
        forall|q: int| 0 <= q < m ==> a[q] == b[q],
    ensures
        sum_upto(a, m) == sum_upto(b, m),
    decreases m,
{
    if m > 0 {
        lemma_prefix_sum_eq(a, b, m - 1);
    }
}

/// One round of damped power iteration: every package sends `give` of its
/// rank, split evenly over its row, and the rest is spread over everyone.
pub fn step(model: &TransitionModel, rank: &Vec<u64>, damping: &Damping) -> (r: Vec<u64>)
    requires
        rank@.len() > 0,
        model.wf(rank@.len()),
        damping.wf(),
        total(rank@) <= SCALE,
    ensures
        r@ == next_rank(*model, rank@, *damping),
        total(r@) == total(rank@),
{
    let n = rank.len();
    let ghost m = *model;
    let ghost d = *damping;
    let mut acc = zeros(n);
    let mut kept: u64 = 0;
    let mut p: usize = 0;
    while p < n
        invariant
            n == rank@.len(),
            m == *model,
            d == *damping,
            model.wf(n as nat),
            damping.wf(),
            total(rank@) <= SCALE,
            p <= n,
            acc@.len() == n,
            forall|j: int| 0 <= j < n ==> #[trigger] acc@[j] == inflow(m, rank@, d, p as int, j),
            total(acc@) == sent(m, rank@, d, p as int),
            kept == sum_upto(rank@, p as int) - sent(m, rank@, d, p as int),
            sent(m, rank@, d, p as int) >= 0,
        decreases n - p,
    {
        let row = &model.rows[p];
        let k = row.len();
        let rp = rank[p];
        proof {
            lemma_sum_monotone(rank@, p as int + 1, n as int);
            lemma_sum_monotone(rank@, 0, p as int);
        }
        if k > 0 {
            proof {
                lemma_share_bound(rp, d, k as int);
                assert(rp * damping.num <= SCALE * MAX_DAMPING_DEN) by (nonlinear_arith)
                    requires
                        rp <= SCALE,
                        damping.num <= MAX_DAMPING_DEN,
                ;
            }
            let g = rp * damping.num / damping.den;
            let s = g / (k as u64);
            assert(s == share(m, rank@, d, p as int));
            let ghost base = acc@;
            let mut q: usize = 0;
            while q < k
                invariant
                    n == rank@.len(),
                    model.wf(n as nat),
                    row == model.rows@[p as int],
                    p < n,
                    k == row@.len(),
                    q <= k,
                    acc@.len() == n,
                    base.len() == n,
                    s * k <= g,
                    sent(m, rank@, d, p as int) + g <= SCALE,
                    forall|j: int|
                        0 <= j < n ==> #[trigger] acc@[j] == base[j] + if row@.subrange(
                            0,
                            q as int,
                        ).contains(j as usize) {
                            s as int
                        } else {
                            0int
                        },
                    total(acc@) == total(base) + q * s,
                    total(base) == sent(m, rank@, d, p as int),
                decreases k - q,
            {
                let t = row[q];
                proof {
                    assert(model.row(p as int)[q as int] == t);
                    assert(t < n);
                    lemma_entry_le_total(acc@, t as int);
                    assert(q * s + s <= k * s) by (nonlinear_arith)
                        requires
                            q < k,
                            s >= 0,
                    ;
                    assert(!row@.subrange(0, q as int).contains(t)) by {
                        if row@.subrange(0, q as int).contains(t) {
                            let w = choose|w: int|
                                0 <= w < q && row@.subrange(0, q as int)[w] == t;
                            assert(row@[w] == row@[q as int]);
                            assert(model.row(p as int).no_duplicates());
                        }
                    }
                }
                let ghost before = acc@;
                acc.set(t, acc[t] + s);
                proof {
                    lemma_sum_update(before, t as int, acc@[t as int], n as int);
                    assert(acc@ == before.update(t as int, acc@[t as int]));
                    assert((q + 1) * s == q * s + s) by (nonlinear_arith);
                    assert forall|j: int| 0 <= j < n implies #[trigger] acc@[j] == base[j]
                        + if row@.subrange(0, q + 1).contains(j as usize) {
                        s as int
                    } else {
                        0int
                    } by {
                        let sub = row@.subrange(0, q + 1);
                        assert(sub == row@.subrange(0, q as int).push(t));
                        if j == t {
                            assert(sub[q as int] == t);
                        } else {
                            assert(sub.contains(j as usize) <==> row@.subrange(
                                0,
                                q as int,
                            ).contains(j as usize)) by {
                                if sub.contains(j as usize) {
                                    let w = choose|w: int| 0 <= w < sub.len() && sub[w] == j as usize;
                                    assert(row@.subrange(0, q as int)[w] == j as usize);
                                }
                                if row@.subrange(0, q as int).contains(j as usize) {
                                    let w = choose|w: int|
                                        0 <= w < q && row@.subrange(0, q as int)[w] == j as usize;
                                    assert(sub[w] == j as usize);
                                }
                            }
                        }
                    }
                }
                q += 1;
            }
            proof {
                assert(row@.subrange(0, k as int) == row@);
                assert(m.row(p as int).len() == k);
                assert(k * s == s * k) by (nonlinear_arith);
                assert(total(acc@) == sent(m, rank@, d, p as int + 1));
            }
            kept = kept + (rp - s * (k as u64));
        } else {
            kept = kept + rp;
        }
        proof {
            assert forall|j: int| 0 <= j < n implies #[trigger] acc@[j] == inflow(
                m,
                rank@,
                d,
                p as int + 1,
                j,
            ) by {}
        }
        p += 1;
    }
    proof {
        assert forall|j: int| 0 <= j < n implies #[trigger] acc@[j] <= SCALE by {
            lemma_entry_le_total(acc@, j);
        }
        assert(sum_upto(rank@, n as int) == total(rank@));
    }
    spread_evenly(&mut acc, kept);
    assert(acc@ =~= next_rank(m, rank@, d));
    acc
}

/// The L1 distance between the first `n` entries of `a` and `b`.
pub open spec fn l1_upto(a: Seq<u64>, b: Seq<u64>, n: int) -> int
    decreases n,
{
    if n <= 0 {
        0
    } else {
        l1_upto(a, b, n - 1) + if a[n - 1] >= b[n - 1] {
            a[n - 1] - b[n - 1]
        } else {
            b[n - 1] - a[n - 1]
        }
    }
}

/// The L1 distance between two rank vectors.
pub open spec fn l1(a: Seq<u64>, b: Seq<u64>) -> int {
    l1_upto(a, b, a.len() as int)
}

proof fn lemma_l1_bound(a: Seq<u64>, b: Seq<u64>, n: int)
    requires
        0 <= n <= a.len(),
        a.len() == b.len(),
    ensures
        0 <= l1_upto(a, b, n) <= sum_upto(a, n) + sum_upto(b, n),
    decreases n,
{
    if n > 0 {
        lemma_l1_bound(a, b, n - 1);
        lemma_sum_monotone(a, 0, n - 1);
        lemma_sum_monotone(b, 0, n - 1);
    }
}

/// The total change between two rank vectors of equal length.
pub fn l1_delta(a: &Vec<u64>, b: &Vec<u64>) -> (r: u64)
    requires
        a@.len() == b@.len(),
        total(a@) <= SCALE,
        total(b@) <= SCALE,
    ensures
        r == l1(a@, b@),
{
    let n = a.len();
    let mut r: u64 = 0;
    let mut j: usize = 0;
    while j < n
        invariant
            n == a@.len(),
            a@.len() == b@.len(),
            total(a@) <= SCALE,
            total(b@) <= SCALE,
            j <= n,
            r == l1_upto(a@, b@, j as int),
        decreases n - j,
    {
        proof {
            lemma_l1_bound(a@, b@, j as int + 1);
            lemma_sum_monotone(a@, j as int + 1, n as int);
            lemma_sum_monotone(b@, j as int + 1, n as int);
        }
        if a[j] >= b[j] {
            r = r + (a[j] - b[j]);
        } else {
            r = r + (b[j] - a[j]);
        }
        j += 1;
    }
    r
}

/// The rank vector over `n` packages after `k` rounds.
pub open spec fn rank_after(model: TransitionModel, d: Damping, n: nat, k: nat) -> Seq<u64>
    decreases k,
{
    if k == 0 {
        initial_rank(n)
    } else {
        next_rank(model, rank_after(model, d, n, (k - 1) as nat), d)
    }
}

/// Round `k` (from one) changed the rank vector by no more than `threshold`.
pub open spec fn settled(model: TransitionModel, d: Damping, n: nat, threshold: u64, k: nat) -> bool {
    l1(rank_after(model, d, n, (k - 1) as nat), rank_after(model, d, n, k)) <= threshold
}

/// Some round from the first to round `limit` settled.
pub open spec fn settles_by(
    model: TransitionModel,
    d: Damping,
    n: nat,
    threshold: u64,
    limit: nat,
) -> bool {
    exists|k: nat| 1 <= k <= limit && #[trigger] settled(model, d, n, threshold, k)
}

/// The rank vector of the first round that settled, if one up to `limit` did.
pub open spec fn converged(
    model: TransitionModel,
    d: Damping,
    n: nat,
    threshold: u64,
    limit: nat,
    v: Seq<u64>,
) -> bool {
    exists|k: nat|
        1 <= k <= limit && #[trigger] settled(model, d, n, threshold, k) && v == rank_after(
            model,
            d,
            n,
            k,
        ) && forall|e: nat| 1 <= e < k ==> !#[trigger] settled(model, d, n, threshold, e)
}

/// Round `e` is reached: no round before it settled.
pub open spec fn reached(model: TransitionModel, d: Damping, n: nat, threshold: u64, e: nat) -> bool {
    forall|f: nat| 1 <= f < e ==> !#[trigger] settled(model, d, n, threshold, f)
}

/// Runs rounds of damped power iteration from the even start until one
/// changes the vector by at most `threshold`, for at most `max_rounds`
/// rounds. Every vector it passes through holds the whole mass.
pub fn iterate(model: &TransitionModel, damping: &Damping, threshold: u64, max_rounds: u64) -> (r:
    Result<Vec<u64>, RankError>)
    requires
        model.rows@.len() > 0,
        model.wf(model.rows@.len()),
        damping.wf(),
    ensures
        match r {
            Ok(v) => {
                &&& converged(
                    *model,
                    *damping,
                    model.rows@.len(),
                    threshold,
                    max_rounds as nat,
                    v@,
                )
                &&& total(v@) == SCALE
            },
            Err(e) => {
                &&& e == RankError::DidNotConverge
                &&& !settles_by(*model, *damping, model.rows@.len(), threshold, max_rounds as nat)
            },
        },
        forall|e: nat|
            e <= max_rounds && reached(*model, *damping, model.rows@.len(), threshold, e) ==> total(
                #[trigger] rank_after(*model, *damping, model.rows@.len(), e),
            ) == SCALE,
{
    let n = model.rows.len();
    let ghost m = *model;
    let ghost d = *damping;
    let mut cur = start_rank(n);
    let mut k: u64 = 0;
    while k < max_rounds
        invariant
            n == model.rows@.len(),
            n > 0,
            m == *model,
            d == *damping,
            model.wf(n as nat),
            damping.wf(),
            k <= max_rounds,
            cur@ == rank_after(m, d, n as nat, k as nat),
            cur@.len() == n,
            total(cur@) == SCALE,
            forall|e: nat| 1 <= e <= k ==> !#[trigger] settled(m, d, n as nat, threshold, e),
            forall|e: nat| e <= k ==> total(#[trigger] rank_after(m, d, n as nat, e)) == SCALE,
        decreases max_rounds - k,
    {
        let next = step(model, &cur, damping);
        let delta = l1_delta(&cur, &next);
        k = k + 1;
        assert(next@ == rank_after(m, d, n as nat, k as nat));
        if delta <= threshold {
            assert(settled(m, d, n as nat, threshold, k as nat));
            assert forall|e: nat|
                e <= max_rounds && reached(m, d, n as nat, threshold, e) implies e <= k by {
                if e > k {
                    assert(settled(m, d, n as nat, threshold, k as nat));
                }
            }
            return Ok(next);
        }
        cur = next;
    }
    Err(RankError::DidNotConverge)
}

/// Entry `a` comes before entry `b` of a ranking: by higher score, then by
/// lower position.
pub open spec fn before(a: (usize, u64), b: (usize, u64)) -> bool {
    a.1 > b.1 || (a.1 == b.1 && a.0 < b.0)
}

/// `v` pairs every position of `scores` with its score, best first, ties by
/// position.
pub open spec fn ranked(v: Seq<(usize, u64)>, scores: Seq<u64>) -> bool {
    &&& v.len() == scores.len()
    &&& forall|i: int|
        0 <= i < v.len() ==> (#[trigger] v[i]).0 < scores.len() && v[i].1 == scores[v[i].0 as int]
    &&& forall|a: int, b: int| 0 <= a < b < v.len() ==> before(#[trigger] v[a], #[trigger] v[b])
    &&& forall|j: int| 0 <= j < scores.len() ==> #[trigger] lists(v, j)
}

/// Some entry of `v` is for position `j`.
pub open spec fn lists(v: Seq<(usize, u64)>, j: int) -> bool {
    exists|i: int| 0 <= i < v.len() && #[trigger] v[i].0 == j
}

/// Pairs each position with its score and orders the pairs best first.
pub fn order_by_score(scores: &Vec<u64>) -> (r: Vec<(usize, u64)>)
    ensures
        ranked(r@, scores@),
{
    let n = scores.len();
    let mut v: Vec<(usize, u64)> = Vec::new();
    let mut j: usize = 0;
    while j < n
        invariant
            n == scores@.len(),
            j <= n,
            v@.len() == j,
            forall|i: int|
                0 <= i < v@.len() ==> (#[trigger] v@[i]).0 < j && v@[i].1 == scores@[v@[i].0 as int],
            forall|a: int, b: int| 0 <= a < b < v@.len() ==> before(#[trigger] v@[a], #[trigger] v@[b]),
            forall|q: int| 0 <= q < j ==> #[trigger] lists(v@, q),
        decreases n - j,
    {
        let x = (j, scores[j]);
        let mut pos: usize = 0;
        while pos < v.len() && (v[pos].1 > x.1 || (v[pos].1 == x.1 && v[pos].0 < x.0))
            invariant
                pos <= v@.len(),
                forall|i: int| 0 <= i < pos ==> before(#[trigger] v@[i], x),
            decreases v@.len() - pos,
        {
            pos += 1;
        }
        let ghost old_v = v@;
        proof {
            if pos < old_v.len() {
                assert forall|i: int| pos <= i < old_v.len() implies before(x, #[trigger] old_v[i]) by {
                    if i > pos {
                        assert(before(old_v[pos as int], old_v[i]));
                    }
                }
            }
        }
        v.insert(pos, x);
        proof {
            old_v.insert_ensures(pos as int, x);
            assert forall|a: int, b: int| 0 <= a < b < v@.len() implies before(
                #[trigger] v@[a],
                #[trigger] v@[b],
            ) by {
                if b < pos {
                } else if b == pos {
                } else if a < pos {
                    assert(v@[b] == old_v[b - 1]);
                    assert(before(old_v[a], old_v[b - 1]));
                } else if a == pos {
                    assert(v@[b] == old_v[b - 1]);
                } else {
                    assert(v@[a] == old_v[a - 1]);
                    assert(v@[b] == old_v[b - 1]);
                    assert(before(old_v[a - 1], old_v[b - 1]));
                }
            }
            assert forall|i: int| 0 <= i < v@.len() implies (#[trigger] v@[i]).0 < j + 1
                && v@[i].1 == scores@[v@[i].0 as int] by {
                if i > pos {
                    assert(v@[i] == old_v[i - 1]);
                }
            }
            assert forall|q: int| 0 <= q < j + 1 implies #[trigger] lists(v@, q) by {
                if q == j {
                    assert(v@[pos as int].0 == q);
                } else {
                    assert(lists(old_v, q));
                    let i = choose|i: int| 0 <= i < old_v.len() && #[trigger] old_v[i].0 == q;
                    if i < pos {
                        assert(v@[i].0 == q);
                    } else {
                        assert(v@[i + 1].0 == q);
                    }
                }
            }
        }
        j += 1;
    }
    v
}

/// What ranking `packages` with `damping` and `threshold` yields.
pub open spec fn ranking_of(
    packages: Seq<Package>,
    damping: Damping,
    threshold: u64,
    r: Result<Vec<(usize, u64)>, RankError>,
) -> bool {
    let n = packages.len();
    if n == 0 {
        r == Err::<Vec<(usize, u64)>, RankError>(RankError::EmptyGraph)
    } else if n == 1 {
        r is Ok && r->Ok_0@ == seq![(0usize, SCALE)]
    } else {
        match r {
            Ok(v) => exists|model: TransitionModel, scores: Seq<u64>|
                builds(packages, model) && #[trigger] converged(
                    model,
                    damping,
                    n,
                    threshold,
                    MAX_ROUNDS as nat,
                    scores,
                ) && ranked(v@, scores),
            Err(e) => e == RankError::DidNotConverge && exists|model: TransitionModel|
                #[trigger] builds(packages, model) && !settles_by(
                    model,
                    damping,
                    n,
                    threshold,
                    MAX_ROUNDS as nat,
                ),
        }
    }
}

/// Ranks a collection of packages with distinct names: each entry of the
/// result is a package's position in `packages` and its score, where `SCALE`
/// stands for 1.0, best first. A lone package gets the whole mass at once.
pub fn rank(packages: &[Package], damping: &Damping, threshold: u64) -> (r: Result<
    Vec<(usize, u64)>,
    RankError,
>)
    requires
        unique_names(packages@),
        damping.wf(),
    ensures
        ranking_of(packages@, *damping, threshold, r),
{
    let model = match build_model(packages) {
        Ok(model) => model,
        Err(e) => {
            return Err(e);
        },
    };
    if packages.len() == 1 {
        let v: Vec<(usize, u64)> = vec![(0usize, SCALE)];
        assert(v@ =~= seq![(0usize, SCALE)]);
        return Ok(v);
    }
    match iterate(&model, damping, threshold, MAX_ROUNDS) {
        Ok(scores) => {
            let v = order_by_score(&scores);
            assert(builds(packages@, model));
            Ok(v)
        },
        Err(e) => {
            assert(builds(packages@, model));
            Err(e)
        },
    }
}

/// Ranks a collection of packages with distinct names with damping 0.85 and
/// threshold 1e-6.
pub fn cargo_rank(packages: &[Package]) -> (r: Result<Vec<(usize, u64)>, RankError>)
    requires
        unique_names(packages@),
    ensures
        ranking_of(packages@, Damping { num: 85, den: 100 }, DEFAULT_THRESHOLD, r),
{
    rank(packages, &Damping::standard(), DEFAULT_THRESHOLD)
}

} // verus!
