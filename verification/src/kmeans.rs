//! Seeded k-means clustering over perceptual colors.
//!
//! One run partitions a pixel sequence into `k` clusters, each with a
//! centroid color, and carries a quality score: the total squared
//! perceptual distance of every pixel to its nearest centroid (lower is
//! better). Runs are seeded deterministically, so a run is a pure function
//! of its pixels, its configuration and its seed.

use vstd::prelude::*;

use crate::color::{
    delta_e_sq, div_trunc, spec_delta_e_sq, Lab, COORD_BOUND, MAX_PAIR_DIST,
};

verus! {

/// Cap on the number of pixels one clustering run accepts; keeps the
/// quality score within `u64` range.
pub const PIXEL_MAX: usize = 4194304;

/// Every color of the sequence is well formed.
pub open spec fn all_wf(s: Seq<Lab>) -> bool {
    forall|i: int| 0 <= i < s.len() ==> (#[trigger] s[i]).wf()
}

/// Index of the centroid nearest to `p`; on ties the lowest index wins.
pub open spec fn nearest_centroid(cents: Seq<Lab>, p: Lab) -> int
    decreases cents.len(),
{
    if cents.len() <= 1 {
        0
    } else {
        let rest = nearest_centroid(cents.drop_last(), p);
        if spec_delta_e_sq(cents.last(), p) < spec_delta_e_sq(cents[rest], p) {
            cents.len() - 1
        } else {
            rest
        }
    }
}

pub proof fn lemma_nearest_in_range(cents: Seq<Lab>, p: Lab)
    requires
        cents.len() > 0,
    ensures
        0 <= nearest_centroid(cents, p) < cents.len(),
    decreases cents.len(),
{
    if cents.len() > 1 {
        lemma_nearest_in_range(cents.drop_last(), p);
    }
}

/// The nearest centroid minimizes the squared perceptual distance over all
/// centroids.
pub proof fn lemma_nearest_is_min(cents: Seq<Lab>, p: Lab, i: int)
    requires
        0 <= i < cents.len(),
    ensures
        spec_delta_e_sq(cents[nearest_centroid(cents, p)], p) <= spec_delta_e_sq(cents[i], p),
    decreases cents.len(),
{
    lemma_nearest_in_range(cents, p);
    if cents.len() > 1 {
        lemma_nearest_in_range(cents.drop_last(), p);
        if i < cents.len() - 1 {
            lemma_nearest_is_min(cents.drop_last(), p, i);
        } else {
            lemma_nearest_is_min(cents.drop_last(), p, nearest_centroid(cents.drop_last(), p));
        }
    }
}

/// Every centroid before the nearest one is strictly farther: the
/// tie-break is deterministic and keeps the earliest minimizer.
pub proof fn lemma_nearest_is_first(cents: Seq<Lab>, p: Lab, i: int)
    requires
        0 <= i < nearest_centroid(cents, p),
    ensures
        spec_delta_e_sq(cents[nearest_centroid(cents, p)], p) < spec_delta_e_sq(cents[i], p),
    decreases cents.len(),
{
    lemma_nearest_in_range(cents, p);
    if cents.len() > 1 {
        let rest = nearest_centroid(cents.drop_last(), p);
        lemma_nearest_in_range(cents.drop_last(), p);
        if nearest_centroid(cents, p) == cents.len() - 1
            && rest != cents.len() - 1 {
            if i < rest {
                lemma_nearest_is_first(cents.drop_last(), p, i);
            } else if i == rest {
            } else {
                lemma_nearest_is_min(cents.drop_last(), p, i);
            }
        } else {
            lemma_nearest_is_first(cents.drop_last(), p, i);
        }
    }
}

/// Quality score of a centroid set on a pixel sequence: the total squared
/// distance of every pixel to its nearest centroid.
pub open spec fn spec_score(pixels: Seq<Lab>, cents: Seq<Lab>) -> int
    decreases pixels.len(),
{
    if pixels.len() == 0 {
        0
    } else {
        spec_score(pixels.drop_last(), cents) + spec_delta_e_sq(
            cents[nearest_centroid(cents, pixels.last())],
            pixels.last(),
        )
    }
}

/// Find the nearest centroid of one pixel by a linear scan.
fn nearest_of(cents: &Vec<Lab>, p: &Lab) -> (j: usize)
    requires
        cents.len() >= 1,
        all_wf(cents@),
        p.wf(),
    ensures
        j as int == nearest_centroid(cents@, *p),
        j < cents.len(),
{
    let mut best: usize = 0;
    let mut bd: u64 = delta_e_sq(&cents[0], p);
    let mut i: usize = 1;
    while i < cents.len()
        invariant
            1 <= i <= cents.len(),
            cents.len() >= 1,
            all_wf(cents@),
            p.wf(),
            best < i,
            best as int == nearest_centroid(cents@.take(i as int), *p),
            bd == spec_delta_e_sq(cents@[best as int], *p),
        decreases cents.len() - i,
    {
        let d: u64 = delta_e_sq(&cents[i], p);
        proof {
            assert(cents@.take(i as int + 1).drop_last() =~= cents@.take(i as int));
            lemma_nearest_in_range(cents@.take(i as int), *p);
        }
        if d < bd {
            best = i;
            bd = d;
        }
        i = i + 1;
    }
    proof {
        assert(cents@.take(cents@.len() as int) =~= cents@);
    }
    best
}

/// Assign every pixel to its nearest centroid and total the score.
fn assign(pixels: &Vec<Lab>, cents: &Vec<Lab>) -> (res: (Vec<usize>, u64))
    requires
        pixels.len() <= PIXEL_MAX,
        cents.len() >= 1,
        all_wf(pixels@),
        all_wf(cents@),
    ensures
        res.0@.len() == pixels@.len(),
        forall|t: int|
            0 <= t < pixels@.len() ==> #[trigger] res.0@[t] as int == nearest_centroid(
                cents@,
                pixels@[t],
            ),
        forall|t: int| 0 <= t < pixels@.len() ==> #[trigger] res.0@[t] < cents@.len(),
        res.1 == spec_score(pixels@, cents@),
{
    let mut idx: Vec<usize> = Vec::new();
    let mut score: u64 = 0;
    let mut i: usize = 0;
    while i < pixels.len()
        invariant
            i <= pixels.len(),
            pixels.len() <= PIXEL_MAX,
            cents.len() >= 1,
            all_wf(pixels@),
            all_wf(cents@),
            idx@.len() == i,
            forall|t: int|
                0 <= t < i ==> #[trigger] idx@[t] as int == nearest_centroid(cents@, pixels@[t]),
            forall|t: int| 0 <= t < i ==> #[trigger] idx@[t] < cents@.len(),
            score == spec_score(pixels@.take(i as int), cents@),
            score <= i * MAX_PAIR_DIST,
        decreases pixels.len() - i,
    {
        let j: usize = nearest_of(cents, &pixels[i]);
        let d: u64 = delta_e_sq(&cents[j], &pixels[i]);
        proof {
            assert(pixels@.take(i as int + 1).drop_last() =~= pixels@.take(i as int));
            assert((i + 1) * MAX_PAIR_DIST == i * MAX_PAIR_DIST + MAX_PAIR_DIST) by (nonlinear_arith);
            assert(i * MAX_PAIR_DIST <= PIXEL_MAX * MAX_PAIR_DIST) by (nonlinear_arith)
                requires
                    0 <= i < PIXEL_MAX,
            ;
        }
        idx.push(j);
        score = score + d;
        i = i + 1;
    }
    proof {
        assert(pixels@.take(pixels@.len() as int) =~= pixels@);
    }
    (idx, score)
}

/// How many pixels the assignment puts into cluster `j`.
pub open spec fn cluster_count(pixels: Seq<Lab>, cents: Seq<Lab>, j: int) -> int
    decreases pixels.len(),
{
    if pixels.len() == 0 {
        0
    } else {
        cluster_count(pixels.drop_last(), cents, j) + if nearest_centroid(
            cents,
            pixels.last(),
        ) == j {
            1int
        } else {
            0int
        }
    }
}

/// Coordinate-wise sum of the pixels assigned to cluster `j`.
pub open spec fn cluster_sum(pixels: Seq<Lab>, cents: Seq<Lab>, j: int) -> (int, int, int, int)
    decreases pixels.len(),
{
    if pixels.len() == 0 {
        (0int, 0int, 0int, 0int)
    } else {
        let rest = cluster_sum(pixels.drop_last(), cents, j);
        if nearest_centroid(cents, pixels.last()) == j {
            (
                rest.0 + pixels.last().l,
                rest.1 + pixels.last().a,
                rest.2 + pixels.last().b,
                rest.3 + pixels.last().alpha,
            )
        } else {
            rest
        }
    }
}

proof fn lemma_cluster_bounds(pixels: Seq<Lab>, cents: Seq<Lab>, j: int)
    requires
        all_wf(pixels),
    ensures
        0 <= cluster_count(pixels, cents, j) <= pixels.len(),
        -(cluster_count(pixels, cents, j) * COORD_BOUND) <= cluster_sum(pixels, cents, j).0
            <= cluster_count(pixels, cents, j) * COORD_BOUND,
        -(cluster_count(pixels, cents, j) * COORD_BOUND) <= cluster_sum(pixels, cents, j).1
            <= cluster_count(pixels, cents, j) * COORD_BOUND,
        -(cluster_count(pixels, cents, j) * COORD_BOUND) <= cluster_sum(pixels, cents, j).2
            <= cluster_count(pixels, cents, j) * COORD_BOUND,
        -(cluster_count(pixels, cents, j) * COORD_BOUND) <= cluster_sum(pixels, cents, j).3
            <= cluster_count(pixels, cents, j) * COORD_BOUND,
    decreases pixels.len(),
{
    if pixels.len() > 0 {
        assert(all_wf(pixels.drop_last()));
        lemma_cluster_bounds(pixels.drop_last(), cents, j);
        let c = cluster_count(pixels.drop_last(), cents, j);
        assert((c + 1) * COORD_BOUND == c * COORD_BOUND + COORD_BOUND) by (nonlinear_arith);
        assert(pixels[pixels.len() - 1].wf());
    }
}

/// The new centroid of cluster `j`: the coordinate-wise mean of its
/// members (truncated toward zero), or the old centroid when the cluster
/// is empty.
pub open spec fn spec_mean(pixels: Seq<Lab>, cents: Seq<Lab>, j: int) -> Lab {
    let cnt = cluster_count(pixels, cents, j);
    if cnt == 0 {
        cents[j]
    } else {
        let s = cluster_sum(pixels, cents, j);
        Lab {
            l: div_trunc(s.0, cnt) as i64,
            a: div_trunc(s.1, cnt) as i64,
            b: div_trunc(s.2, cnt) as i64,
            alpha: div_trunc(s.3, cnt) as i64,
        }
    }
}

/// One Lloyd update: every centroid moves to the mean of its cluster.
pub open spec fn spec_improve(pixels: Seq<Lab>, cents: Seq<Lab>) -> Seq<Lab> {
    Seq::new(cents.len(), |j: int| spec_mean(pixels, cents, j))
}

/// Truncated signed division of a sum by a cluster size.
fn div_trunc_exec(s: i64, d: i64) -> (q: i64)
    requires
        d >= 1,
        -0x7fffffffffffffff <= s,
    ensures
        q as int == div_trunc(s as int, d as int),
{
    if s >= 0 {
        s / d
    } else {
        -((-s) / d)
    }
}

/// Mean color of one cluster.
fn cluster_mean(pixels: &Vec<Lab>, idx: &Vec<usize>, cents: &Vec<Lab>, j: usize) -> (m: Lab)
    requires
        pixels.len() <= PIXEL_MAX,
        cents.len() >= 1,
        j < cents.len(),
        all_wf(pixels@),
        all_wf(cents@),
        idx@.len() == pixels@.len(),
        forall|t: int|
            0 <= t < pixels@.len() ==> #[trigger] idx@[t] as int == nearest_centroid(
                cents@,
                pixels@[t],
            ),
    ensures
        m == spec_mean(pixels@, cents@, j as int),
        m.wf(),
{
    let mut sl: i64 = 0;
    let mut sa: i64 = 0;
    let mut sb: i64 = 0;
    let mut sal: i64 = 0;
    let mut cnt: i64 = 0;
    let mut i: usize = 0;
    while i < pixels.len()
        invariant
            i <= pixels.len(),
            pixels.len() <= PIXEL_MAX,
            cents.len() >= 1,
            j < cents.len(),
            all_wf(pixels@),
            all_wf(cents@),
            idx@.len() == pixels@.len(),
            forall|t: int|
                0 <= t < pixels@.len() ==> #[trigger] idx@[t] as int == nearest_centroid(
                    cents@,
                    pixels@[t],
                ),
            cnt == cluster_count(pixels@.take(i as int), cents@, j as int),
            0 <= cnt <= i,
            sl == cluster_sum(pixels@.take(i as int), cents@, j as int).0,
            sa == cluster_sum(pixels@.take(i as int), cents@, j as int).1,
            sb == cluster_sum(pixels@.take(i as int), cents@, j as int).2,
            sal == cluster_sum(pixels@.take(i as int), cents@, j as int).3,
            -(cnt * COORD_BOUND) <= sl <= cnt * COORD_BOUND,
            -(cnt * COORD_BOUND) <= sa <= cnt * COORD_BOUND,
            -(cnt * COORD_BOUND) <= sb <= cnt * COORD_BOUND,
            -(cnt * COORD_BOUND) <= sal <= cnt * COORD_BOUND,
        decreases pixels.len() - i,
    {
        proof {
            assert(pixels@.take(i as int + 1).drop_last() =~= pixels@.take(i as int));
            assert((cnt + 1) * COORD_BOUND == cnt * COORD_BOUND + COORD_BOUND) by (nonlinear_arith);
            assert(cnt * COORD_BOUND <= PIXEL_MAX * COORD_BOUND) by (nonlinear_arith)
                requires
                    0 <= cnt <= PIXEL_MAX,
            ;
            assert(pixels@[i as int].wf());
        }
        if idx[i] == j {
            sl = sl + pixels[i].l;
            sa = sa + pixels[i].a;
            sb = sb + pixels[i].b;
            sal = sal + pixels[i].alpha;
            cnt = cnt + 1;
        }
        i = i + 1;
    }
    proof {
        assert(pixels@.take(pixels@.len() as int) =~= pixels@);
    }
    if cnt == 0 {
        cents[j]
    } else {
        let l: i64 = div_trunc_exec(sl, cnt);
        let a: i64 = div_trunc_exec(sa, cnt);
        let b: i64 = div_trunc_exec(sb, cnt);
        let alpha: i64 = div_trunc_exec(sal, cnt);
        proof {
            crate::color::lemma_div_trunc_bound(sl as int, cnt as int, COORD_BOUND as int);
            crate::color::lemma_div_trunc_bound(sa as int, cnt as int, COORD_BOUND as int);
            crate::color::lemma_div_trunc_bound(sb as int, cnt as int, COORD_BOUND as int);
            crate::color::lemma_div_trunc_bound(sal as int, cnt as int, COORD_BOUND as int);
        }
        Lab { l, a, b, alpha }
    }
}

/// One full Lloyd update of all centroids.
fn improve(pixels: &Vec<Lab>, idx: &Vec<usize>, cents: &Vec<Lab>) -> (nc: Vec<Lab>)
    requires
        pixels.len() <= PIXEL_MAX,
        cents.len() >= 1,
        all_wf(pixels@),
        all_wf(cents@),
        idx@.len() == pixels@.len(),
        forall|t: int|
            0 <= t < pixels@.len() ==> #[trigger] idx@[t] as int == nearest_centroid(
                cents@,
                pixels@[t],
            ),
    ensures
        nc@ == spec_improve(pixels@, cents@),
        nc@.len() == cents@.len(),
        all_wf(nc@),
{
    let mut nc: Vec<Lab> = Vec::new();
    let mut j: usize = 0;
    while j < cents.len()
        invariant
            j <= cents.len(),
            pixels.len() <= PIXEL_MAX,
            cents.len() >= 1,
            all_wf(pixels@),
            all_wf(cents@),
            idx@.len() == pixels@.len(),
            forall|t: int|
                0 <= t < pixels@.len() ==> #[trigger] idx@[t] as int == nearest_centroid(
                    cents@,
                    pixels@[t],
                ),
            nc@.len() == j,
            forall|t: int| 0 <= t < j ==> nc@[t] == spec_mean(pixels@, cents@, t),
            forall|t: int| 0 <= t < j ==> (#[trigger] nc@[t]).wf(),
        decreases cents.len() - j,
    {
        let m: Lab = cluster_mean(pixels, idx, cents, j);
        nc.push(m);
        j = j + 1;
    }
    proof {
        assert(nc@ =~= spec_improve(pixels@, cents@));
    }
    nc
}

/// Whether the fractional score change between two consecutive updates is
/// at or below the threshold, given in parts per ten thousand.
pub open spec fn spec_converged(prev: int, new_score: int, conv: int) -> bool {
    (if prev >= new_score {
        prev - new_score
    } else {
        new_score - prev
    }) * 10000 <= conv * prev
}

fn converged(prev: u64, new_score: u64, conv: u64) -> (c: bool)
    ensures
        c == spec_converged(prev as int, new_score as int, conv as int),
{
    let diff: u64 = if prev >= new_score {
        prev - new_score
    } else {
        new_score - prev
    };
    proof {
        assert((conv as int) * (prev as int) < 0x100000000000000000000000000000000)
            by (nonlinear_arith)
            requires
                conv <= 0xffffffffffffffffu64,
                prev <= 0xffffffffffffffffu64,
        ;
    }
    (diff as u128) * 10000 <= (conv as u128) * (prev as u128)
}

/// One step of the linear congruential generator that seeds a run.
pub open spec fn lcg_next(s: int) -> int {
    (s * 6364136223846793005 + 1442695040888963407) % 0x10000000000000000
}

/// `n` generator steps from `seed`.
pub open spec fn lcg_iter(seed: int, n: nat) -> int
    decreases n,
{
    if n == 0 {
        seed
    } else {
        lcg_next(lcg_iter(seed, (n - 1) as nat))
    }
}

fn lcg_step(s: u64) -> (r: u64)
    ensures
        r as int == lcg_next(s as int),
{
    let prod: u128 = (s as u128) * 6364136223846793005;
    let sum: u128 = prod + 1442695040888963407;
    proof {
        assert((s as int) * 6364136223846793005 + 1442695040888963407
            < 0x100000000000000000000000000000000) by (nonlinear_arith)
            requires
                s <= 0xffffffffffffffffu64,
        ;
    }
    let wrapped: u128 = sum % 0x10000000000000000u128;
    wrapped as u64
}

/// The initial centroids of a run: `k` pixels picked by the seeded
/// generator (repeats allowed).
pub open spec fn spec_init(pixels: Seq<Lab>, k: nat, seed: int) -> Seq<Lab> {
    Seq::new(k, |j: int| pixels[lcg_iter(seed, (j + 1) as nat) % (pixels.len() as int)])
}

fn init_centroids(pixels: &Vec<Lab>, k: usize, seed: u64) -> (c: Vec<Lab>)
    requires
        pixels.len() >= 1,
        k >= 1,
        all_wf(pixels@),
    ensures
        c@ == spec_init(pixels@, k as nat, seed as int),
        c@.len() == k,
        all_wf(c@),
{
    let mut c: Vec<Lab> = Vec::new();
    let mut state: u64 = seed;
    let mut j: usize = 0;
    while j < k
        invariant
            j <= k,
            pixels.len() >= 1,
            all_wf(pixels@),
            state as int == lcg_iter(seed as int, j as nat),
            c@.len() == j,
            forall|t: int|
                0 <= t < j ==> c@[t] == pixels@[lcg_iter(seed as int, (t + 1) as nat) % (
                pixels@.len() as int)],
            forall|t: int| 0 <= t < j ==> (#[trigger] c@[t]).wf(),
        decreases k - j,
    {
        state = lcg_step(state);
        let t: usize = (state % (pixels.len() as u64)) as usize;
        c.push(pixels[t]);
        j = j + 1;
    }
    proof {
        assert(c@ =~= spec_init(pixels@, k as nat, seed as int));
    }
    c
}

/// The centroids after iterating Lloyd updates from `cents` until the
/// score converges or `fuel` updates have run.
pub open spec fn spec_iterate(pixels: Seq<Lab>, cents: Seq<Lab>, conv: int, fuel: nat) -> Seq<Lab>
    decreases fuel,
{
    if fuel == 0 {
        cents
    } else {
        let next = spec_improve(pixels, cents);
        if spec_converged(spec_score(pixels, cents), spec_score(pixels, next), conv) {
            next
        } else {
            spec_iterate(pixels, next, conv, (fuel - 1) as nat)
        }
    }
}

/// The centroids one seeded run settles on.
pub open spec fn spec_kmeans_cents(
    pixels: Seq<Lab>,
    k: nat,
    conv: int,
    fuel: nat,
    seed: int,
) -> Seq<Lab> {
    spec_iterate(pixels, spec_init(pixels, k, seed), conv, fuel)
}

/// Every color of the sequence equals `c`.
pub open spec fn all_eq(s: Seq<Lab>, c: Lab) -> bool {
    forall|i: int| 0 <= i < s.len() ==> #[trigger] s[i] == c
}

proof fn lemma_lcg_range(seed: int, n: nat)
    requires
        0 <= seed < 0x10000000000000000,
    ensures
        0 <= lcg_iter(seed, n) < 0x10000000000000000,
    decreases n,
{
    if n > 0 {
        lemma_lcg_range(seed, (n - 1) as nat);
    }
}

/// On a uniform pixel sequence the initial centroids are all that color.
proof fn lemma_init_uniform(pixels: Seq<Lab>, k: nat, seed: int, c: Lab)
    requires
        pixels.len() >= 1,
        all_eq(pixels, c),
        0 <= seed < 0x10000000000000000,
    ensures
        spec_init(pixels, k, seed).len() == k,
        all_eq(spec_init(pixels, k, seed), c),
{
    assert forall|j: int| 0 <= j < k implies #[trigger] spec_init(pixels, k, seed)[j] == c by {
        lemma_lcg_range(seed, (j + 1) as nat);
    }
}

/// When all centroids are one color, a pixel of that color lands in
/// cluster 0.
proof fn lemma_nearest_uniform(cents: Seq<Lab>, c: Lab)
    requires
        cents.len() >= 1,
        all_eq(cents, c),
    ensures
        nearest_centroid(cents, c) == 0,
    decreases cents.len(),
{
    if cents.len() > 1 {
        assert(all_eq(cents.drop_last(), c));
        lemma_nearest_uniform(cents.drop_last(), c);
    }
}

/// On a uniform input every pixel is counted into cluster 0, and the
/// coordinate sums are exact multiples of the shared color.
proof fn lemma_cluster_uniform(pixels: Seq<Lab>, cents: Seq<Lab>, c: Lab, j: int)
    requires
        all_eq(pixels, c),
        cents.len() >= 1,
        all_eq(cents, c),
    ensures
        cluster_count(pixels, cents, j) == if j == 0 {
            pixels.len() as int
        } else {
            0int
        },
        cluster_sum(pixels, cents, j) == if j == 0 {
            (
                pixels.len() * c.l,
                pixels.len() * c.a,
                pixels.len() * c.b,
                pixels.len() * c.alpha,
            )
        } else {
            (0int, 0int, 0int, 0int)
        },
    decreases pixels.len(),
{
    if pixels.len() == 0 {
    } else {
        assert(all_eq(pixels.drop_last(), c));
        lemma_cluster_uniform(pixels.drop_last(), cents, c, j);
        lemma_nearest_uniform(cents, c);
        assert(pixels.last() == c);
        let n = pixels.len() as int;
        assert((n - 1) * c.l + c.l == n * c.l) by (nonlinear_arith);
        assert((n - 1) * c.a + c.a == n * c.a) by (nonlinear_arith);
        assert((n - 1) * c.b + c.b == n * c.b) by (nonlinear_arith);
        assert((n - 1) * c.alpha + c.alpha == n * c.alpha) by (nonlinear_arith);
    }
}

proof fn lemma_div_trunc_exact(x: int, n: int)
    requires
        n >= 1,
    ensures
        div_trunc(n * x, n) == x,
{
    if x >= 0 {
        assert(n * x >= 0) by (nonlinear_arith)
            requires
                n >= 1,
                x >= 0,
        ;
        vstd::arithmetic::div_mod::lemma_div_multiples_vanish(x, n);
    } else {
        assert(n * x < 0) by (nonlinear_arith)
            requires
                n >= 1,
                x < 0,
        ;
        assert(-(n * x) == n * (-x)) by (nonlinear_arith);
        vstd::arithmetic::div_mod::lemma_div_multiples_vanish(-x, n);
    }
}

/// On a uniform input every cluster mean is the shared color itself: the
/// populous cluster averages exactly to it, and empty clusters keep
/// their old centroid, which is already that color.
proof fn lemma_mean_uniform(pixels: Seq<Lab>, cents: Seq<Lab>, c: Lab, j: int)
    requires
        pixels.len() >= 1,
        all_eq(pixels, c),
        cents.len() >= 1,
        all_eq(cents, c),
        0 <= j < cents.len(),
    ensures
        spec_mean(pixels, cents, j) == c,
{
    lemma_cluster_uniform(pixels, cents, c, j);
    if j == 0 {
        let n = pixels.len() as int;
        lemma_div_trunc_exact(c.l as int, n);
        lemma_div_trunc_exact(c.a as int, n);
        lemma_div_trunc_exact(c.b as int, n);
        lemma_div_trunc_exact(c.alpha as int, n);
    }
}

proof fn lemma_improve_uniform(pixels: Seq<Lab>, cents: Seq<Lab>, c: Lab)
    requires
        pixels.len() >= 1,
        all_eq(pixels, c),
        cents.len() >= 1,
        all_eq(cents, c),
    ensures
        spec_improve(pixels, cents).len() == cents.len(),
        all_eq(spec_improve(pixels, cents), c),
{
    assert forall|j: int| 0 <= j < cents.len() implies #[trigger] spec_improve(pixels, cents)[j]
        == c by {
        lemma_mean_uniform(pixels, cents, c, j);
    }
}

proof fn lemma_iterate_uniform(pixels: Seq<Lab>, cents: Seq<Lab>, c: Lab, conv: int, fuel: nat)
    requires
        pixels.len() >= 1,
        all_eq(pixels, c),
        cents.len() >= 1,
        all_eq(cents, c),
    ensures
        spec_iterate(pixels, cents, conv, fuel).len() == cents.len(),
        all_eq(spec_iterate(pixels, cents, conv, fuel), c),
    decreases fuel,
{
    if fuel > 0 {
        let next = spec_improve(pixels, cents);
        lemma_improve_uniform(pixels, cents, c);
        if !spec_converged(spec_score(pixels, cents), spec_score(pixels, next), conv) {
            lemma_iterate_uniform(pixels, next, c, conv, (fuel - 1) as nat);
        }
    }
}

/// On a uniform pixel sequence a run's settled centroids are all the
/// shared color, whatever the seed, cluster count, threshold and cap.
pub proof fn lemma_kmeans_uniform(
    pixels: Seq<Lab>,
    k: nat,
    conv: int,
    fuel: nat,
    seed: int,
    c: Lab,
)
    requires
        pixels.len() >= 1,
        all_eq(pixels, c),
        k >= 1,
        0 <= seed < 0x10000000000000000,
    ensures
        spec_kmeans_cents(pixels, k, conv, fuel, seed).len() == k,
        all_eq(spec_kmeans_cents(pixels, k, conv, fuel, seed), c),
{
    lemma_init_uniform(pixels, k, seed, c);
    lemma_iterate_uniform(pixels, spec_init(pixels, k, seed), c, conv, fuel);
}

/// The result of one clustering run: the settled centroids, the cluster
/// index of every pixel, and the quality score (lower is better).
pub struct KmeansRun {
    pub centroids: Vec<Lab>,
    pub indices: Vec<usize>,
    pub score: u64,
}

/// Run seeded k-means once: pick `k` starting centroids from the pixels,
/// then repeat Lloyd updates until the fractional score change is at or
/// below `converge` parts per ten thousand, or `max_iter` updates have
/// run. Deterministic: the result is a function of the arguments alone.
pub fn get_kmeans(k: usize, max_iter: u64, converge: u64, pixels: &Vec<Lab>, seed: u64) -> (run:
    KmeansRun)
    requires
        k >= 1,
        pixels.len() >= 1,
        pixels.len() <= PIXEL_MAX,
        all_wf(pixels@),
    ensures
        run.centroids@ == spec_kmeans_cents(
            pixels@,
            k as nat,
            converge as int,
            max_iter as nat,
            seed as int,
        ),
        run.centroids@.len() == k,
        all_wf(run.centroids@),
        run.indices@.len() == pixels@.len(),
        forall|t: int|
            0 <= t < pixels@.len() ==> #[trigger] run.indices@[t] as int == nearest_centroid(
                run.centroids@,
                pixels@[t],
            ),
        forall|t: int| 0 <= t < pixels@.len() ==> #[trigger] run.indices@[t] < k,
        run.score == spec_score(pixels@, run.centroids@),
{
    let mut cents: Vec<Lab> = init_centroids(pixels, k, seed);
    let first = assign(pixels, &cents);
    let mut idx: Vec<usize> = first.0;
    let mut score: u64 = first.1;
    let ghost c0 = cents@;
    let mut it: u64 = 0;
    while it < max_iter
        invariant_except_break
            it <= max_iter,
            k >= 1,
            pixels.len() >= 1,
            pixels.len() <= PIXEL_MAX,
            all_wf(pixels@),
            cents@.len() == k,
            all_wf(cents@),
            idx@.len() == pixels@.len(),
            forall|t: int|
                0 <= t < pixels@.len() ==> #[trigger] idx@[t] as int == nearest_centroid(
                    cents@,
                    pixels@[t],
                ),
            forall|t: int| 0 <= t < pixels@.len() ==> #[trigger] idx@[t] < k,
            score == spec_score(pixels@, cents@),
            spec_iterate(pixels@, cents@, converge as int, (max_iter - it) as nat) == spec_iterate(
                pixels@,
                c0,
                converge as int,
                max_iter as nat,
            ),
        ensures
            cents@ == spec_iterate(pixels@, c0, converge as int, max_iter as nat),
            cents@.len() == k,
            all_wf(cents@),
            idx@.len() == pixels@.len(),
            forall|t: int|
                0 <= t < pixels@.len() ==> #[trigger] idx@[t] as int == nearest_centroid(
                    cents@,
                    pixels@[t],
                ),
            forall|t: int| 0 <= t < pixels@.len() ==> #[trigger] idx@[t] < k,
            score == spec_score(pixels@, cents@),
        decreases max_iter - it,
    {
        let nc: Vec<Lab> = improve(pixels, &idx, &cents);
        let next = assign(pixels, &nc);
        let conv_now: bool = converged(score, next.1, converge);
        cents = nc;
        idx = next.0;
        score = next.1;
        if conv_now {
            break;
        }
        it = it + 1;
    }
    KmeansRun { centroids: cents, indices: idx, score }
}

} // verus!

