//! Dominant-color extraction: convert pixels to perceptual space, run
//! seeded k-means several times, keep the best-scoring run, and reduce it
//! to the centroid of its most populous cluster.

use vstd::prelude::*;

use crate::color::{spec_srgb_to_lab, srgb_to_lab, Lab, Rgba};
use crate::kmeans::{
    all_wf, cluster_count, get_kmeans, nearest_centroid, spec_kmeans_cents, spec_score, KmeansRun,
    PIXEL_MAX,
};
use crate::Error;

verus! {

/// Configuration of the extractor. `converge` is the convergence
/// threshold in parts per ten thousand of the previous score; a run stops
/// once the fractional score change drops to it or below.
#[derive(Clone, Copy, PartialEq, Eq, Structural, Debug)]
pub struct Config {
    /// How many clustering runs to try (best one is kept).
    pub runs: u64,
    /// Number of clusters per run.
    pub k: usize,
    /// Cap on Lloyd updates within one run.
    pub max_iter: u64,
    /// Convergence threshold, parts per ten thousand.
    pub converge: u64,
    /// Base seed; run `i` uses `seed + i`.
    pub seed: u64,
}

impl Config {
    /// At least one run, at least one cluster, and all run seeds fit in a
    /// machine word.
    pub open spec fn wf(self) -> bool {
        self.runs >= 1 && self.k >= 1 && self.seed + self.runs <= 0xffffffffffffffff
    }

    /// The stock configuration: 100 runs of 5 clusters from base seed 0,
    /// an effectively unbounded iteration cap, and a convergence
    /// threshold of 0.0025.
    pub open spec fn spec_default() -> Config {
        Config { runs: 100, k: 5, max_iter: 0xffffffffffffffffu64, converge: 25, seed: 0 }
    }
}

impl Default for Config {
    fn default() -> (c: Config)
        ensures
            c == Config::spec_default(),
            c.wf(),
    {
        Config { runs: 100, k: 5, max_iter: 0xffffffffffffffff, converge: 25, seed: 0 }
    }
}

/// The centroids that run number `i` of the configured batch settles on.
pub open spec fn spec_run_cents(labs: Seq<Lab>, cfg: Config, i: int) -> Seq<Lab> {
    spec_kmeans_cents(labs, cfg.k as nat, cfg.converge as int, cfg.max_iter as nat, cfg.seed + i)
}

/// The centroids of the best among the first `n` runs: the strictly
/// lowest score wins, and on ties the earlier run is kept.
pub open spec fn spec_best_cents(labs: Seq<Lab>, cfg: Config, n: nat) -> Seq<Lab>
    decreases n,
{
    if n <= 1 {
        spec_run_cents(labs, cfg, 0)
    } else {
        let prev = spec_best_cents(labs, cfg, (n - 1) as nat);
        let cur = spec_run_cents(labs, cfg, n - 1);
        if spec_score(labs, cur) < spec_score(labs, prev) {
            cur
        } else {
            prev
        }
    }
}

/// Index of the most populous cluster among the first `m`; on ties the
/// lowest index wins.
pub open spec fn dominant_upto(pixels: Seq<Lab>, cents: Seq<Lab>, m: int) -> int
    decreases m,
{
    if m <= 1 {
        0
    } else {
        let rest = dominant_upto(pixels, cents, m - 1);
        if cluster_count(pixels, cents, m - 1) > cluster_count(pixels, cents, rest) {
            m - 1
        } else {
            rest
        }
    }
}

/// Index of the most populous cluster of a settled run.
pub open spec fn dominant_index(pixels: Seq<Lab>, cents: Seq<Lab>) -> int {
    dominant_upto(pixels, cents, cents.len() as int)
}

pub proof fn lemma_dominant_upto_range(pixels: Seq<Lab>, cents: Seq<Lab>, m: int)
    requires
        m >= 1,
    ensures
        0 <= dominant_upto(pixels, cents, m) < m,
    decreases m,
{
    if m > 1 {
        lemma_dominant_upto_range(pixels, cents, m - 1);
    }
}

/// The dominant cluster's population is the largest among the first `m`.
pub proof fn lemma_dominant_is_max(pixels: Seq<Lab>, cents: Seq<Lab>, m: int, i: int)
    requires
        0 <= i < m,
    ensures
        cluster_count(pixels, cents, dominant_upto(pixels, cents, m)) >= cluster_count(
            pixels,
            cents,
            i,
        ),
    decreases m,
{
    if m > 1 && i < m - 1 {
        lemma_dominant_is_max(pixels, cents, m - 1, i);
    }
}

/// Count the members of cluster `j` from a run's assignment.
fn count_members(pixels: &Vec<Lab>, idx: &Vec<usize>, cents: &Vec<Lab>, j: usize) -> (c: u64)
    requires
        pixels.len() <= PIXEL_MAX,
        idx@.len() == pixels@.len(),
        forall|t: int|
            0 <= t < pixels@.len() ==> #[trigger] idx@[t] as int == nearest_centroid(
                cents@,
                pixels@[t],
            ),
    ensures
        c as int == cluster_count(pixels@, cents@, j as int),
        c <= pixels@.len(),
{
    let mut c: u64 = 0;
    let mut i: usize = 0;
    while i < pixels.len()
        invariant
            i <= pixels.len(),
            pixels.len() <= PIXEL_MAX,
            idx@.len() == pixels@.len(),
            forall|t: int|
                0 <= t < pixels@.len() ==> #[trigger] idx@[t] as int == nearest_centroid(
                    cents@,
                    pixels@[t],
                ),
            c as int == cluster_count(pixels@.take(i as int), cents@, j as int),
            c <= i,
        decreases pixels.len() - i,
    {
        proof {
            assert(pixels@.take(i as int + 1).drop_last() =~= pixels@.take(i as int));
        }
        if idx[i] == j {
            c = c + 1;
        }
        i = i + 1;
    }
    proof {
        assert(pixels@.take(pixels@.len() as int) =~= pixels@);
    }
    c
}

/// The centroid of the most populous cluster of a settled run.
fn pick_dominant(pixels: &Vec<Lab>, idx: &Vec<usize>, cents: &Vec<Lab>) -> (c: Lab)
    requires
        pixels.len() <= PIXEL_MAX,
        cents.len() >= 1,
        all_wf(cents@),
        idx@.len() == pixels@.len(),
        forall|t: int|
            0 <= t < pixels@.len() ==> #[trigger] idx@[t] as int == nearest_centroid(
                cents@,
                pixels@[t],
            ),
    ensures
        c == cents@[dominant_index(pixels@, cents@)],
        c.wf(),
{
    let mut best: usize = 0;
    let mut bc: u64 = count_members(pixels, idx, cents, 0);
    let mut j: usize = 1;
    while j < cents.len()
        invariant
            1 <= j <= cents.len(),
            cents.len() >= 1,
            all_wf(cents@),
            pixels.len() <= PIXEL_MAX,
            idx@.len() == pixels@.len(),
            forall|t: int|
                0 <= t < pixels@.len() ==> #[trigger] idx@[t] as int == nearest_centroid(
                    cents@,
                    pixels@[t],
                ),
            best < j,
            best as int == dominant_upto(pixels@, cents@, j as int),
            bc as int == cluster_count(pixels@, cents@, best as int),
        decreases cents.len() - j,
    {
        let cj: u64 = count_members(pixels, idx, cents, j);
        if cj > bc {
            best = j;
            bc = cj;
        }
        j = j + 1;
    }
    proof {
        lemma_dominant_upto_range(pixels@, cents@, cents@.len() as int);
    }
    cents[best]
}

/// The dominant color of a pixel sequence under a configuration: a pure
/// function of both.
pub open spec fn spec_extract(pixels: Seq<Rgba>, cfg: Config) -> Lab {
    let labs = pixels.map_values(|c: Rgba| spec_srgb_to_lab(c));
    let cents = spec_best_cents(labs, cfg, cfg.runs as nat);
    cents[dominant_index(labs, cents)]
}

/// Extract the dominant color of a texture's pixels: convert every pixel
/// to perceptual space, run seeded k-means `cfg.runs` times (run `i` is
/// seeded with `cfg.seed + i`), keep the run with the strictly lowest
/// quality score (ties keep the earliest run), and return the centroid of
/// its most populous cluster.
///
/// Fails with `InvalidInput` exactly on an empty pixel sequence.
pub fn extract_dominant_color(pixels: &Vec<Rgba>, cfg: &Config) -> (r: Result<Lab, Error>)
    requires
        cfg.wf(),
        pixels.len() <= PIXEL_MAX,
        forall|i: int| 0 <= i < pixels@.len() ==> (#[trigger] pixels@[i]).wf(),
    ensures
        pixels@.len() == 0 ==> r == Err::<Lab, Error>(Error::InvalidInput),
        pixels@.len() > 0 ==> r == Ok::<Lab, Error>(spec_extract(pixels@, *cfg)),
        pixels@.len() > 0 ==> spec_extract(pixels@, *cfg).wf(),
{
    if pixels.len() == 0 {
        return Err(Error::InvalidInput);
    }
    let mut labs: Vec<Lab> = Vec::new();
    let mut i: usize = 0;
    while i < pixels.len()
        invariant
            i <= pixels.len(),
            forall|t: int| 0 <= t < pixels@.len() ==> (#[trigger] pixels@[t]).wf(),
            labs@.len() == i,
            forall|t: int| 0 <= t < i ==> #[trigger] labs@[t] == spec_srgb_to_lab(pixels@[t]),
            forall|t: int| 0 <= t < i ==> (#[trigger] labs@[t]).wf(),
        decreases pixels.len() - i,
    {
        let lab: Lab = srgb_to_lab(&pixels[i]);
        labs.push(lab);
        i = i + 1;
    }
    proof {
        assert(labs@ =~= pixels@.map_values(|c: Rgba| spec_srgb_to_lab(c)));
    }
    let mut best: KmeansRun = get_kmeans(cfg.k, cfg.max_iter, cfg.converge, &labs, cfg.seed);
    let mut n: u64 = 1;
    while n < cfg.runs
        invariant
            1 <= n <= cfg.runs,
            cfg.wf(),
            labs@.len() == pixels@.len(),
            0 < labs@.len() <= PIXEL_MAX,
            labs@ == pixels@.map_values(|c: Rgba| spec_srgb_to_lab(c)),
            all_wf(labs@),
            best.centroids@ == spec_best_cents(labs@, *cfg, n as nat),
            best.centroids@.len() == cfg.k,
            all_wf(best.centroids@),
            best.indices@.len() == labs@.len(),
            forall|t: int|
                0 <= t < labs@.len() ==> #[trigger] best.indices@[t] as int == nearest_centroid(
                    best.centroids@,
                    labs@[t],
                ),
            best.score == spec_score(labs@, best.centroids@),
        decreases cfg.runs - n,
    {
        let run: KmeansRun = get_kmeans(cfg.k, cfg.max_iter, cfg.converge, &labs, cfg.seed + n);
        if run.score < best.score {
            best = run;
        }
        n = n + 1;
    }
    let c: Lab = pick_dominant(&labs, &best.indices, &best.centroids);
    Ok(c)
}

/// Determinism: the dominant color depends on the pixel sequence and the
/// configuration alone, so two extractions of the same input agree
/// exactly.
pub proof fn lemma_extract_deterministic(pixels: Seq<Rgba>, cfg: Config, c1: Lab, c2: Lab)
    requires
        c1 == spec_extract(pixels, cfg),
        c2 == spec_extract(pixels, cfg),
    ensures
        c1 == c2,
{
}

proof fn lemma_best_uniform(labs: Seq<Lab>, cfg: Config, c: Lab, n: nat)
    requires
        labs.len() >= 1,
        crate::kmeans::all_eq(labs, c),
        cfg.k >= 1,
        n >= 1,
        cfg.seed + n <= 0x10000000000000000,
    ensures
        spec_best_cents(labs, cfg, n).len() == cfg.k,
        crate::kmeans::all_eq(spec_best_cents(labs, cfg, n), c),
    decreases n,
{
    crate::kmeans::lemma_kmeans_uniform(
        labs,
        cfg.k as nat,
        cfg.converge as int,
        cfg.max_iter as nat,
        cfg.seed + (n - 1),
        c,
    );
    if n > 1 {
        lemma_best_uniform(labs, cfg, c, (n - 1) as nat);
    }
}

/// Non-degenerate reduction: when every pixel of a texture is the same
/// color, the extracted dominant color is exactly that color's perceptual
/// conversion, for every cluster count, run count, threshold, cap and
/// seed the configuration allows.
pub proof fn lemma_uniform_extract(pixels: Seq<Rgba>, cfg: Config, c: Rgba)
    requires
        cfg.wf(),
        pixels.len() >= 1,
        forall|i: int| 0 <= i < pixels.len() ==> #[trigger] pixels[i] == c,
    ensures
        spec_extract(pixels, cfg) == spec_srgb_to_lab(c),
{
    let labs = pixels.map_values(|p: Rgba| spec_srgb_to_lab(p));
    assert(crate::kmeans::all_eq(labs, spec_srgb_to_lab(c)));
    lemma_best_uniform(labs, cfg, spec_srgb_to_lab(c), cfg.runs as nat);
    let cents = spec_best_cents(labs, cfg, cfg.runs as nat);
    lemma_dominant_upto_range(labs, cents, cents.len() as int);
}

/// Best-of-N selection: the kept run's score is at most the score of
/// every individual run among the first `n`.
pub proof fn lemma_best_score_le_each_run(labs: Seq<Lab>, cfg: Config, i: int, n: nat)
    requires
        0 <= i < n,
    ensures
        spec_score(labs, spec_best_cents(labs, cfg, n)) <= spec_score(
            labs,
            spec_run_cents(labs, cfg, i),
        ),
    decreases n,
{
    if n > 1 && i < n - 1 {
        lemma_best_score_le_each_run(labs, cfg, i, (n - 1) as nat);
    }
}

/// Best-of-N selection: trying one more run never worsens the kept score.
pub proof fn lemma_best_score_non_increasing(labs: Seq<Lab>, cfg: Config, n: nat)
    requires
        n >= 1,
    ensures
        spec_score(labs, spec_best_cents(labs, cfg, (n + 1) as nat)) <= spec_score(
            labs,
            spec_best_cents(labs, cfg, n),
        ),
{
}

/// Best-of-N selection: the kept score is non-increasing in the number of
/// runs, all else equal.
pub proof fn lemma_best_score_monotonic(labs: Seq<Lab>, cfg: Config, n: nat, m: nat)
    requires
        1 <= n <= m,
    ensures
        spec_score(labs, spec_best_cents(labs, cfg, m)) <= spec_score(
            labs,
            spec_best_cents(labs, cfg, n),
        ),
    decreases m,
{
    if n < m {
        lemma_best_score_monotonic(labs, cfg, n, (m - 1) as nat);
        lemma_best_score_non_increasing(labs, cfg, (m - 1) as nat);
    }
}

} // verus!
