//! Fixed-point color types and the perceptual distance metric.
//!
//! A source pixel is stored as four channels scaled by [`CHANNEL_ONE`];
//! a perceptual color is a CIE L*a*b*-style triple plus alpha, each
//! coordinate scaled by [`LAB_SCALE`]. Distances are compared with the
//! squared CIE76 color difference, which orders colors exactly as the
//! CIE76 delta-E does while staying in integers.

use vstd::prelude::*;

verus! {

/// Fixed-point one: a channel value of `CHANNEL_ONE` encodes 1.0.
pub const CHANNEL_ONE: u32 = 65536;

/// Fixed-point scale of one perceptual (L*, a*, b*, alpha) coordinate.
pub const LAB_SCALE: i64 = 256;

/// Every coordinate of a well-formed perceptual color lies in
/// `[-COORD_BOUND, COORD_BOUND]`.
pub const COORD_BOUND: i64 = 200000;

/// Largest possible squared distance between two well-formed perceptual
/// colors: `4 * (2 * COORD_BOUND)^2`.
pub const MAX_PAIR_DIST: u64 = 640000000000;

/// One source pixel: red, green, blue and alpha, each a fraction of
/// [`CHANNEL_ONE`].
#[derive(Clone, Copy, PartialEq, Eq, Structural, Debug)]
pub struct Rgba {
    pub r: u32,
    pub g: u32,
    pub b: u32,
    pub a: u32,
}

impl Rgba {
    /// All four channels stay within the fixed-point unit range.
    pub open spec fn wf(self) -> bool {
        self.r <= CHANNEL_ONE && self.g <= CHANNEL_ONE && self.b <= CHANNEL_ONE
            && self.a <= CHANNEL_ONE
    }

    pub fn new(r: u32, g: u32, b: u32, a: u32) -> (c: Rgba)
        requires
            r <= CHANNEL_ONE,
            g <= CHANNEL_ONE,
            b <= CHANNEL_ONE,
            a <= CHANNEL_ONE,
        ensures
            c == (Rgba { r, g, b, a }),
            c.wf(),
    {
        Rgba { r, g, b, a }
    }
}

/// One perceptual color: lightness `l`, the two chroma axes `a` and `b`,
/// and alpha, each scaled by [`LAB_SCALE`].
#[derive(Clone, Copy, PartialEq, Eq, Structural, Debug)]
pub struct Lab {
    pub l: i64,
    pub a: i64,
    pub b: i64,
    pub alpha: i64,
}

impl Lab {
    /// All four coordinates are bounded, so squared distances fit in `u64`.
    pub open spec fn wf(self) -> bool {
        -COORD_BOUND <= self.l && self.l <= COORD_BOUND
            && -COORD_BOUND <= self.a && self.a <= COORD_BOUND
            && -COORD_BOUND <= self.b && self.b <= COORD_BOUND
            && -COORD_BOUND <= self.alpha && self.alpha <= COORD_BOUND
    }
}

/// Square of a mathematical integer.
pub open spec fn sq(x: int) -> int {
    x * x
}

/// Squared CIE76 color difference between two perceptual colors; the alpha
/// channel participates as a fourth coordinate.
pub open spec fn spec_delta_e_sq(p: Lab, q: Lab) -> int {
    sq(p.l - q.l) + sq(p.a - q.a) + sq(p.b - q.b) + sq(p.alpha - q.alpha)
}

proof fn lemma_sq_bound(x: int, b: int)
    requires
        -b <= x,
        x <= b,
        0 <= b,
    ensures
        0 <= sq(x),
        sq(x) <= b * b,
{
    assert(0 <= x * x && x * x <= b * b) by (nonlinear_arith)
        requires
            -b <= x,
            x <= b,
            0 <= b,
    ;
}

/// Squared perceptual distance of two well-formed colors is nonnegative and
/// at most [`MAX_PAIR_DIST`].
pub proof fn lemma_delta_e_sq_bounds(p: Lab, q: Lab)
    requires
        p.wf(),
        q.wf(),
    ensures
        0 <= spec_delta_e_sq(p, q),
        spec_delta_e_sq(p, q) <= MAX_PAIR_DIST,
{
    assert((2 * COORD_BOUND) * (2 * COORD_BOUND) == 160000000000) by (nonlinear_arith);
    lemma_sq_bound(p.l - q.l, 2 * COORD_BOUND);
    lemma_sq_bound(p.a - q.a, 2 * COORD_BOUND);
    lemma_sq_bound(p.b - q.b, 2 * COORD_BOUND);
    lemma_sq_bound(p.alpha - q.alpha, 2 * COORD_BOUND);
}

/// Squared perceptual distance between two colors (lower is closer).
pub fn delta_e_sq(p: &Lab, q: &Lab) -> (d: u64)
    requires
        p.wf(),
        q.wf(),
    ensures
        d == spec_delta_e_sq(*p, *q),
        d <= MAX_PAIR_DIST,
{
    proof {
        lemma_delta_e_sq_bounds(*p, *q);
        lemma_sq_bound(p.l - q.l, 2 * COORD_BOUND);
        lemma_sq_bound(p.a - q.a, 2 * COORD_BOUND);
        lemma_sq_bound(p.b - q.b, 2 * COORD_BOUND);
        lemma_sq_bound(p.alpha - q.alpha, 2 * COORD_BOUND);
    }
    let dl: i64 = p.l - q.l;
    let da: i64 = p.a - q.a;
    let db: i64 = p.b - q.b;
    let dal: i64 = p.alpha - q.alpha;
    (dl * dl + da * da + db * db + dal * dal) as u64
}

/// Cube of a mathematical integer.
pub open spec fn cube(x: int) -> int {
    x * x * x
}

/// The integer cube root: the unique `r >= 0` with
/// `cube(r) <= u < cube(r + 1)`.
pub open spec fn spec_cbrt(u: int) -> int {
    choose|r: int| 0 <= r && #[trigger] cube(r) <= u && u < cube(r + 1)
}

proof fn lemma_cube_mono(a: int, b: int)
    requires
        0 <= a,
        a <= b,
    ensures
        cube(a) <= cube(b),
{
    assert(a * a * a <= b * b * b) by (nonlinear_arith)
        requires
            0 <= a,
            a <= b,
    ;
}

proof fn lemma_cbrt_unique(u: int, r1: int, r2: int)
    requires
        0 <= r1 && cube(r1) <= u && u < cube(r1 + 1),
        0 <= r2 && cube(r2) <= u && u < cube(r2 + 1),
    ensures
        r1 == r2,
{
    if r1 < r2 {
        lemma_cube_mono(r1 + 1, r2);
    }
    if r2 < r1 {
        lemma_cube_mono(r2 + 1, r1);
    }
}

fn cube_of(x: u64) -> (c: u64)
    requires
        x <= 70000,
    ensures
        c == cube(x as int),
{
    proof {
        assert(x * x <= 4900000000) by (nonlinear_arith)
            requires
                x <= 70000,
        ;
        assert(x * x * x <= 343000000000000) by (nonlinear_arith)
            requires
                x <= 70000,
        ;
    }
    x * x * x
}

/// Integer cube root by binary search.
fn cbrt_fp(u: u64) -> (r: u64)
    requires
        u < 343000000000000,
    ensures
        r == spec_cbrt(u as int),
        cube(r as int) <= u as int,
        (u as int) < cube(r as int + 1),
        r < 70000,
{
    let mut lo: u64 = 0;
    let mut hi: u64 = 70000;
    proof {
        assert(cube(70000) == 343000000000000) by (nonlinear_arith);
    }
    while lo + 1 < hi
        invariant
            lo < hi,
            hi <= 70000,
            cube(lo as int) <= u as int,
            (u as int) < cube(hi as int),
        decreases hi - lo,
    {
        let mid: u64 = lo + (hi - lo) / 2;
        let c: u64 = cube_of(mid);
        if c <= u {
            lo = mid;
        } else {
            hi = mid;
        }
    }
    proof {
        assert(hi == lo + 1);
        assert(0 <= lo as int && cube(lo as int) <= u as int && (u as int) < cube(lo as int + 1));
        assert(exists|r: int| 0 <= r && #[trigger] cube(r) <= u as int && (u as int) < cube(r + 1));
        lemma_cbrt_unique(u as int, lo as int, spec_cbrt(u as int));
    }
    lo
}

proof fn lemma_udiv_bound(x: int, b: int, d: int)
    requires
        0 <= x,
        x <= b * d,
        0 < d,
        0 <= b,
    ensures
        0 <= x / d,
        x / d <= b,
{
    vstd::arithmetic::div_mod::lemma_div_is_ordered(x, b * d, d);
    vstd::arithmetic::div_mod::lemma_div_by_multiple(b, d);
    vstd::arithmetic::div_mod::lemma_div_pos_is_pos(x, d);
}

/// Division that truncates toward zero, as the executable code divides.
pub open spec fn div_trunc(s: int, d: int) -> int {
    if s >= 0 {
        s / d
    } else {
        -((-s) / d)
    }
}

pub(crate) proof fn lemma_div_trunc_bound(s: int, d: int, b: int)
    requires
        -(b * d) <= s,
        s <= b * d,
        0 < d,
        0 <= b,
    ensures
        -b <= div_trunc(s, d),
        div_trunc(s, d) <= b,
{
    if s >= 0 {
        lemma_udiv_bound(s, b, d);
    } else {
        lemma_udiv_bound(-s, b, d);
    }
}

/// The linearized value of one fixed-point channel: the sRGB transfer
/// curve is approximated by a square, which keeps all arithmetic exact
/// in integers.
pub open spec fn spec_linearize(v: int) -> int {
    (v * v) / 65536
}

fn linearize(v: u32) -> (r: u64)
    requires
        v <= CHANNEL_ONE,
    ensures
        r == spec_linearize(v as int),
        r <= 65536,
{
    proof {
        assert((v as int) * (v as int) <= 65536 * 65536) by (nonlinear_arith)
            requires
                v <= 65536,
        ;
        lemma_udiv_bound((v as int) * (v as int), 65536, 65536);
    }
    ((v as u64) * (v as u64)) / 65536
}

/// The CIE lightness helper `f`: a cube root above a small threshold and a
/// linear ramp below it, both in fixed point (scale `65536`).
pub open spec fn spec_lab_f(t: int) -> int {
    if t > 580 {
        spec_cbrt(t * 4294967296)
    } else {
        t * 100000 / 12842 + 9039
    }
}

fn lab_f(t: u64) -> (f: u64)
    requires
        t <= 65600,
    ensures
        f == spec_lab_f(t as int),
        f <= 70000,
{
    if t > 580 {
        cbrt_fp(t * 4294967296)
    } else {
        proof {
            lemma_udiv_bound((t as int) * 100000, 5000, 12842);
        }
        t * 100000 / 12842 + 9039
    }
}

/// The tristimulus coordinates of a pixel, each scaled by `65536` and
/// already divided by the white point, so that `spec_lab_f` applies
/// directly.
pub open spec fn spec_xyz_t(c: Rgba) -> (int, int, int) {
    let rl = spec_linearize(c.r as int);
    let gl = spec_linearize(c.g as int);
    let bl = spec_linearize(c.b as int);
    let x = (4124 * rl + 3576 * gl + 1805 * bl) / 10000;
    let y = (2126 * rl + 7152 * gl + 722 * bl) / 10000;
    let z = (193 * rl + 1192 * gl + 9505 * bl) / 10000;
    (x * 100000 / 95047, y, z * 100000 / 108883)
}

/// The perceptual color of a pixel: a fixed-point CIE L*a*b* conversion
/// (D65 white point), with alpha carried through as a fourth coordinate.
pub open spec fn spec_srgb_to_lab(c: Rgba) -> Lab {
    let (tx, ty, tz) = spec_xyz_t(c);
    let fx = spec_lab_f(tx);
    let fy = spec_lab_f(ty);
    let fz = spec_lab_f(tz);
    Lab {
        l: ((116 * fy) / 256 - 4096) as i64,
        a: div_trunc(500 * (fx - fy), 256) as i64,
        b: div_trunc(200 * (fy - fz), 256) as i64,
        alpha: ((c.a as int) / 256) as i64,
    }
}

/// Convert one pixel into perceptual space. Deterministic: the result is a
/// function of the pixel alone.
pub fn srgb_to_lab(c: &Rgba) -> (lab: Lab)
    requires
        c.wf(),
    ensures
        lab == spec_srgb_to_lab(*c),
        lab.wf(),
{
    let rl: u64 = linearize(c.r);
    let gl: u64 = linearize(c.g);
    let bl: u64 = linearize(c.b);
    proof {
        lemma_udiv_bound(4124 * (rl as int) + 3576 * (gl as int) + 1805 * (bl as int), 62292, 10000);
        lemma_udiv_bound(2126 * (rl as int) + 7152 * (gl as int) + 722 * (bl as int), 65536, 10000);
        lemma_udiv_bound(193 * (rl as int) + 1192 * (gl as int) + 9505 * (bl as int), 71369, 10000);
    }
    let x: u64 = (4124 * rl + 3576 * gl + 1805 * bl) / 10000;
    let y: u64 = (2126 * rl + 7152 * gl + 722 * bl) / 10000;
    let z: u64 = (193 * rl + 1192 * gl + 9505 * bl) / 10000;
    proof {
        lemma_udiv_bound((x as int) * 100000, 65539, 95047);
        lemma_udiv_bound((z as int) * 100000, 65550, 108883);
    }
    let tx: u64 = x * 100000 / 95047;
    let tz: u64 = z * 100000 / 108883;
    let fx: u64 = lab_f(tx);
    let fy: u64 = lab_f(y);
    let fz: u64 = lab_f(tz);
    proof {
        lemma_udiv_bound(116 * (fy as int), 31719, 256);
    }
    let lraw: u64 = (116 * fy) / 256;
    let l: i64 = (lraw as i64) - 4096;
    let anum: i64 = 500 * ((fx as i64) - (fy as i64));
    let bnum: i64 = 200 * ((fy as i64) - (fz as i64));
    proof {
        lemma_div_trunc_bound(anum as int, 256, 136719);
        lemma_div_trunc_bound(bnum as int, 256, 54688);
    }
    let a: i64 = if anum >= 0 {
        anum / 256
    } else {
        -((-anum) / 256)
    };
    let b: i64 = if bnum >= 0 {
        bnum / 256
    } else {
        -((-bnum) / 256)
    };
    let alpha: i64 = ((c.a / 256) as i64);
    Lab { l, a, b, alpha }
}

} // verus!
