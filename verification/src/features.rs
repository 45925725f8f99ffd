//! Feature extraction: turning the canonical grayscale buffer into a
//! fixed-length, unit-normalized fixed-point descriptor.
//!
//! Four sub-extractors run over the canonical `128 x 128` buffer and their
//! outputs are concatenated in a fixed order: regional statistics over a
//! `3 x 3` grid (mean and variance per cell), average edge energy, a coarse
//! local-binary-pattern histogram, and geometric measures (aspect ratio and
//! left/right symmetry).  The concatenation is divided by its Euclidean norm,
//! so the descriptor length is the constant [`DESCRIPTOR_LEN`] for every
//! build of this library.

use vstd::prelude::*;
use crate::errors::FaceError;
use crate::frame::{preprocess, spec_canonical, spec_region_ok, GrayFrame};
use crate::math::{
    isqrt, isqrt_spec, lemma_isqrt_bounds, lemma_isqrt_monotone, lemma_isqrt_pos,
    lemma_isqrt_square, SCALE,
};
use crate::similarity::{
    compute_similarity, lemma_sum_sq_elem_le, lemma_sum_sq_zero, spec_similarity, sum_sq,
    wf_descriptor,
};

verus! {

/// The fixed descriptor length of this build: 18 regional statistics, 1 edge
/// energy, 32 texture bins, the aspect ratio and the symmetry score.
pub const DESCRIPTOR_LEN: usize = 53;

/// A sample of the canonical buffer (row-major, width 128).
pub open spec fn px(img: Seq<u8>, y: int, x: int) -> u8 {
    img[y * 128 + x]
}

/// `|a - b|` for two samples.
pub open spec fn abs_diff(a: u8, b: u8) -> nat {
    if a >= b {
        (a - b) as nat
    } else {
        (b - a) as nat
    }
}

// --- Regional statistics -------------------------------------------------
//
// The grid is 3 x 3 with 42 x 42 cells, so the cell pixel count is the
// constant 1764 and two rows and columns at the high edges stay unused.

/// The `t`-th pixel (row-major within the cell) of grid cell `(rx, ry)`.
pub open spec fn cell_px(img: Seq<u8>, rx: int, ry: int, t: int) -> u8 {
    px(img, ry * 42 + t / 42, rx * 42 + t % 42)
}

/// Sum of the first `t` pixels of a cell.
pub open spec fn cell_sum_upto(img: Seq<u8>, rx: int, ry: int, t: int) -> nat
    decreases t,
{
    if t <= 0 {
        0
    } else {
        cell_sum_upto(img, rx, ry, t - 1) + cell_px(img, rx, ry, t - 1) as nat
    }
}

/// Mean intensity of a cell, as an integer in `[0, 255]`.
pub open spec fn cell_mean(img: Seq<u8>, rx: int, ry: int) -> int {
    cell_sum_upto(img, rx, ry, 1764) as int / 1764
}

/// Sum over the first `t` cell pixels of the squared distance to the cell
/// mean.
pub open spec fn cell_var_upto(img: Seq<u8>, rx: int, ry: int, t: int) -> nat
    decreases t,
{
    if t <= 0 {
        0
    } else {
        let d = abs_diff(cell_px(img, rx, ry, t - 1), cell_mean(img, rx, ry) as u8);
        cell_var_upto(img, rx, ry, t - 1) + d * d
    }
}

/// The cell's mean feature: mean intensity normalized to `[0, 1]` fixed
/// point.
pub open spec fn cell_mean_feat(img: Seq<u8>, rx: int, ry: int) -> int {
    cell_sum_upto(img, rx, ry, 1764) * SCALE / ((1764 * 255) as int)
}

/// The cell's variance feature: variance normalized by the squared maximum
/// intensity.
pub open spec fn cell_var_feat(img: Seq<u8>, rx: int, ry: int) -> int {
    cell_var_upto(img, rx, ry, 1764) * SCALE / 114704100
}

/// The 18 regional features: mean and variance of each cell, row by row.
pub open spec fn spec_regional(img: Seq<u8>) -> Seq<u64> {
    Seq::new(
        18,
        |i: int|
            {
                let c = i / 2;
                let ry = c / 3;
                let rx = c % 3;
                if i % 2 == 0 {
                    cell_mean_feat(img, rx, ry) as u64
                } else {
                    cell_var_feat(img, rx, ry) as u64
                }
            },
    )
}

// --- Edge energy ---------------------------------------------------------
//
// Interior pixels form a 126 x 126 block; the gradient magnitude at each is
// the rounded-down length of the horizontal/vertical difference vector.

/// Gradient magnitude at the `t`-th interior pixel.
pub open spec fn edge_mag(img: Seq<u8>, t: int) -> nat {
    let y = 1 + t / 126;
    let x = 1 + t % 126;
    let dx = abs_diff(px(img, y, x + 1), px(img, y, x - 1));
    let dy = abs_diff(px(img, y + 1, x), px(img, y - 1, x));
    isqrt_spec(dx * dx + dy * dy)
}

/// Sum of the first `t` gradient magnitudes.
pub open spec fn edge_sum_upto(img: Seq<u8>, t: int) -> nat
    decreases t,
{
    if t <= 0 {
        0
    } else {
        edge_sum_upto(img, t - 1) + edge_mag(img, t - 1)
    }
}

/// The edge feature: average gradient magnitude normalized by the maximum
/// intensity.
pub open spec fn edge_feat(img: Seq<u8>) -> int {
    edge_sum_upto(img, 15876) * SCALE / 4048380
}

// --- Texture (local binary patterns) -------------------------------------

/// The 8-bit neighbor-comparison pattern at the `t`-th interior pixel: one
/// bit per neighbor, set when the neighbor is at least the center, in
/// circular order starting at the upper-left.
pub open spec fn lbp_pattern(img: Seq<u8>, t: int) -> int {
    let y = 1 + t / 126;
    let x = 1 + t % 126;
    let c = px(img, y, x);
    (if px(img, y - 1, x - 1) >= c {
        1int
    } else {
        0int
    }) + (if px(img, y - 1, x) >= c {
        2int
    } else {
        0int
    }) + (if px(img, y - 1, x + 1) >= c {
        4int
    } else {
        0int
    }) + (if px(img, y, x + 1) >= c {
        8int
    } else {
        0int
    }) + (if px(img, y + 1, x + 1) >= c {
        16int
    } else {
        0int
    }) + (if px(img, y + 1, x) >= c {
        32int
    } else {
        0int
    }) + (if px(img, y + 1, x - 1) >= c {
        64int
    } else {
        0int
    }) + (if px(img, y, x - 1) >= c {
        128int
    } else {
        0int
    })
}

/// How many of the first `t` interior pixels have pattern `v`.
pub open spec fn lbp_count_upto(img: Seq<u8>, v: int, t: int) -> nat
    decreases t,
{
    if t <= 0 {
        0
    } else {
        lbp_count_upto(img, v, t - 1) + if lbp_pattern(img, t - 1) == v {
            1nat
        } else {
            0nat
        }
    }
}

/// Sum of the counts of the first `k` patterns of coarse bucket `j`.
pub open spec fn lbp_bin_upto(img: Seq<u8>, j: int, k: int) -> nat
    decreases k,
{
    if k <= 0 {
        0
    } else {
        lbp_bin_upto(img, j, k - 1) + lbp_count_upto(img, 8 * j + (k - 1), 15876)
    }
}

/// The `j`-th texture feature: the share of interior pixels whose pattern
/// falls in the bucket of 8 contiguous pattern values starting at `8 * j`.
pub open spec fn lbp_feat(img: Seq<u8>, j: int) -> int {
    lbp_bin_upto(img, j, 8) * SCALE / 15876
}

/// The 32 texture features.
pub open spec fn spec_texture(img: Seq<u8>) -> Seq<u64> {
    Seq::new(32, |j: int| lbp_feat(img, j) as u64)
}

// --- Geometric measures --------------------------------------------------

/// The canonical buffer is square, so its aspect ratio is exactly `1.0`.
pub open spec fn aspect_feat() -> int {
    128 * SCALE / 128
}

/// Absolute difference between the `t`-th left-half pixel and its mirror.
pub open spec fn sym_diff(img: Seq<u8>, t: int) -> nat {
    let y = t / 64;
    let x = t % 64;
    abs_diff(px(img, y, x), px(img, y, 127 - x))
}

/// Sum of the first `t` mirror differences.
pub open spec fn sym_sum_upto(img: Seq<u8>, t: int) -> nat
    decreases t,
{
    if t <= 0 {
        0
    } else {
        sym_sum_upto(img, t - 1) + sym_diff(img, t - 1)
    }
}

/// The symmetry feature: `1.0` for a perfectly mirror-symmetric buffer,
/// falling linearly with the mean mirror difference.
pub open spec fn sym_feat(img: Seq<u8>) -> int {
    SCALE - sym_sum_upto(img, 8192) * SCALE / 2088960
}

// --- Assembly and normalization ------------------------------------------

/// The raw concatenated feature vector, before normalization.
pub open spec fn spec_raw_features(img: Seq<u8>) -> Seq<u64> {
    spec_regional(img) + seq![edge_feat(img) as u64] + spec_texture(img) + seq![
        aspect_feat() as u64,
        sym_feat(img) as u64,
    ]
}

/// Division of a vector by its Euclidean norm (rounded down), in fixed
/// point; the zero vector is left unchanged.
pub open spec fn spec_normalize(v: Seq<u64>) -> Seq<u64> {
    if sum_sq(v) == 0 {
        v
    } else {
        Seq::new(v.len(), |i: int| (v[i] * SCALE / (isqrt_spec(sum_sq(v)) as int)) as u64)
    }
}

/// The complete descriptor of a canonical buffer.
pub open spec fn spec_extract(img: Seq<u8>) -> Seq<u64> {
    spec_normalize(spec_raw_features(img))
}

/// The feature-extraction engine.
///
/// Face localization here is a fixed geometric heuristic over the input frame
/// (a centered crop), not a trained detector: it assumes a centered subject.
pub struct FaceDetector;

/// One detected face: its extracted descriptor.
#[derive(Debug, Clone, PartialEq, Eq)]
pub struct FaceInfo {
    pub features: Vec<u64>,
}

impl FaceDetector {
    /// The engine needs no state or model files.
    pub fn new() -> (r: Result<FaceDetector, FaceError>)
        ensures
            r is Ok,
    {
        Ok(FaceDetector)
    }

    /// The canonical similarity score between two descriptors (see
    /// [`crate::similarity`]); the one formula used across enrollment and
    /// authentication.
    pub fn compute_similarity(features1: &[u64], features2: &[u64]) -> (r: u64)
        requires
            wf_descriptor(features1@),
            wf_descriptor(features2@),
        ensures
            r == spec_similarity(features1@, features2@),
            r <= SCALE,
    {
        compute_similarity(features1, features2)
    }
}


/// Division helpers for flat cell indices.
proof fn lemma_flat_index(t: int, d: int, bound: int)
    requires
        0 <= t,
        0 < d,
        t < bound * d,
    ensures
        0 <= t / d < bound,
        0 <= t % d < d,
{
    vstd::arithmetic::div_mod::lemma_fundamental_div_mod(t, d);
    assert(d * (t / d) <= t);
    if t / d >= bound {
        assert(d * (t / d) >= d * bound) by (nonlinear_arith)
            requires
                t / d >= bound,
                d > 0,
        ;
        assert(bound * d == d * bound) by (nonlinear_arith);
    }
}

impl FaceDetector {
    /// Mean and variance of each cell of a 3 x 3 grid over the canonical
    /// buffer, each normalized to fixed point.
    pub fn extract_regional_features(&self, img: &GrayFrame) -> (r: Vec<u64>)
        requires
            img.wf(),
            img.width == 128,
            img.height == 128,
        ensures
            r@ == spec_regional(img.pixels@),
            forall|i: int| 0 <= i < r@.len() ==> r@[i] <= 100000000,
    {
        let ghost p = img.pixels@;
        let n = img.pixels.len();
        let mut features: Vec<u64> = Vec::new();
        let mut ry: usize = 0;
        while ry < 3
            invariant
                img.wf(),
                img.width == 128,
                img.height == 128,
                p == img.pixels@,
                n == p.len(),
                ry <= 3,
                features@.len() == (ry as int) * 6,
                forall|i: int| 0 <= i < features@.len() ==> features@[i] == spec_regional(p)[i],
                forall|i: int| 0 <= i < features@.len() ==> features@[i] <= 100000000,
            decreases 3 - ry,
        {
            let mut rx: usize = 0;
            while rx < 3
                invariant
                    img.wf(),
                    img.width == 128,
                    img.height == 128,
                    p == img.pixels@,
                    n == p.len(),
                    ry < 3,
                    rx <= 3,
                    features@.len() == (ry as int) * 6 + (rx as int) * 2,
                    forall|i: int| 0 <= i < features@.len() ==> features@[i] == spec_regional(p)[i],
                    forall|i: int| 0 <= i < features@.len() ==> features@[i] <= 100000000,
                decreases 3 - rx,
            {
                let mut s: u64 = 0;
                let mut t: usize = 0;
                while t < 1764
                    invariant
                        img.wf(),
                        img.width == 128,
                        img.height == 128,
                        p == img.pixels@,
                        n == p.len(),
                        ry < 3,
                        rx < 3,
                        t <= 1764,
                        s == cell_sum_upto(p, rx as int, ry as int, t as int),
                        s <= 255 * (t as int),
                    decreases 1764 - t,
                {
                    proof {
                        lemma_flat_index(t as int, 42, 42);
                    }
                    let row = ry * 42 + t / 42;
                    let col = rx * 42 + t % 42;
                    let v = img.pixels[row * 128 + col];
                    s = s + v as u64;
                    t = t + 1;
                }
                proof {
                    vstd::arithmetic::div_mod::lemma_div_is_ordered(s as int, 449820, 1764);
                    vstd::arithmetic::div_mod::lemma_div_multiples_vanish(255, 1764);
                    vstd::arithmetic::div_mod::lemma_div_is_ordered(
                        (s as int) * 1000000,
                        449820int * 1000000,
                        449820,
                    );
                    vstd::arithmetic::div_mod::lemma_div_multiples_vanish(1000000, 449820);
                }
                let mf = s * SCALE / 449820;
                let m = s / 1764;
                features.push(mf);
                let mut vs: u64 = 0;
                let mut t2: usize = 0;
                while t2 < 1764
                    invariant
                        img.wf(),
                        img.width == 128,
                        img.height == 128,
                        p == img.pixels@,
                        n == p.len(),
                        ry < 3,
                        rx < 3,
                        t2 <= 1764,
                        m <= 255,
                        m as int == cell_mean(p, rx as int, ry as int),
                        vs == cell_var_upto(p, rx as int, ry as int, t2 as int),
                        vs <= 65025 * (t2 as int),
                    decreases 1764 - t2,
                {
                    proof {
                        lemma_flat_index(t2 as int, 42, 42);
                    }
                    let row = ry * 42 + t2 / 42;
                    let col = rx * 42 + t2 % 42;
                    let v = img.pixels[row * 128 + col] as u64;
                    let d = if v >= m {
                        v - m
                    } else {
                        m - v
                    };
                    proof {
                        assert(d as nat == abs_diff(
                            cell_px(p, rx as int, ry as int, t2 as int),
                            m as u8,
                        ));
                        assert((d as int) * (d as int) <= 65025) by (nonlinear_arith)
                            requires
                                0 <= d as int <= 255,
                        ;
                    }
                    vs = vs + d * d;
                    t2 = t2 + 1;
                }
                proof {
                    vstd::arithmetic::div_mod::lemma_div_is_ordered(
                        (vs as int) * 1000000,
                        114704100int * 1000000,
                        114704100,
                    );
                    vstd::arithmetic::div_mod::lemma_div_multiples_vanish(1000000, 114704100);
                }
                let vf = vs * SCALE / 114704100;
                features.push(vf);
                proof {
                    let c = (ry as int) * 3 + (rx as int);
                    vstd::arithmetic::div_mod::lemma_fundamental_div_mod_converse(
                        2 * c,
                        2,
                        c,
                        0,
                    );
                    vstd::arithmetic::div_mod::lemma_fundamental_div_mod_converse(
                        2 * c + 1,
                        2,
                        c,
                        1,
                    );
                    vstd::arithmetic::div_mod::lemma_fundamental_div_mod_converse(
                        c,
                        3,
                        ry as int,
                        rx as int,
                    );
                    assert(features@[2 * c] == spec_regional(p)[2 * c]);
                    assert(features@[2 * c + 1] == spec_regional(p)[2 * c + 1]);
                }
                rx = rx + 1;
            }
            ry = ry + 1;
        }
        proof {
            assert(features@ =~= spec_regional(p));
        }
        features
    }

    /// Average gradient magnitude over the interior pixels, normalized.
    pub fn extract_edge_features(&self, img: &GrayFrame) -> (r: Vec<u64>)
        requires
            img.wf(),
            img.width == 128,
            img.height == 128,
        ensures
            r@ =~= seq![edge_feat(img.pixels@) as u64],
            forall|i: int| 0 <= i < r@.len() ==> r@[i] <= 100000000,
    {
        let ghost p = img.pixels@;
        let n = img.pixels.len();
        let mut s: u64 = 0;
        let mut t: usize = 0;
        while t < 15876
            invariant
                img.wf(),
                img.width == 128,
                img.height == 128,
                p == img.pixels@,
                n == p.len(),
                t <= 15876,
                s == edge_sum_upto(p, t as int),
                s <= 361 * (t as int),
            decreases 15876 - t,
        {
            proof {
                lemma_flat_index(t as int, 126, 126);
            }
            let y = 1 + t / 126;
            let x = 1 + t % 126;
            let a = img.pixels[y * 128 + (x + 1)] as u64;
            let b = img.pixels[y * 128 + (x - 1)] as u64;
            let c = img.pixels[(y + 1) * 128 + x] as u64;
            let d = img.pixels[(y - 1) * 128 + x] as u64;
            let dx = if a >= b {
                a - b
            } else {
                b - a
            };
            let dy = if c >= d {
                c - d
            } else {
                d - c
            };
            proof {
                assert((dx as int) * (dx as int) <= 65025) by (nonlinear_arith)
                    requires
                        0 <= dx as int <= 255,
                ;
                assert((dy as int) * (dy as int) <= 65025) by (nonlinear_arith)
                    requires
                        0 <= dy as int <= 255,
                ;
            }
            let mag = isqrt((dx * dx + dy * dy) as u128);
            proof {
                lemma_isqrt_bounds((dx * dx + dy * dy) as nat);
                assert(mag <= 361) by (nonlinear_arith)
                    requires
                        (mag as int) * (mag as int) <= (dx as int) * (dx as int) + (dy as int) * (
                        dy as int),
                        0 <= dx as int <= 255,
                        0 <= dy as int <= 255,
                        mag >= 0,
                ;
                assert(mag as nat == edge_mag(p, t as int));
            }
            s = s + mag;
            t = t + 1;
        }
        proof {
            vstd::arithmetic::div_mod::lemma_div_is_ordered(
                (s as int) * 1000000,
                4048380int * 2000000,
                4048380,
            );
            vstd::arithmetic::div_mod::lemma_div_multiples_vanish(2000000, 4048380);
        }
        let f = s * SCALE / 4048380;
        let mut out: Vec<u64> = Vec::new();
        out.push(f);
        out
    }

    /// The coarse local-binary-pattern histogram, normalized per bucket.
    #[verifier::rlimit(60)]
    pub fn extract_texture_features(&self, img: &GrayFrame) -> (r: Vec<u64>)
        requires
            img.wf(),
            img.width == 128,
            img.height == 128,
        ensures
            r@ == spec_texture(img.pixels@),
            forall|i: int| 0 <= i < r@.len() ==> r@[i] <= 100000000,
    {
        let ghost p = img.pixels@;
        let n = img.pixels.len();
        let mut hist: Vec<u64> = vec![0u64; 256];
        let mut t: usize = 0;
        while t < 15876
            invariant
                img.wf(),
                img.width == 128,
                img.height == 128,
                p == img.pixels@,
                n == p.len(),
                t <= 15876,
                hist@.len() == 256,
                forall|v: int| 0 <= v < 256 ==> hist@[v] == lbp_count_upto(p, v, t as int),
                forall|v: int| 0 <= v < 256 ==> hist@[v] <= t,
            decreases 15876 - t,
        {
            proof {
                lemma_flat_index(t as int, 126, 126);
            }
            let y = 1 + t / 126;
            let x = 1 + t % 126;
            let c = img.pixels[y * 128 + x];
            let mut pat: usize = 0;
            if img.pixels[(y - 1) * 128 + (x - 1)] >= c {
                pat = pat + 1;
            }
            if img.pixels[(y - 1) * 128 + x] >= c {
                pat = pat + 2;
            }
            if img.pixels[(y - 1) * 128 + (x + 1)] >= c {
                pat = pat + 4;
            }
            if img.pixels[y * 128 + (x + 1)] >= c {
                pat = pat + 8;
            }
            if img.pixels[(y + 1) * 128 + (x + 1)] >= c {
                pat = pat + 16;
            }
            if img.pixels[(y + 1) * 128 + x] >= c {
                pat = pat + 32;
            }
            if img.pixels[(y + 1) * 128 + (x - 1)] >= c {
                pat = pat + 64;
            }
            if img.pixels[y * 128 + (x - 1)] >= c {
                pat = pat + 128;
            }
            proof {
                assert(pat as int == lbp_pattern(p, t as int));
            }
            let h = hist[pat];
            hist.set(pat, h + 1);
            proof {
                assert forall|v: int| 0 <= v < 256 implies hist@[v] == lbp_count_upto(
                    p,
                    v,
                    t as int + 1,
                ) by {}
            }
            t = t + 1;
        }
        let mut features: Vec<u64> = Vec::new();
        let mut j: usize = 0;
        while j < 32
            invariant
                img.wf(),
                p == img.pixels@,
                hist@.len() == 256,
                forall|v: int| 0 <= v < 256 ==> hist@[v] == lbp_count_upto(p, v, 15876),
                forall|v: int| 0 <= v < 256 ==> hist@[v] <= 15876,
                j <= 32,
                features@.len() == j,
                forall|i: int| 0 <= i < j ==> features@[i] == spec_texture(p)[i],
                forall|i: int| 0 <= i < j ==> features@[i] <= 100000000,
            decreases 32 - j,
        {
            let mut bin: u64 = 0;
            let mut k: usize = 0;
            while k < 8
                invariant
                    p == img.pixels@,
                    hist@.len() == 256,
                    forall|v: int| 0 <= v < 256 ==> hist@[v] == lbp_count_upto(p, v, 15876),
                    forall|v: int| 0 <= v < 256 ==> hist@[v] <= 15876,
                    j < 32,
                    k <= 8,
                    bin == lbp_bin_upto(p, j as int, k as int),
                    bin <= 15876 * (k as int),
                decreases 8 - k,
            {
                bin = bin + hist[8 * j + k];
                k = k + 1;
            }
            proof {
                vstd::arithmetic::div_mod::lemma_div_is_ordered(
                    (bin as int) * 1000000,
                    15876int * 8000000,
                    15876,
                );
                vstd::arithmetic::div_mod::lemma_div_multiples_vanish(8000000, 15876);
            }
            let f = bin * SCALE / 15876;
            features.push(f);
            j = j + 1;
        }
        proof {
            assert(features@ =~= spec_texture(p));
        }
        features
    }

    /// Aspect ratio and mirror-symmetry score of the canonical buffer.
    pub fn extract_geometric_features(&self, img: &GrayFrame) -> (r: Vec<u64>)
        requires
            img.wf(),
            img.width == 128,
            img.height == 128,
        ensures
            r@ =~= seq![aspect_feat() as u64, sym_feat(img.pixels@) as u64],
            forall|i: int| 0 <= i < r@.len() ==> r@[i] <= 100000000,
    {
        let ghost p = img.pixels@;
        let n = img.pixels.len();
        let aspect = 128 * SCALE / 128;
        let mut s: u64 = 0;
        let mut t: usize = 0;
        while t < 8192
            invariant
                img.wf(),
                img.width == 128,
                img.height == 128,
                p == img.pixels@,
                n == p.len(),
                t <= 8192,
                s == sym_sum_upto(p, t as int),
                s <= 255 * (t as int),
            decreases 8192 - t,
        {
            proof {
                lemma_flat_index(t as int, 64, 128);
            }
            let y = t / 64;
            let x = t % 64;
            let a = img.pixels[y * 128 + x];
            let b = img.pixels[y * 128 + (127 - x)];
            let d = if a >= b {
                (a - b) as u64
            } else {
                (b - a) as u64
            };
            s = s + d;
            t = t + 1;
        }
        proof {
            vstd::arithmetic::div_mod::lemma_div_is_ordered(
                (s as int) * 1000000,
                2088960int * 1000000,
                2088960,
            );
            vstd::arithmetic::div_mod::lemma_div_multiples_vanish(1000000, 2088960);
        }
        let q = s * SCALE / 2088960;
        let sym = SCALE - q;
        let mut out: Vec<u64> = Vec::new();
        out.push(aspect);
        out.push(sym);
        out
    }

    /// Divide a raw feature vector by its Euclidean norm (fixed point); the
    /// zero vector stays zero.
    fn normalize_features(v: Vec<u64>) -> (r: Vec<u64>)
        requires
            forall|i: int| 0 <= i < v@.len() ==> v@[i] <= 100000000,
        ensures
            r@ == spec_normalize(v@),
            wf_descriptor(r@),
            r@.len() == v@.len(),
    {
        let n = v.len();
        let mut sum: u128 = 0;
        let mut i: usize = 0;
        while i < n
            invariant
                n == v@.len(),
                forall|j: int| 0 <= j < v@.len() ==> v@[j] <= 100000000,
                i <= n,
                sum == sum_sq(v@.take(i as int)),
                sum <= (i as int) * 10000000000000000,
            decreases n - i,
        {
            let x = v[i];
            proof {
                assert(v@.take(i as int + 1).drop_last() =~= v@.take(i as int));
                assert(v@.take(i as int + 1).last() == v@[i as int]);
                assert((x as int) * (x as int) <= 10000000000000000) by (nonlinear_arith)
                    requires
                        0 <= x as int <= 100000000,
                ;
                assert((i as int) * 10000000000000000 + 10000000000000000 == (i as int + 1)
                    * 10000000000000000);
                assert((i as int + 1) * 10000000000000000 <= 0x10000000000000000
                    * 10000000000000000);
            }
            sum = sum + (x as u128) * (x as u128);
            i = i + 1;
        }
        proof {
            assert(v@.take(n as int) =~= v@);
        }
        if sum == 0 {
            proof {
                lemma_sum_sq_zero(v@);
                assert(wf_descriptor(v@));
            }
            return v;
        }
        let norm = isqrt(sum);
        proof {
            lemma_isqrt_pos(sum as nat);
        }
        let mut out: Vec<u64> = Vec::new();
        let mut i2: usize = 0;
        while i2 < n
            invariant
                n == v@.len(),
                sum == sum_sq(v@),
                sum != 0,
                norm == isqrt_spec(sum as nat),
                norm >= 1,
                i2 <= n,
                out@.len() == i2,
                forall|j: int|
                    0 <= j < i2 ==> out@[j] == ((v@[j] * SCALE / (isqrt_spec(sum_sq(v@)) as int))
                        as u64) && out@[j] <= SCALE,
            decreases n - i2,
        {
            let x = v[i2];
            proof {
                lemma_sum_sq_elem_le(v@, i2 as int);
                lemma_isqrt_monotone(((x as int) * (x as int)) as nat, sum as nat);
                lemma_isqrt_square(x as nat);
                assert(x <= norm);
                assert((x as int) * (SCALE as int) <= (norm as int) * (SCALE as int))
                    by (nonlinear_arith)
                    requires
                        0 <= x as int <= norm as int,
                        SCALE == 1000000,
                ;
                vstd::arithmetic::div_mod::lemma_div_is_ordered(
                    (x as int) * (SCALE as int),
                    (norm as int) * (SCALE as int),
                    norm as int,
                );
                vstd::arithmetic::div_mod::lemma_div_multiples_vanish(
                    SCALE as int,
                    norm as int,
                );
                crate::math::lemma_u64_mul_fits(x, SCALE);
            }
            let scaled = (x as u128) * (SCALE as u128);
            let q = (scaled / (norm as u128)) as u64;
            out.push(q);
            i2 = i2 + 1;
        }
        proof {
            assert(out@ =~= spec_normalize(v@));
        }
        out
    }

    /// The complete descriptor of a canonical buffer: the four sub-extractors
    /// concatenated in fixed order, then unit-normalized.
    pub fn extract_features(&self, img: &GrayFrame) -> (r: Vec<u64>)
        requires
            img.wf(),
            img.width == 128,
            img.height == 128,
        ensures
            r@ == spec_extract(img.pixels@),
            wf_descriptor(r@),
            r@.len() == DESCRIPTOR_LEN,
    {
        let ghost p = img.pixels@;
        let mut features = self.extract_regional_features(img);
        let ghost f0 = features@;
        let mut edge = self.extract_edge_features(img);
        let ghost ev = edge@;
        features.append(&mut edge);
        let ghost f1 = features@;
        let mut texture = self.extract_texture_features(img);
        let ghost tv = texture@;
        features.append(&mut texture);
        let ghost f2 = features@;
        let mut geo = self.extract_geometric_features(img);
        let ghost gv = geo@;
        features.append(&mut geo);
        proof {
            assert(features@ =~= f2 + gv);
            assert(f2 =~= f1 + tv);
            assert(f1 =~= f0 + ev);
            assert(features@ =~= spec_raw_features(p));
            assert forall|i: int| 0 <= i < features@.len() implies features@[i] <= 100000000 by {
                if i < f0.len() {
                    assert(features@[i] == f0[i]);
                } else if i < f1.len() {
                    assert(features@[i] == ev[i - f0.len()]);
                } else if i < f2.len() {
                    assert(features@[i] == tv[i - f1.len()]);
                } else {
                    assert(features@[i] == gv[i - f2.len()]);
                }
            }
        }
        FaceDetector::normalize_features(features)
    }

    /// Preprocess a raw frame and extract its descriptor.
    ///
    /// Returns a single detection (the fixed centered-crop heuristic finds at
    /// most one face).  Fails with `InvalidRegion` exactly when the crop
    /// would leave a region with a zero-sized side.
    pub fn detect_faces(&self, frame: &GrayFrame) -> (r: Result<Vec<FaceInfo>, FaceError>)
        requires
            frame.wf(),
        ensures
            match r {
                Ok(faces) => {
                    &&& spec_region_ok(frame.width as int, frame.height as int)
                    &&& faces@.len() == 1
                    &&& faces@[0].features@ == spec_extract(
                        spec_canonical(frame.pixels@, frame.width as int, frame.height as int),
                    )
                    &&& wf_descriptor(faces@[0].features@)
                    &&& faces@[0].features@.len() == DESCRIPTOR_LEN
                },
                Err(e) => e == FaceError::InvalidRegion && !spec_region_ok(
                    frame.width as int,
                    frame.height as int,
                ),
            },
    {
        let canonical = match preprocess(frame) {
            Ok(g) => g,
            Err(e) => {
                return Err(e);
            },
        };
        let features = self.extract_features(&canonical);
        let mut faces: Vec<FaceInfo> = Vec::new();
        faces.push(FaceInfo { features });
        Ok(faces)
    }
}

} // verus!
