//! Image preprocessing: normalizing a decoded grayscale frame into the
//! canonical buffer that feature extraction works on.
//!
//! The pipeline is: crop the central 70% of the frame (a fixed geometric
//! stand-in for face detection — it assumes a centered subject), boost
//! brightness by the exact gain `13/10`, equalize the histogram, and resample
//! to the canonical `128x128` resolution.  Everything but the resampling is
//! verified exactly; the resampling is delegated to the `image` crate.

use vstd::prelude::*;
use crate::errors::FaceError;

verus! {

/// A decoded grayscale frame: row-major 8-bit samples.
#[derive(Debug, Clone, PartialEq, Eq)]
pub struct GrayFrame {
    pub width: usize,
    pub height: usize,
    pub pixels: Vec<u8>,
}

impl GrayFrame {
    /// The buffer holds exactly one sample per pixel, and the dimensions are
    /// small enough for any image backend.
    pub open spec fn wf(self) -> bool {
        &&& self.pixels@.len() == self.width * self.height
        &&& self.width <= u32::MAX
        &&& self.height <= u32::MAX
    }

    /// Wrap a row-major buffer.
    pub fn new(width: usize, height: usize, pixels: Vec<u8>) -> (r: GrayFrame)
        requires
            pixels@.len() == width * height,
            width <= u32::MAX,
            height <= u32::MAX,
        ensures
            r.width == width,
            r.height == height,
            r.pixels == pixels,
            r.wf(),
    {
        GrayFrame { width, height, pixels }
    }
}

/// Horizontal margin of the central-70% crop: 15% of the width, rounded down.
pub open spec fn crop_margin(side: int) -> int {
    (3 * side) / 20
}

/// Width of the cropped region.
pub open spec fn crop_side(side: int) -> int {
    side - 2 * crop_margin(side)
}

/// Does the crop leave a region with two positive sides?
pub open spec fn spec_region_ok(w: int, h: int) -> bool {
    crop_side(w) > 0 && crop_side(h) > 0
}

/// The central crop of a `w x h` buffer, row-major.
pub open spec fn spec_cropped(p: Seq<u8>, w: int, h: int) -> Seq<u8> {
    let mx = crop_margin(w);
    let my = crop_margin(h);
    let cw = crop_side(w);
    let ch = crop_side(h);
    Seq::new((cw * ch) as nat, |i: int| p[(my + i / cw) * w + mx + i % cw])
}

/// One pixel after the fixed brightness gain of `13/10`, saturating at 255.
pub open spec fn bright_pixel(v: u8) -> u8 {
    if v * 13 / 10 > 255 {
        255
    } else {
        (v * 13 / 10) as u8
    }
}

/// The whole buffer after the brightness gain.
pub open spec fn spec_brightened(p: Seq<u8>) -> Seq<u8> {
    p.map_values(|v: u8| bright_pixel(v))
}

/// How many samples equal `v`.
pub open spec fn count_eq(s: Seq<u8>, v: u8) -> nat
    decreases s.len(),
{
    if s.len() == 0 {
        0
    } else {
        count_eq(s.drop_last(), v) + if s.last() == v {
            1nat
        } else {
            0nat
        }
    }
}

/// How many samples are at most `v`.
pub open spec fn count_le(s: Seq<u8>, v: u8) -> nat
    decreases s.len(),
{
    if s.len() == 0 {
        0
    } else {
        count_le(s.drop_last(), v) + if s.last() <= v {
            1nat
        } else {
            0nat
        }
    }
}

/// One pixel after histogram equalization: its cumulative frequency remapped
/// to the full intensity range.
pub open spec fn eq_pixel(s: Seq<u8>, v: u8) -> u8 {
    ((count_le(s, v) * 255) / s.len()) as u8
}

/// The whole buffer after histogram equalization.
pub open spec fn spec_equalized(p: Seq<u8>) -> Seq<u8> {
    Seq::new(p.len(), |i: int| eq_pixel(p, p[i]))
}

/// What `image::imageops::resize` with the Lanczos3 filter computes on a
/// grayscale buffer: a pure function of the samples and dimensions.
pub uninterp spec fn lanczos_resample(pixels: Seq<u8>, width: int, height: int) -> Seq<u8>;

/// The canonical buffer extracted from a raw frame: crop, brighten, equalize,
/// then resample to `128 x 128`.
pub open spec fn spec_canonical(p: Seq<u8>, w: int, h: int) -> Seq<u8> {
    lanczos_resample(
        spec_equalized(spec_brightened(spec_cropped(p, w, h))),
        crop_side(w),
        crop_side(h),
    )
}

/// Relies on `image::imageops::resize` (Lanczos3) over
/// `image::GrayImage::from_raw` / `into_raw`: resampling is deterministic in
/// the input samples and dimensions, and the returned buffer has exactly the
/// requested `128 x 128` size.
#[verifier::external_body]
fn resize_to_canonical(pixels: &Vec<u8>, width: usize, height: usize) -> (r: Vec<u8>)
    requires
        pixels@.len() == width * height,
        1 <= width <= u32::MAX,
        1 <= height <= u32::MAX,
    ensures
        r@.len() == 16384,
        r@ == lanczos_resample(pixels@, width as int, height as int),
{
    let img = image::GrayImage::from_raw(width as u32, height as u32, pixels.clone())
        .expect("buffer holds width * height samples");
    let out = image::imageops::resize(&img, 128, 128, image::imageops::FilterType::Lanczos3);
    out.into_raw()
}

/// Crop the central 70% of the frame (15% margin on each side of each axis).
///
/// This is a fixed heuristic, not face detection: accuracy depends on the
/// subject being centered in the frame.
pub fn crop_center(frame: &GrayFrame) -> (r: Result<GrayFrame, FaceError>)
    requires
        frame.wf(),
    ensures
        match r {
            Ok(g) => {
                &&& spec_region_ok(frame.width as int, frame.height as int)
                &&& g.wf()
                &&& g.width as int == crop_side(frame.width as int)
                &&& g.height as int == crop_side(frame.height as int)
                &&& g.pixels@ == spec_cropped(
                    frame.pixels@,
                    frame.width as int,
                    frame.height as int,
                )
            },
            Err(e) => e == FaceError::InvalidRegion && !spec_region_ok(
                frame.width as int,
                frame.height as int,
            ),
        },
{
    let w = frame.width;
    let h = frame.height;
    let n = frame.pixels.len();
    let mx = ((w as u64) * 3 / 20) as usize;
    let my = ((h as u64) * 3 / 20) as usize;
    proof {
        vstd::arithmetic::div_mod::lemma_fundamental_div_mod(3 * (w as int), 20);
        vstd::arithmetic::div_mod::lemma_fundamental_div_mod(3 * (h as int), 20);
        assert(mx as int == crop_margin(w as int));
        assert(my as int == crop_margin(h as int));
        assert(2 * (mx as int) <= w as int);
        assert(2 * (my as int) <= h as int);
    }
    let cw = w - 2 * mx;
    let ch = h - 2 * my;
    if cw == 0 || ch == 0 {
        return Err(FaceError::InvalidRegion);
    }
    let ghost target = spec_cropped(frame.pixels@, w as int, h as int);
    let mut out: Vec<u8> = Vec::new();
    let mut y: usize = 0;
    proof {
        assert((cw as int) * (ch as int) <= (w as int) * (h as int)) by (nonlinear_arith)
            requires
                0 < cw <= w,
                0 < ch <= h,
        ;
    }
    while y < ch
        invariant
            frame.wf(),
            w == frame.width,
            h == frame.height,
            mx as int == crop_margin(w as int),
            my as int == crop_margin(h as int),
            cw as int == crop_side(w as int),
            ch as int == crop_side(h as int),
            0 < cw,
            0 < ch,
            y <= ch,
            n == frame.pixels@.len(),
            target == spec_cropped(frame.pixels@, w as int, h as int),
            (cw as int) * (ch as int) <= (w as int) * (h as int),
            out@.len() == (y as int) * (cw as int),
            forall|t: int| 0 <= t < out@.len() ==> out@[t] == target[t],
        decreases ch - y,
    {
        let mut x: usize = 0;
        proof {
            assert((y as int) * (cw as int) + (cw as int) <= (ch as int) * (cw as int))
                by (nonlinear_arith)
                requires
                    0 <= y < ch,
                    0 < cw,
            ;
        }
        while x < cw
            invariant
                frame.wf(),
                w == frame.width,
                h == frame.height,
                mx as int == crop_margin(w as int),
                my as int == crop_margin(h as int),
                cw as int == crop_side(w as int),
                ch as int == crop_side(h as int),
                0 < cw,
                0 < ch,
                y < ch,
                x <= cw,
                n == frame.pixels@.len(),
                target == spec_cropped(frame.pixels@, w as int, h as int),
                (cw as int) * (ch as int) <= (w as int) * (h as int),
                (y as int) * (cw as int) + (cw as int) <= (ch as int) * (cw as int),
                out@.len() == (y as int) * (cw as int) + x as int,
                forall|t: int| 0 <= t < out@.len() ==> out@[t] == target[t],
            decreases cw - x,
        {
            proof {
                assert(((y as int) + (my as int)) * (w as int) + (mx as int) + (x as int) < (
                h as int) * (w as int)) by (nonlinear_arith)
                    requires
                        0 <= (y as int) + (my as int) < (h as int),
                        0 <= (mx as int) + (x as int) < (w as int),
                        0 < w,
                ;
                assert((h as int) * (w as int) == (w as int) * (h as int)) by (nonlinear_arith);
                let t = (y as int) * (cw as int) + (x as int);
                vstd::arithmetic::div_mod::lemma_fundamental_div_mod_converse(
                    t,
                    cw as int,
                    y as int,
                    x as int,
                );
                assert(target[t] == frame.pixels@[((my as int) + (y as int)) * (w as int) + (
                mx as int) + (x as int)]);
            }
            let row = y + my;
            let idx = row * w + (x + mx);
            out.push(frame.pixels[idx]);
            x = x + 1;
        }
        y = y + 1;
        proof {
            assert((y as int) * (cw as int) == (y as int - 1) * (cw as int) + (cw as int))
                by (nonlinear_arith)
            ;
        }
    }
    proof {
        assert(out@.len() == (ch as int) * (cw as int));
        assert((ch as int) * (cw as int) == (cw as int) * (ch as int)) by (nonlinear_arith);
        assert(out@ =~= target);
    }
    Ok(GrayFrame { width: cw, height: ch, pixels: out })
}

/// Multiply every pixel by the fixed gain `13/10`, saturating at 255.
pub fn enhance_brightness(frame: &GrayFrame) -> (r: GrayFrame)
    requires
        frame.wf(),
    ensures
        r.wf(),
        r.width == frame.width,
        r.height == frame.height,
        r.pixels@ == spec_brightened(frame.pixels@),
{
    let n = frame.pixels.len();
    let mut out: Vec<u8> = Vec::new();
    let mut i: usize = 0;
    while i < n
        invariant
            n == frame.pixels@.len(),
            i <= n,
            out@.len() == i,
            forall|j: int| 0 <= j < i ==> out@[j] == bright_pixel(frame.pixels@[j]),
        decreases n - i,
    {
        let v = frame.pixels[i];
        let t = (v as u64) * 13 / 10;
        let b: u8 = if t > 255 {
            255
        } else {
            t as u8
        };
        out.push(b);
        i = i + 1;
    }
    proof {
        assert(out@ =~= spec_brightened(frame.pixels@));
    }
    GrayFrame { width: frame.width, height: frame.height, pixels: out }
}

/// Stepping the per-value counts by one sample.
proof fn lemma_count_eq_take_step(s: Seq<u8>, i: int, v: u8)
    requires
        0 <= i < s.len(),
    ensures
        count_eq(s.take(i + 1), v) == count_eq(s.take(i), v) + if s[i] == v {
            1nat
        } else {
            0nat
        },
{
    assert(s.take(i + 1).drop_last() =~= s.take(i));
    assert(s.take(i + 1).last() == s[i]);
}

/// The cumulative count at `v` extends the one at `v - 1` by the samples
/// equal to `v`.
proof fn lemma_count_le_unfold(s: Seq<u8>, v: u8)
    ensures
        v == 0 ==> count_le(s, v) == count_eq(s, v),
        v >= 1 ==> count_le(s, v) == count_le(s, (v - 1) as u8) + count_eq(s, v),
    decreases s.len(),
{
    if s.len() > 0 {
        lemma_count_le_unfold(s.drop_last(), v);
    }
}

/// No count exceeds the number of samples.
proof fn lemma_count_bounds(s: Seq<u8>, v: u8)
    ensures
        count_eq(s, v) <= s.len(),
        count_le(s, v) <= s.len(),
    decreases s.len(),
{
    if s.len() > 0 {
        lemma_count_bounds(s.drop_last(), v);
    }
}

/// Remap every pixel through the cumulative histogram, scaled to the full
/// intensity range.
pub fn histogram_equalize(frame: &GrayFrame) -> (r: GrayFrame)
    requires
        frame.wf(),
        frame.pixels@.len() > 0,
    ensures
        r.wf(),
        r.width == frame.width,
        r.height == frame.height,
        r.pixels@ == spec_equalized(frame.pixels@),
{
    let ghost p = frame.pixels@;
    let n = frame.pixels.len();
    let mut hist: Vec<u64> = vec![0u64; 256];
    let mut i: usize = 0;
    while i < n
        invariant
            n == p.len(),
            p == frame.pixels@,
            i <= n,
            hist@.len() == 256,
            forall|v: int| 0 <= v < 256 ==> hist@[v] == count_eq(p.take(i as int), v as u8),
            forall|v: int| 0 <= v < 256 ==> hist@[v] <= i,
        decreases n - i,
    {
        let px = frame.pixels[i] as usize;
        let c = hist[px];
        hist.set(px, c + 1);
        proof {
            assert forall|v: int| 0 <= v < 256 implies hist@[v] == count_eq(
                p.take(i as int + 1),
                v as u8,
            ) by {
                lemma_count_eq_take_step(p, i as int, v as u8);
            }
        }
        i = i + 1;
    }
    proof {
        assert(p.take(n as int) =~= p);
    }
    // Cumulative distribution.
    let mut cum: Vec<u64> = vec![0u64; 256];
    let c0 = hist[0];
    cum.set(0, c0);
    proof {
        lemma_count_le_unfold(p, 0);
        lemma_count_bounds(p, 0);
    }
    let mut v: usize = 1;
    while v < 256
        invariant
            n == p.len(),
            p == frame.pixels@,
            hist@.len() == 256,
            cum@.len() == 256,
            1 <= v <= 256,
            forall|u: int| 0 <= u < 256 ==> hist@[u] == count_eq(p, u as u8),
            forall|u: int| 0 <= u < v ==> cum@[u] == count_le(p, u as u8),
            forall|u: int| 0 <= u < v ==> cum@[u] <= n,
        decreases 256 - v,
    {
        proof {
            lemma_count_le_unfold(p, v as u8);
            lemma_count_bounds(p, v as u8);
        }
        let c = cum[v - 1] + hist[v];
        cum.set(v, c);
        v = v + 1;
    }
    // Remap.
    let mut out: Vec<u8> = Vec::new();
    let mut i: usize = 0;
    while i < n
        invariant
            n == p.len(),
            p == frame.pixels@,
            n > 0,
            cum@.len() == 256,
            forall|u: int| 0 <= u < 256 ==> cum@[u] == count_le(p, u as u8),
            forall|u: int| 0 <= u < 256 ==> cum@[u] <= n,
            i <= n,
            out@.len() == i,
            forall|j: int| 0 <= j < i ==> out@[j] == eq_pixel(p, p[j]),
        decreases n - i,
    {
        let px = frame.pixels[i];
        let c = cum[px as usize];
        proof {
            vstd::arithmetic::div_mod::lemma_div_is_ordered(
                (c as int) * 255,
                (n as int) * 255,
                n as int,
            );
            vstd::arithmetic::div_mod::lemma_div_multiples_vanish(255, n as int);
            assert((c as int) * 255 <= (n as int) * 255);
        }
        let val = (((c as u128) * 255) / (n as u128)) as u8;
        out.push(val);
        i = i + 1;
    }
    proof {
        assert(out@ =~= spec_equalized(p));
    }
    GrayFrame { width: frame.width, height: frame.height, pixels: out }
}

/// The full preprocessing pipeline: crop, brighten, equalize, resample.
///
/// Fails with `InvalidRegion` exactly when the crop would leave a region with
/// a zero-sized side.
pub fn preprocess(frame: &GrayFrame) -> (r: Result<GrayFrame, FaceError>)
    requires
        frame.wf(),
    ensures
        match r {
            Ok(g) => {
                &&& spec_region_ok(frame.width as int, frame.height as int)
                &&& g.wf()
                &&& g.width == 128
                &&& g.height == 128
                &&& g.pixels@ == spec_canonical(
                    frame.pixels@,
                    frame.width as int,
                    frame.height as int,
                )
            },
            Err(e) => e == FaceError::InvalidRegion && !spec_region_ok(
                frame.width as int,
                frame.height as int,
            ),
        },
{
    let cropped = match crop_center(frame) {
        Ok(g) => g,
        Err(e) => {
            return Err(e);
        },
    };
    proof {
        assert((cropped.width as int) * (cropped.height as int) >= 1) by (nonlinear_arith)
            requires
                cropped.width as int >= 1,
                cropped.height as int >= 1,
        ;
    }
    let brightened = enhance_brightness(&cropped);
    let equalized = histogram_equalize(&brightened);
    let resized = resize_to_canonical(&equalized.pixels, equalized.width, equalized.height);
    Ok(GrayFrame { width: 128, height: 128, pixels: resized })
}

} // verus!
