use vstd::prelude::*;
use crate::color::{Rgb, Residual};

verus! {

/// The resampled source: a row-major grid of RGB cells that error
/// diffusion updates ahead of the scan.
pub struct WorkingRaster {
    pub width: usize,
    pub height: usize,
    pub pixels: Vec<Rgb>,
}

/// `n / 16` rounded toward zero.
pub open spec fn trunc16(n: int) -> int {
    if n >= 0 {
        n / 16
    } else {
        -((-n) / 16)
    }
}

/// `v` clamped to the channel range [0, 255].
pub open spec fn clamp_channel(v: int) -> u8 {
    if v < 0 {
        0
    } else if v > 255 {
        255
    } else {
        v as u8
    }
}

/// A channel after receiving `weight`/16 of the error `e`.
pub open spec fn shift(v: u8, e: i32, weight: int) -> u8 {
    clamp_channel(v + trunc16(e * weight))
}

pub open spec fn shift_color(c: Rgb, e: Residual, weight: int) -> Rgb {
    Rgb { r: shift(c.r, e.r, weight), g: shift(c.g, e.g, weight), b: shift(c.b, e.b, weight) }
}

/// Cell `i` after receiving `weight`/16 of the error.
pub open spec fn bump(px: Seq<Rgb>, i: int, e: Residual, weight: int) -> Seq<Rgb> {
    px.update(i, shift_color(px[i], e, weight))
}

/// The cells after diffusing the error of cell (x, y): 7/16 to the right,
/// 3/16 below left, 5/16 below and 1/16 below right, each only where that
/// cell exists.
pub open spec fn diffused(px: Seq<Rgb>, w: int, h: int, x: int, y: int, e: Residual) -> Seq<Rgb> {
    let p1 = if x + 1 < w { bump(px, y * w + x + 1, e, 7) } else { px };
    let p2 = if y + 1 < h && x >= 1 { bump(p1, (y + 1) * w + x - 1, e, 3) } else { p1 };
    let p3 = if y + 1 < h { bump(p2, (y + 1) * w + x, e, 5) } else { p2 };
    if y + 1 < h && x + 1 < w { bump(p3, (y + 1) * w + x + 1, e, 1) } else { p3 }
}

/// A channel that receives part of an error, however large, is clamped to
/// [0, 255]: it is the plain sum where that lies in range, else the bound
/// that the sum passed.
pub proof fn lemma_shift_saturates(v: u8, e: i32, weight: int)
    ensures
        0 <= shift(v, e, weight) <= 255,
        0 <= v + trunc16(e * weight) <= 255 ==> shift(v, e, weight) == v + trunc16(e * weight),
        v + trunc16(e * weight) < 0 ==> shift(v, e, weight) == 0,
        v + trunc16(e * weight) > 255 ==> shift(v, e, weight) == 255,
{
}

/// Diffusion changes no cell but the in-bounds ones among its four
/// targets: on the last column both targets to the right are skipped, on
/// the last row all three below.
pub proof fn lemma_diffuse_in_bounds_only(px: Seq<Rgb>, w: int, h: int, x: int, y: int, e: Residual)
    requires
        px.len() == w * h,
        0 <= x < w,
        0 <= y < h,
    ensures
        diffused(px, w, h, x, y, e).len() == px.len(),
        forall|i: int|
            0 <= i < px.len() && #[trigger] diffused(px, w, h, x, y, e)[i] != px[i] ==> {
                ||| (x + 1 < w && i == y * w + x + 1)
                ||| (y + 1 < h && x >= 1 && i == (y + 1) * w + x - 1)
                ||| (y + 1 < h && i == (y + 1) * w + x)
                ||| (y + 1 < h && x + 1 < w && i == (y + 1) * w + x + 1)
            },
{
    lemma_targets_in_bounds(w, h, x, y);
}

proof fn lemma_targets_in_bounds(w: int, h: int, x: int, y: int)
    requires
        0 <= x < w,
        0 <= y < h,
    ensures
        x + 1 < w ==> 0 <= y * w + x + 1 < w * h,
        y + 1 < h ==> 0 <= (y + 1) * w + x < w * h,
        y + 1 < h && x >= 1 ==> 0 <= (y + 1) * w + x - 1 < w * h,
        y + 1 < h && x + 1 < w ==> 0 <= (y + 1) * w + x + 1 < w * h,
        0 <= y * w + x < w * h,
{
    assert(0 <= y * w) by (nonlinear_arith)
        requires
            0 <= y,
            0 <= w,
    ;
    assert(y * w + x < w * h) by (nonlinear_arith)
        requires
            0 <= x < w,
            0 <= y < h,
    ;
    assert(y * w + w <= w * h) by (nonlinear_arith)
        requires
            0 <= y < h,
            0 <= w,
    ;
    if y + 1 < h {
        assert((y + 1) * w + w <= w * h) by (nonlinear_arith)
            requires
                0 <= y + 1 < h,
                0 <= w,
        ;
        assert((y + 1) * w + x < w * h) by (nonlinear_arith)
            requires
                0 <= x < w,
                0 <= y + 1 < h,
        ;
        assert((y + 1) * w == y * w + w) by (nonlinear_arith);
    }
}

fn shift_channel(v: u8, e: i32, weight: i64) -> (r: u8)
    requires
        0 <= weight <= 16,
    ensures
        r == shift(v, e, weight as int),
{
    assert(-0x8000_0000 * 16 <= e * weight <= 0x7fff_ffff * 16) by (nonlinear_arith)
        requires
            0 <= weight <= 16,
            -0x8000_0000 <= e <= 0x7fff_ffff,
    ;
    let prod: i64 = e as i64 * weight;
    let t: i64 = if prod >= 0 {
        prod / 16
    } else {
        -((-prod) / 16)
    };
    let s: i64 = v as i64 + t;
    if s < 0 {
        0
    } else if s > 255 {
        255
    } else {
        s as u8
    }
}

fn shift_rgb(c: Rgb, e: &Residual, weight: i64) -> (r: Rgb)
    requires
        0 <= weight <= 16,
    ensures
        r == shift_color(c, *e, weight as int),
{
    Rgb { r: shift_channel(c.r, e.r, weight), g: shift_channel(c.g, e.g, weight), b: shift_channel(c.b, e.b, weight) }
}

impl WorkingRaster {
    pub open spec fn wf(&self) -> bool {
        self.pixels@.len() == self.width * self.height
    }

    fn bump_cell(&mut self, i: usize, e: &Residual, weight: i64)
        requires
            i < old(self).pixels@.len(),
            0 <= weight <= 16,
        ensures
            final(self).width == old(self).width,
            final(self).height == old(self).height,
            final(self).pixels@ == bump(old(self).pixels@, i as int, *e, weight as int),
    {
        let c = shift_rgb(self.pixels[i], e, weight);
        self.pixels.set(i, c);
    }

    /// Diffuses the residual `e` of cell (x, y) into its unprocessed
    /// neighbours, each channel clamped to [0, 255].
    pub fn diffuse(&mut self, x: usize, y: usize, e: &Residual)
        requires
            old(self).wf(),
            x < old(self).width,
            y < old(self).height,
        ensures
            final(self).wf(),
            final(self).width == old(self).width,
            final(self).height == old(self).height,
            final(self).pixels@ == diffused(
                old(self).pixels@,
                old(self).width as int,
                old(self).height as int,
                x as int,
                y as int,
                *e,
            ),
    {
        let w: usize = self.width;
        let h: usize = self.height;
        let n: usize = self.pixels.len();
        proof {
            lemma_targets_in_bounds(w as int, h as int, x as int, y as int);
        }
        if x + 1 < w {
            self.bump_cell(y * w + x + 1, e, 7);
        }
        if y + 1 < h && x >= 1 {
            self.bump_cell((y + 1) * w + x - 1, e, 3);
        }
        if y + 1 < h {
            self.bump_cell((y + 1) * w + x, e, 5);
        }
        if y + 1 < h && x + 1 < w {
            self.bump_cell((y + 1) * w + x + 1, e, 1);
        }
    }
}

} // verus!
