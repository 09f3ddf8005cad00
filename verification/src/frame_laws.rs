//! What the intake of frames does to their pixels.
use crate::filter_laws::is_flat;
use crate::frame::{
    block_sum, depth, factor, luma, luma_at, smear, smear_sum, smeared, PixelFormat,
};
use crate::image::{clamped, Gray};
use crate::image_laws::is_spot;
use vstd::prelude::*;

verus! {

/// The luma of a color is the nearest whole number to the weighted mean of its
/// parts, the larger one of two.
pub proof fn law_luma_is_nearest(r: u8, g: u8, b: u8)
    ensures
        ({
            let (v, exact) = (luma(r as int, g as int, b as int), 77 * r + 150 * g + 29 * b);
            256 * v - 128 <= exact < 256 * v + 128
        }),
{
}

/// A pixel with its bytes in the opposite order, in the opposite format, has
/// the same luma; of the parts green counts the most, then red.
pub proof fn law_formats_are_opposite(data: Seq<u8>, other: Seq<u8>, i: int)
    requires
        0 <= i,
        i + 3 <= data.len(),
        i + 3 <= other.len(),
        other[i] == data[i + 2],
        other[i + 1] == data[i + 1],
        other[i + 2] == data[i],
    ensures
        depth(PixelFormat::Rgb) == depth(PixelFormat::Bgr),
        luma_at(PixelFormat::Rgb, data, i) == luma_at(PixelFormat::Bgr, other, i),
        data[i] >= data[i + 2] ==> luma_at(PixelFormat::Rgb, data, i) >= luma_at(
            PixelFormat::Rgb,
            other,
            i,
        ),
{
}

/// A frame is made smaller by the least factor that brings it to the target
/// width, and left alone without a target.
pub proof fn law_factor_is_least(w: int, target: int)
    requires
        w >= 0,
        target >= 0,
    ensures
        factor(w, target) >= 1,
        target == 0 ==> factor(w, target) == 1,
        target > 0 ==> factor(w, target) * target >= w,
        target > 0 && factor(w, target) > 1 ==> (factor(w, target) - 1) * target < w,
{
    if target > 0 && w > target {
        let (a, f) = (w + target - 1, factor(w, target));
        vstd::arithmetic::div_mod::lemma_fundamental_div_mod(a, target);
        let r = a % target;
        assert(f * target >= w && (f - 1) * target < w && f >= 1) by (nonlinear_arith)
            requires
                a == target * f + r,
                0 <= r < target,
                a == w + target - 1,
                w > target,
                target > 0,
        ;
    }
}

/// The pixel of a block at some place in its order.
proof fn lemma_block_place(f: int, i: int, j: int, k: int)
    requires
        f >= 1,
        0 <= i < f,
        0 <= k,
    ensures
        k % f == i && k / f == j <==> k == j * f + i,
        0 <= k % f < f,
{
    vstd::arithmetic::div_mod::lemma_fundamental_div_mod(k, f);
    assert(f * (k / f) == (k / f) * f) by (nonlinear_arith);
    assert(0 <= k % f < f) by (nonlinear_arith)
        requires
            f >= 1,
    ;
    if k == j * f + i {
        vstd::arithmetic::div_mod::lemma_fundamental_div_mod_converse(k, f, j, i);
    }
}

/// The first pixels of a block of an image with one bright pixel.
proof fn lemma_spot_block(
    g: &Gray,
    px: int,
    py: int,
    v: u8,
    x: int,
    y: int,
    f: int,
    k: nat,
)
    requires
        is_spot(g, px, py, v),
        f >= 1,
        0 <= x,
        0 <= y,
        (x + 1) * f <= g.w,
        (y + 1) * f <= g.h,
        k <= f * f,
    ensures
        ({
            let (i, j) = (px - x * f, py - y * f);
            block_sum(g, x, y, f, k) == if 0 <= i < f && 0 <= j < f && j * f + i < k {
                v as int
            } else {
                0
            }
        }),
    decreases k,
{
    let (i, j) = (px - x * f, py - y * f);
    if k == 0 {
        if 0 <= i < f && 0 <= j < f {
            assert(j * f + i >= 0) by (nonlinear_arith)
                requires
                    0 <= i,
                    0 <= j,
                    f >= 1,
            ;
        }
    } else {
        let t = k - 1;
        lemma_spot_block(g, px, py, v, x, y, f, t as nat);
        let (u, w) = (t % f, t / f);
        lemma_block_place(f, u, w, t);
        assert((x + 1) * f == x * f + f && (y + 1) * f == y * f + f && 0 <= x * f && 0 <= y * f)
            by (nonlinear_arith)
            requires
                0 <= x,
                0 <= y,
                f >= 1,
        ;
        vstd::arithmetic::div_mod::lemma_fundamental_div_mod(t, f);
        assert(0 <= w < f) by (nonlinear_arith)
            requires
                t == f * w + u,
                0 <= u < f,
                0 <= t < f * f,
        ;
        assert(g.pixel(x * f + u, y * f + w) == if x * f + u == px && y * f + w == py {
            v
        } else {
            0
        });
        if 0 <= i < f && 0 <= j < f {
            lemma_block_place(f, i, j, t);
        }
    }
}

/// A block of a frame that is made smaller takes in each of its pixels once,
/// and no other.
pub proof fn law_block_takes_its_pixels(
    g: &Gray,
    px: int,
    py: int,
    v: u8,
    x: int,
    y: int,
    f: int,
)
    requires
        is_spot(g, px, py, v),
        f >= 1,
        0 <= x,
        0 <= y,
        (x + 1) * f <= g.w,
        (y + 1) * f <= g.h,
    ensures
        block_sum(g, x, y, f, (f * f) as nat) == if x * f <= px < (x + 1) * f && y * f <= py < (y
            + 1) * f {
            v as int
        } else {
            0
        },
{
    assert(f * f >= 0) by (nonlinear_arith);
    lemma_spot_block(g, px, py, v, x, y, f, (f * f) as nat);
    assert((x + 1) * f == x * f + f && (y + 1) * f == y * f + f) by (nonlinear_arith);
    let (i, j) = (px - x * f, py - y * f);
    if 0 <= i < f && 0 <= j < f {
        assert(j * f + i < f * f) by (nonlinear_arith)
            requires
                0 <= i < f,
                0 <= j < f,
        ;
    }
}

/// The first pixels of a block of a flat image.
proof fn lemma_flat_block(g: &Gray, c: u8, x: int, y: int, f: int, k: nat)
    requires
        is_flat(g, c),
        f >= 1,
        0 <= x,
        0 <= y,
        (x + 1) * f <= g.w,
        (y + 1) * f <= g.h,
        k <= f * f,
    ensures
        block_sum(g, x, y, f, k) == k * c,
    decreases k,
{
    if k == 0 {
        assert(0 * c == 0) by (nonlinear_arith);
    } else {
        let t = k - 1;
        lemma_flat_block(g, c, x, y, f, t as nat);
        let (u, w) = (t % f, t / f);
        lemma_block_place(f, u, w, t);
        assert((x + 1) * f == x * f + f && (y + 1) * f == y * f + f && 0 <= x * f && 0 <= y * f)
            by (nonlinear_arith)
            requires
                0 <= x,
                0 <= y,
                f >= 1,
        ;
        vstd::arithmetic::div_mod::lemma_fundamental_div_mod(t, f);
        assert(0 <= w < f) by (nonlinear_arith)
            requires
                t == f * w + u,
                0 <= u < f,
                0 <= t < f * f,
        ;
        assert(g.pixel(x * f + u, y * f + w) == c);
        assert((k - 1) * c + c == k * c) by (nonlinear_arith);
    }
}

/// Making a frame smaller leaves a flat one flat.
pub proof fn law_downscale_keeps_flat(g: &Gray, c: u8, x: int, y: int, f: int)
    requires
        is_flat(g, c),
        f >= 1,
        0 <= x,
        0 <= y,
        (x + 1) * f <= g.w,
        (y + 1) * f <= g.h,
    ensures
        block_sum(g, x, y, f, (f * f) as nat) / (f * f) == c,
{
    assert(f * f >= 1) by (nonlinear_arith)
        requires
            f >= 1,
    ;
    let m = f * f;
    lemma_flat_block(g, c, x, y, f, m as nat);
    assert(m * c == c * m) by (nonlinear_arith);
    vstd::arithmetic::div_mod::lemma_fundamental_div_mod_converse(m * c, m, c as int, 0);
}

/// The length of a smear is the one asked for where that is two pixels or more
/// and fits in half a row; it is never less than two.
pub proof fn law_smear_length(length: int, w: int)
    requires
        w >= 0,
    ensures
        smear(length, w) >= 2,
        2 <= length && 2 * length <= w ==> smear(length, w) == length,
        2 * length > w && w >= 4 ==> smear(length, w) == w / 2,
        length <= 2 || w < 4 ==> smear(length, w) == 2,
{
}

/// The first pixels of a smear over an image with one bright pixel.
proof fn lemma_spot_smear(g: &Gray, px: int, py: int, v: u8, x: int, y: int, l: int, k: nat)
    requires
        is_spot(g, px, py, v),
        0 < px < g.w - 1,
        0 <= y < g.h,
    ensures
        smear_sum(g, x, y, l, k) == if y == py && x - l / 2 <= px < x - l / 2 + k {
            v as int
        } else {
            0
        },
    decreases k,
{
    if k > 0 {
        lemma_spot_smear(g, px, py, v, x, y, l, (k - 1) as nat);
        let i = x - l / 2 + k - 1;
        let c = clamped(i, g.w as int);
        assert(g.pixel(c, y) == if c == px && y == py {
            v
        } else {
            0
        });
    }
}

/// Motion spreads a bright pixel evenly over as many pixels of its row as the
/// smear is long, around the pixel.
pub proof fn law_motion_spreads_pixel(
    g: &Gray,
    px: int,
    py: int,
    v: u8,
    x: int,
    y: int,
    l: int,
)
    requires
        is_spot(g, px, py, v),
        l >= 2,
        0 < px < g.w - 1,
        0 <= x < g.w,
        0 <= y < g.h,
    ensures
        ({
            let s = smeared(g, x, y, l);
            if y == py && px + l / 2 - l < x <= px + l / 2 {
                l * (2 * s - 1) <= 2 * v < l * (2 * s + 1)
            } else {
                s == 0
            }
        }),
{
    lemma_spot_smear(g, px, py, v, x, y, l, l as nat);
    let t = smear_sum(g, x, y, l, l as nat);
    let s = smeared(g, x, y, l);
    vstd::arithmetic::div_mod::lemma_fundamental_div_mod(2 * t + l, 2 * l);
    let r = (2 * t + l) % (2 * l);
    assert(l * (2 * s - 1) <= 2 * t < l * (2 * s + 1)) by (nonlinear_arith)
        requires
            2 * t + l == 2 * l * s + r,
            0 <= r < 2 * l,
    ;
    if t == 0 {
        vstd::arithmetic::div_mod::lemma_basic_div(l, 2 * l);
    }
}

/// Whether `f` is `g` with `r` more columns on each side, in which the first and
/// the last column are repeated.
pub open spec fn has_repeated_columns(g: &Gray, f: &Gray, r: int) -> bool {
    &&& f.w == g.w + 2 * r
    &&& f.h == g.h
    &&& forall|i: int, j: int|
        0 <= i < f.w && 0 <= j < f.h ==> #[trigger] f.pixel(i, j) == g.pixel(
            (if i < r {
                0
            } else if i >= g.w + r {
                g.w - 1
            } else {
                i - r
            }),
            j,
        )
}

/// The first pixels of a smear at the border.
proof fn lemma_smear_at_border(g: &Gray, f: &Gray, x: int, y: int, l: int, k: nat)
    requires
        has_repeated_columns(g, f, l),
        l >= 2,
        k <= l,
        0 <= x < g.w,
        0 <= y < g.h,
    ensures
        smear_sum(g, x, y, l, k) == smear_sum(f, x + l, y, l, k),
    decreases k,
{
    if k > 0 {
        lemma_smear_at_border(g, f, x, y, l, (k - 1) as nat);
        let i = x - l / 2 + k - 1;
        assert(x + l - l / 2 + k - 1 == i + l);
        assert(f.pixel(i + l, y) == g.pixel(clamped(i, g.w as int), y));
    }
}

/// At the ends of a row motion smears as in an image in which the first and the
/// last column are repeated.
pub proof fn law_motion_at_border(g: &Gray, f: &Gray, x: int, y: int, l: int)
    requires
        has_repeated_columns(g, f, l),
        l >= 2,
        0 <= x < g.w,
        0 <= y < g.h,
    ensures
        smeared(g, x, y, l) == smeared(f, x + l, y, l),
{
    lemma_smear_at_border(g, f, x, y, l, l as nat);
}

} // verus!
