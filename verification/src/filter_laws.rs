//! What the filters leave unchanged, and how they depend on their constants.
use crate::frame::{luma, smear_sum, smeared};
use crate::image::{
    blurred, clamped, column_sum, interpolated, is_median, lemma_index, reaching, reflected,
    row_sum, tap, thresholded, total, window, Gray,
};
use vstd::prelude::*;

verus! {

/// Whether all pixels of an image are alike.
pub open spec fn is_flat(g: &Gray, c: u8) -> bool {
    g.wf() && forall|x: int, y: int| 0 <= x < g.w && 0 <= y < g.h ==> #[trigger] g.pixel(x, y) == c
}

/// Reflection leads into the row.
proof fn lemma_reflected_in(i: int, n: int)
    requires
        n >= 1,
    ensures
        0 <= reflected(i, n) < n,
{
    if n > 1 {
        let p = 2 * (n - 1);
        assert(0 <= i % p < p) by (nonlinear_arith)
            requires
                p > 0,
        ;
    }
}

/// The horizontal sum over a flat image.
proof fn lemma_flat_row_sum(g: &Gray, c: u8, k: Seq<i32>, x: int, y: int, t: nat)
    requires
        is_flat(g, c),
        g.w >= 1,
        0 <= y < g.h,
    ensures
        row_sum(g, k, x, y, t) == total(k, t) * c,
    decreases t,
{
    if t == 0 {
        assert(0 * c == 0) by (nonlinear_arith);
    } else {
        let j = (t - 1) as nat;
        lemma_flat_row_sum(g, c, k, x, y, j);
        let xx = reflected(x + t - 1 - k.len() / 2, g.w as int);
        lemma_reflected_in(x + t - 1 - k.len() / 2, g.w as int);
        assert(g.pixel(xx, y) == c);
        let (a, b) = (total(k, j), k[t - 1] as int);
        assert(a * c + b * c == (a + b) * c) by (nonlinear_arith);
    }
}

/// The vertical sum over a flat image.
proof fn lemma_flat_column_sum(g: &Gray, c: u8, k: Seq<i32>, x: int, y: int, t: nat)
    requires
        is_flat(g, c),
        g.w >= 1,
        g.h >= 1,
    ensures
        column_sum(g, k, x, y, t) == total(k, t) * (total(k, k.len()) * c),
    decreases t,
{
    let s = total(k, k.len()) * c;
    if t == 0 {
        assert(0 * s == 0) by (nonlinear_arith);
    } else {
        let j = (t - 1) as nat;
        lemma_flat_column_sum(g, c, k, x, y, j);
        let yy = reflected(y + t - 1 - k.len() / 2, g.h as int);
        lemma_reflected_in(y + t - 1 - k.len() / 2, g.h as int);
        lemma_flat_row_sum(g, c, k, x, yy, k.len());
        let (a, b) = (total(k, j), k[t - 1] as int);
        assert(a * s + b * s == (a + b) * s) by (nonlinear_arith);
    }
}

/// A blur with weights that add up to one leaves a flat image as it is.
pub proof fn law_blur_keeps_flat(g: &Gray, c: u8, k: Seq<i32>, x: int, y: int)
    requires
        is_flat(g, c),
        total(k, k.len()) == 256,
        0 <= x < g.w,
        0 <= y < g.h,
    ensures
        blurred(g, k, x, y) == g.pixel(x, y),
{
    lemma_flat_column_sum(g, c, k, x, y, k.len());
}

/// The sum that a smear takes over a flat image.
proof fn lemma_flat_smear_sum(g: &Gray, c: u8, x: int, y: int, l: int, k: nat)
    requires
        is_flat(g, c),
        g.w >= 1,
        0 <= y < g.h,
    ensures
        smear_sum(g, x, y, l, k) == k * c,
    decreases k,
{
    if k == 0 {
        assert(0 * c == 0) by (nonlinear_arith);
    } else {
        lemma_flat_smear_sum(g, c, x, y, l, (k - 1) as nat);
        assert(g.pixel(clamped(x - l / 2 + k - 1, g.w as int), y) == c);
        assert((k - 1) * c + c == k * c) by (nonlinear_arith);
    }
}

/// Motion leaves a flat image as it is.
pub proof fn law_motion_keeps_flat(g: &Gray, c: u8, x: int, y: int, l: int)
    requires
        is_flat(g, c),
        l >= 1,
        0 <= x < g.w,
        0 <= y < g.h,
    ensures
        smeared(g, x, y, l) == g.pixel(x, y),
{
    lemma_flat_smear_sum(g, c, x, y, l, l as nat);
    let s = smear_sum(g, x, y, l, l as nat);
    assert(2 * s + l == (2 * l) * c + l) by (nonlinear_arith)
        requires
            s == l * c,
    ;
    vstd::arithmetic::div_mod::lemma_fundamental_div_mod_converse(2 * s + l, 2 * l, c as int, l);
}

/// The median filter leaves a flat image as it is.
pub proof fn law_median_keeps_flat(g: &Gray, c: u8, x: int, y: int, m: u8)
    requires
        is_flat(g, c),
        0 <= x < g.w,
        0 <= y < g.h,
        is_median(window(g, x, y), m),
    ensures
        m == g.pixel(x, y),
{
    let s = window(g, x, y);
    assert forall|i: int| 0 <= i < 9 implies s[i] == c by {}
    assert(reaching(s, c as int) == 9);
    assert(reaching(s, c + 1) == 0);
}

/// A map that moves nothing leaves an image as it is.
pub proof fn law_remap_keeps_place(g: &Gray, x: int, y: int)
    requires
        g.wf(),
        0 <= x < g.w,
        0 <= y < g.h,
    ensures
        interpolated(g, 32 * x, 32 * y) == g.pixel(x, y),
{
    lemma_index(g.w as int, g.h as int, x, y);
    assert(tap(g, x, y) == g.pixel(x, y));
    assert((32 * x) / 32 == x && (32 * x) % 32 == 0);
    assert((32 * y) / 32 == y && (32 * y) % 32 == 0);
    let (t, u, v, w) = (tap(g, x, y), tap(g, x + 1, y), tap(g, x, y + 1), tap(g, x + 1, y + 1));
    assert((32 - 0) * (32 - 0) * t + 0 * (32 - 0) * u + (32 - 0) * 0 * v + 0 * 0 * w == 1024 * t)
        by (nonlinear_arith);
}

/// The luma of a shade of gray is the shade.
pub proof fn law_luma_of_gray(v: u8)
    ensures
        luma(v as int, v as int, v as int) == v,
{
}

/// An adaptive threshold gives black and white, and raising its constant only
/// clears pixels.
pub proof fn law_threshold_clears(px: Seq<u8>, mean: Seq<u8>, low: int, high: int, i: int)
    requires
        low <= high,
        0 <= i < px.len(),
    ensures
        thresholded(px, mean, low).len() == px.len(),
        thresholded(px, mean, low)[i] == 0 || thresholded(px, mean, low)[i] == 255,
        thresholded(px, mean, high)[i] == 255 ==> thresholded(px, mean, low)[i] == 255,
{
}

} // verus!
