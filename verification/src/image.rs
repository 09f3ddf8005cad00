//! Grayscale images and the integer filters on them. A filter is given row by
//! row, so that rows can be computed independently of each other, and on a
//! whole image.
use crate::seqs::copied;
use vstd::prelude::*;

verus! {

/// A grayscale image, row by row.
#[derive(Debug)]
pub struct Gray {
    /// The width.
    pub w: usize,
    /// The height.
    pub h: usize,
    /// The pixels.
    pub px: Vec<u8>,
}

impl Gray {
    /// Whether there are as many pixels as there should be.
    pub open spec fn wf(&self) -> bool {
        self.px@.len() == self.w * self.h
    }

    /// The pixel in column `x` of row `y`.
    pub open spec fn pixel(&self, x: int, y: int) -> u8 {
        self.px@[y * self.w + x]
    }

    /// A black image.
    pub fn new(w: usize, h: usize) -> (g: Gray)
        requires
            w * h <= usize::MAX,
        ensures
            g.wf(),
            g.w == w,
            g.h == h,
            forall|i: int| 0 <= i < g.px@.len() ==> #[trigger] g.px@[i] == 0,
    {
        let n = w * h;
        let mut px: Vec<u8> = Vec::new();
        let mut i: usize = 0;
        while i < n
            invariant
                i <= n,
                px@.len() == i,
                forall|k: int| 0 <= k < i ==> #[trigger] px@[k] == 0,
            decreases n - i,
        {
            px.push(0);
            i += 1;
        }
        Gray { w, h, px }
    }

    /// The pixel in column `x` of row `y`.
    pub fn at(&self, x: usize, y: usize) -> (v: u8)
        requires
            y * self.w + x < self.px@.len(),
        ensures
            v == self.pixel(x as int, y as int),
    {
        let n = self.px.len();
        assert(0 <= y * self.w) by (nonlinear_arith);
        assert(y * self.w + x < n);
        self.px[y * self.w + x]
    }
}

impl Clone for Gray {
    fn clone(&self) -> (r: Gray)
        ensures
            r.w == self.w,
            r.h == self.h,
            r.px@ == self.px@,
    {
        Gray { w: self.w, h: self.h, px: copied(&self.px) }
    }
}

/// Where a pixel stands.
pub proof fn lemma_index(w: int, h: int, x: int, y: int)
    requires
        0 <= x < w,
        0 <= y < h,
    ensures
        0 <= y * w,
        y * w + x < w * h,
        (y + 1) * w == y * w + w,
        (y + 1) * w <= w * h,
        (y * w + x) / w == y,
        (y * w + x) % w == x,
{
    assert(0 <= y * w && y * w + x < w * h && (y + 1) * w == y * w + w && (y + 1) * w <= w * h)
        by (nonlinear_arith)
        requires
            0 <= x < w,
            0 <= y < h,
    ;
    vstd::arithmetic::div_mod::lemma_fundamental_div_mod_converse(y * w + x, w, y, x);
}

/// An image from its rows.
pub open spec fn from_rows(rows: spec_fn(int) -> Seq<u8>, w: nat, h: nat) -> Seq<u8> {
    Seq::new(w * h, |i: int| rows(i / (w as int))[i % (w as int)])
}

/// Adding a row to the first rows of an image.
proof fn lemma_from_rows(rows: spec_fn(int) -> Seq<u8>, w: nat, y: nat, px: Seq<u8>)
    requires
        px == from_rows(rows, w, y),
        rows(y as int).len() == w,
    ensures
        px + rows(y as int) == from_rows(rows, w, y + 1),
{
    let all = from_rows(rows, w, y + 1);
    let sum = px + rows(y as int);
    assert(w * (y + 1) == w * y + w) by (nonlinear_arith);
    assert forall|i: int| 0 <= i < sum.len() implies sum[i] == all[i] by {
        if i >= w * y {
            let x = i - w * y;
            assert((y as int) * (w as int) == w * y) by (nonlinear_arith);
            vstd::arithmetic::div_mod::lemma_fundamental_div_mod_converse(
                i,
                w as int,
                y as int,
                x,
            );
        }
    }
    assert(sum =~= all);
}

/// The position that an index beyond a row of length `n` is reflected to,
/// without repeating the end: back and forth with the period `2 * (n - 1)`.
pub open spec fn reflected(i: int, n: int) -> int {
    let p = 2 * (n - 1);
    if n == 1 {
        0
    } else if i % p < n {
        i % p
    } else {
        p - i % p
    }
}

/// Reflection at the ends of a row.
fn reflect101(i: i64, n: i64) -> (r: i64)
    requires
        1 <= n <= 0x1000_0000_0000_0000,
        n >= 2 || i == 0,
        -0x2000_0000_0000_0000 <= i <= 0x2000_0000_0000_0000,
    ensures
        r == reflected(i as int, n as int),
        0 <= r < n,
{
    let mut j: i64 = i;
    let ghost p = 2 * (n - 1);
    while j < 0 || j >= n
        invariant
            1 <= n <= 0x1000_0000_0000_0000,
            n >= 2 || j == 0,
            p == 2 * (n - 1),
            -0x2000_0000_0000_0000 <= j <= 0x2000_0000_0000_0000,
            reflected(j as int, n as int) == reflected(i as int, n as int),
        decreases
            (if j < 0 {
                1 - 2 * j
            } else {
                2 * j
            }),
    {
        proof {
            lemma_reflected(j as int, n as int);
        }
        if j < 0 {
            j = -j;
        } else {
            j = 2 * (n - 1) - j;
        }
    }
    proof {
        if n >= 2 {
            vstd::arithmetic::div_mod::lemma_small_mod(j as nat, p as nat);
        }
    }
    j
}

/// Reflection does not change where an index is reflected to.
pub proof fn lemma_reflected(i: int, n: int)
    requires
        n >= 2,
    ensures
        reflected(-i, n) == reflected(i, n),
        reflected(2 * (n - 1) - i, n) == reflected(i, n),
{
    let p = 2 * (n - 1);
    let (q, r) = (i / p, i % p);
    vstd::arithmetic::div_mod::lemma_fundamental_div_mod(i, p);
    assert(p * q == q * p) by (nonlinear_arith);
    if r == 0 {
        assert(-i == p * (-q)) by (nonlinear_arith)
            requires
                i == p * q,
        ;
        vstd::arithmetic::div_mod::lemma_fundamental_div_mod_converse(-i, p, -q, 0);
        assert(p - i == p * (1 - q)) by (nonlinear_arith)
            requires
                i == p * q,
        ;
        vstd::arithmetic::div_mod::lemma_fundamental_div_mod_converse(p - i, p, 1 - q, 0);
    } else {
        assert(-i == p * (-q - 1) + (p - r)) by (nonlinear_arith)
            requires
                i == p * q + r,
        ;
        vstd::arithmetic::div_mod::lemma_fundamental_div_mod_converse(-i, p, -q - 1, p - r);
        assert(p - i == p * (-q) + (p - r)) by (nonlinear_arith)
            requires
                i == p * q + r,
        ;
        vstd::arithmetic::div_mod::lemma_fundamental_div_mod_converse(p - i, p, -q, p - r);
    }
}

/// The nearest position in a row of length `n`.
pub open spec fn clamped(i: int, n: int) -> int {
    if i < 0 {
        0
    } else if i >= n {
        n - 1
    } else {
        i
    }
}

/// The sum of the first `t` entries.
pub open spec fn total(k: Seq<i32>, t: nat) -> int
    decreases t,
{
    if t == 0 {
        0
    } else {
        total(k, (t - 1) as nat) + k[t - 1]
    }
}

/// The first `t` terms of the horizontal sum of a blur, centered on column
/// `x` of row `y`.
pub open spec fn row_sum(src: &Gray, k: Seq<i32>, x: int, y: int, t: nat) -> int
    decreases t,
{
    if t == 0 {
        0
    } else {
        row_sum(src, k, x, y, (t - 1) as nat) + k[t - 1] * src.pixel(
            reflected(x + t - 1 - k.len() / 2, src.w as int),
            y,
        )
    }
}

/// The first `t` terms of the vertical sum of the horizontal sums.
pub open spec fn column_sum(src: &Gray, k: Seq<i32>, x: int, y: int, t: nat) -> int
    decreases t,
{
    if t == 0 {
        0
    } else {
        column_sum(src, k, x, y, (t - 1) as nat) + k[t - 1] * row_sum(
            src,
            k,
            x,
            reflected(y + t - 1 - k.len() / 2, src.h as int),
            k.len(),
        )
    }
}

/// Whether a kernel is one that the blur can work with: no weight is negative,
/// and they add up to at most about eleven, in 8-bit fixed point.
pub open spec fn kernel_ok(k: Seq<i32>) -> bool {
    &&& k.len() <= 0x1000_0000
    &&& total(k, k.len()) <= 2896
    &&& forall|t: int| 0 <= t < k.len() ==> 0 <= #[trigger] k[t]
}

/// The pixel of a blurred image: the weighted sum with 16 fraction bits,
/// rounded.
pub open spec fn blurred(src: &Gray, k: Seq<i32>, x: int, y: int) -> u8 {
    let v = (column_sum(src, k, x, y, k.len()) + 32768) / 65536;
    if v > 255 {
        255
    } else {
        v as u8
    }
}

/// Sums are between zero and what the weights admit.
proof fn lemma_row_sum(src: &Gray, k: Seq<i32>, x: int, y: int, t: nat)
    requires
        kernel_ok(k),
        t <= k.len(),
    ensures
        0 <= total(k, t) <= total(k, k.len()),
        0 <= row_sum(src, k, x, y, t) <= 255 * total(k, t),
    decreases t,
{
    lemma_total(k, t, k.len());
    lemma_total(k, 0, t);
    if t > 0 {
        lemma_row_sum(src, k, x, y, (t - 1) as nat);
        let (a, b) = (
            k[t - 1] as int,
            src.pixel(reflected(x + t - 1 - k.len() / 2, src.w as int), y) as int,
        );
        assert(0 <= a * b <= 255 * a) by (nonlinear_arith)
            requires
                0 <= a,
                0 <= b <= 255,
        ;
    }
}

/// Partial sums of weights grow.
proof fn lemma_total(k: Seq<i32>, s: nat, t: nat)
    requires
        s <= t <= k.len(),
        forall|i: int| 0 <= i < k.len() ==> 0 <= #[trigger] k[i],
    ensures
        total(k, s) <= total(k, t),
    decreases t,
{
    if s < t {
        lemma_total(k, s, (t - 1) as nat);
    }
}

/// The same for the sums of sums.
proof fn lemma_column_sum(src: &Gray, k: Seq<i32>, x: int, y: int, t: nat)
    requires
        kernel_ok(k),
        t <= k.len(),
    ensures
        0 <= column_sum(src, k, x, y, t) <= 738480 * total(k, t),
    decreases t,
{
    if t > 0 {
        lemma_column_sum(src, k, x, y, (t - 1) as nat);
        let yy = reflected(y + t - 1 - k.len() / 2, src.h as int);
        lemma_row_sum(src, k, x, yy, k.len());
        let (a, b) = (k[t - 1] as int, row_sum(src, k, x, yy, k.len()));
        assert(0 <= a * b <= 738480 * a) by (nonlinear_arith)
            requires
                0 <= a,
                0 <= b <= 738480,
        ;
    }
}

/// Whether an image is within the limits of index arithmetic.
pub open spec fn moderate(g: &Gray) -> bool {
    &&& g.wf()
    &&& g.w <= 0x1000_0000_0000_0000
    &&& g.h <= 0x1000_0000_0000_0000
}

/// The horizontal sums of one row.
fn blur_row(src: &Gray, k: &[i32], y: usize) -> (r: Vec<i32>)
    requires
        moderate(src),
        kernel_ok(k@),
        k@.len() >= 2 ==> src.w >= 2,
        y < src.h,
    ensures
        r@.len() == src.w,
        forall|x: int|
            0 <= x < src.w ==> #[trigger] r@[x] == row_sum(src, k@, x, y as int, k@.len()),
{
    let half = k.len() / 2;
    let w = src.w;
    let mut r: Vec<i32> = Vec::new();
    let mut x: usize = 0;
    while x < w
        invariant
            moderate(src),
            kernel_ok(k@),
            k@.len() >= 2 ==> src.w >= 2,
            y < src.h,
            w == src.w,
            half == k@.len() / 2,
            x <= w,
            r@.len() == x,
            forall|i: int| 0 <= i < x ==> #[trigger] r@[i] == row_sum(src, k@, i, y as int, k@.len()),
        decreases w - x,
    {
        let mut acc: i32 = 0;
        let mut t: usize = 0;
        while t < k.len()
            invariant
                moderate(src),
                kernel_ok(k@),
                k@.len() >= 2 ==> src.w >= 2,
                y < src.h,
                w == src.w,
                half == k@.len() / 2,
                x < w,
                t <= k@.len(),
                acc == row_sum(src, k@, x as int, y as int, t as nat),
            decreases k.len() - t,
        {
            let xx = reflect101(x as i64 + t as i64 - half as i64, w as i64) as usize;
            proof {
                lemma_index(w as int, src.h as int, xx as int, y as int);
                lemma_row_sum(src, k@, x as int, y as int, t as nat);
                lemma_row_sum(src, k@, x as int, y as int, (t + 1) as nat);
                let (a, b) = (k@[t as int] as int, src.pixel(xx as int, y as int) as int);
                assert(0 <= a * b <= 255 * a) by (nonlinear_arith)
                    requires
                        0 <= a,
                        0 <= b <= 255,
                ;
                lemma_total(k@, (t + 1) as nat, k@.len());
                lemma_total(k@, 0, t as nat);
            }
            acc = acc + k[t] * src.at(xx, y) as i32;
            t += 1;
        }
        r.push(acc);
        x += 1;
    }
    r
}

/// One row of a blurred image, from the horizontal sums of all rows.
fn blur_column(
    src: &Gray,
    k: &[i32],
    sums: &Vec<Vec<i32>>,
    y: usize,
) -> (r: Vec<u8>)
    requires
        moderate(src),
        kernel_ok(k@),
        k@.len() >= 2 ==> src.h >= 2,
        y < src.h,
        sums@.len() == src.h,
        forall|j: int| 0 <= j < src.h ==> (#[trigger] sums@[j])@.len() == src.w,
        forall|j: int, x: int|
            0 <= j < src.h && 0 <= x < src.w ==> #[trigger] sums@[j]@[x] == row_sum(
                src,
                k@,
                x,
                j,
                k@.len(),
            ),
    ensures
        r@ == Seq::new(src.w as nat, |x: int| blurred(src, k@, x, y as int)),
{
    let half = k.len() / 2;
    let w = src.w;
    let mut r: Vec<u8> = Vec::new();
    let mut x: usize = 0;
    while x < w
        invariant
            moderate(src),
            kernel_ok(k@),
            k@.len() >= 2 ==> src.h >= 2,
            y < src.h,
            sums@.len() == src.h,
            forall|j: int| 0 <= j < src.h ==> (#[trigger] sums@[j])@.len() == src.w,
            forall|j: int, x: int|
                0 <= j < src.h && 0 <= x < src.w ==> #[trigger] sums@[j]@[x] == row_sum(
                    src,
                    k@,
                    x,
                    j,
                    k@.len(),
                ),
            w == src.w,
            half == k@.len() / 2,
            x <= w,
            r@ == Seq::new(x as nat, |x: int| blurred(src, k@, x, y as int)),
        decreases w - x,
    {
        let mut acc: i32 = 0;
        let mut t: usize = 0;
        while t < k.len()
            invariant
                moderate(src),
                kernel_ok(k@),
                k@.len() >= 2 ==> src.h >= 2,
                y < src.h,
                sums@.len() == src.h,
                forall|j: int| 0 <= j < src.h ==> (#[trigger] sums@[j])@.len() == src.w,
                forall|j: int, x: int|
                    0 <= j < src.h && 0 <= x < src.w ==> #[trigger] sums@[j]@[x] == row_sum(
                        src,
                        k@,
                        x,
                        j,
                        k@.len(),
                    ),
                w == src.w,
                half == k@.len() / 2,
                x < w,
                t <= k@.len(),
                acc == column_sum(src, k@, x as int, y as int, t as nat),
            decreases k.len() - t,
        {
            let yy = reflect101(y as i64 + t as i64 - half as i64, src.h as i64) as usize;
            let s = sums[yy][x];
            proof {
                lemma_column_sum(src, k@, x as int, y as int, t as nat);
                lemma_column_sum(src, k@, x as int, y as int, (t + 1) as nat);
                lemma_row_sum(src, k@, x as int, yy as int, k@.len());
                let (a, b) = (k@[t as int] as int, s as int);
                assert(0 <= a * b <= 738480 * a) by (nonlinear_arith)
                    requires
                        0 <= a,
                        0 <= b <= 738480,
                ;
                lemma_total(k@, (t + 1) as nat, k@.len());
                lemma_total(k@, 0, t as nat);
            }
            acc = acc + k[t] * s;
            t += 1;
        }
        proof {
            lemma_column_sum(src, k@, x as int, y as int, k@.len());
        }
        let v = (acc + 32768) / 65536;
        let b: u8 = if v > 255 {
            255
        } else {
            v as u8
        };
        r.push(b);
        x += 1;
        assert(r@ =~= Seq::new(x as nat, |x: int| blurred(src, k@, x, y as int)));
    }
    r
}

/// A separable blur in fixed point: the weights have 8 fraction bits, the sums
/// are exact, and there is one rounding at the end. Beyond its ends a row or
/// column is reflected.
pub fn gaussian_blur_u8_fixed(src: &Gray, k: &[i32]) -> (out: Gray)
    requires
        moderate(src),
        kernel_ok(k@),
        k@.len() >= 2 ==> src.w >= 2 && src.h >= 2,
    ensures
        out.wf(),
        out.w == src.w,
        out.h == src.h,
        out.px@ == from_rows(
            |y: int| Seq::new(src.w as nat, |x: int| blurred(src, k@, x, y)),
            src.w as nat,
            src.h as nat,
        ),
        forall|x: int, y: int|
            0 <= x < src.w && 0 <= y < src.h ==> #[trigger] out.pixel(x, y) == blurred(
                src,
                k@,
                x,
                y,
            ),
{
    let (w, h) = (src.w, src.h);
    let mut sums: Vec<Vec<i32>> = Vec::new();
    let mut y: usize = 0;
    while y < h
        invariant
            moderate(src),
            kernel_ok(k@),
            k@.len() >= 2 ==> src.w >= 2,
            h == src.h,
            y <= h,
            sums@.len() == y,
            forall|j: int| 0 <= j < y ==> (#[trigger] sums@[j])@.len() == src.w,
            forall|j: int, x: int|
                0 <= j < y && 0 <= x < src.w ==> #[trigger] sums@[j]@[x] == row_sum(
                    src,
                    k@,
                    x,
                    j,
                    k@.len(),
                ),
        decreases h - y,
    {
        sums.push(blur_row(src, k, y));
        y += 1;
    }
    let mut px: Vec<u8> = Vec::new();
    let ghost rows = |y: int| Seq::new(src.w as nat, |x: int| blurred(src, k@, x, y));
    assert(px@ =~= from_rows(rows, w as nat, 0));
    y = 0;
    while y < h
        invariant
            moderate(src),
            kernel_ok(k@),
            k@.len() >= 2 ==> src.w >= 2 && src.h >= 2,
            w == src.w,
            h == src.h,
            y <= h,
            sums@.len() == h,
            forall|j: int| 0 <= j < h ==> (#[trigger] sums@[j])@.len() == src.w,
            forall|j: int, x: int|
                0 <= j < h && 0 <= x < src.w ==> #[trigger] sums@[j]@[x] == row_sum(
                    src,
                    k@,
                    x,
                    j,
                    k@.len(),
                ),
            rows == (|y: int| Seq::new(src.w as nat, |x: int| blurred(src, k@, x, y))),
            px@ == from_rows(rows, w as nat, y as nat),
        decreases h - y,
    {
        let mut row = blur_column(src, k, &sums, y);
        proof {
            lemma_from_rows(rows, w as nat, y as nat, px@);
        }
        px.append(&mut row);
        y += 1;
    }
    let out = Gray { w, h, px };
    assert forall|x: int, y: int| 0 <= x < src.w && 0 <= y < src.h implies #[trigger] out.pixel(
        x,
        y,
    ) == blurred(src, k@, x, y) by {
        lemma_index(w as int, h as int, x, y);
        assert(out.pixel(x, y) == rows(y)[x]);
    }
    out
}

/// Whether a pixel is in the foreground: at least `c_delta` darker than the
/// mean around it.
pub open spec fn foreground(v: u8, mean: u8, c_delta: int) -> bool {
    v <= mean - c_delta
}

/// The pixels of an inverted adaptive threshold: white in the foreground, and
/// otherwise black.
pub open spec fn thresholded(px: Seq<u8>, mean: Seq<u8>, c_delta: int) -> Seq<u8> {
    Seq::new(
        px.len(),
        |i: int|
            if foreground(px[i], mean[i], c_delta) {
                255u8
            } else {
                0u8
            },
    )
}

/// An inverted adaptive threshold: white where the image is at least `c_delta`
/// darker than the mean around the pixel, which is given as an image.
pub fn adaptive_threshold_inv(src: &Gray, mean: &Gray, c_delta: i32) -> (out: Gray)
    requires
        src.wf(),
        mean.wf(),
        mean.w == src.w,
        mean.h == src.h,
        c_delta >= -0x7fff_ff00,
    ensures
        out.wf(),
        out.w == src.w,
        out.h == src.h,
        out.px@ == thresholded(src.px@, mean.px@, c_delta as int),
{
    let n = src.px.len();
    let mut px: Vec<u8> = Vec::new();
    let mut i: usize = 0;
    while i < n
        invariant
            n == src.px@.len(),
            n == mean.px@.len(),
            c_delta >= -0x7fff_ff00,
            i <= n,
            px@ == thresholded(src.px@, mean.px@, c_delta as int).take(i as int),
        decreases n - i,
    {
        let b: u8 = if (src.px[i] as i32) <= (mean.px[i] as i32) - c_delta {
            255
        } else {
            0
        };
        px.push(b);
        assert(px@ =~= thresholded(src.px@, mean.px@, c_delta as int).take(i + 1));
        i += 1;
    }
    assert(px@ =~= thresholded(src.px@, mean.px@, c_delta as int));
    Gray { w: src.w, h: src.h, px }
}

/// One for true.
pub open spec fn counted(b: bool) -> int {
    if b {
        1
    } else {
        0
    }
}

/// How many of the nine entries are at least `t`.
pub open spec fn reaching(s: Seq<u8>, t: int) -> int {
    counted(s[0] >= t) + counted(s[1] >= t) + counted(s[2] >= t) + counted(s[3] >= t) + counted(
        s[4] >= t,
    ) + counted(s[5] >= t) + counted(s[6] >= t) + counted(s[7] >= t) + counted(s[8] >= t)
}

/// Whether `m` is the median of nine entries: the largest number that at least
/// five of them reach.
pub open spec fn is_median(s: Seq<u8>, m: u8) -> bool {
    forall|t: int| m >= t <==> #[trigger] reaching(s, t) >= 5
}

/// The smaller of two.
pub open spec fn least_of(a: u8, b: u8) -> u8 {
    if a <= b {
        a
    } else {
        b
    }
}

/// The larger of two.
pub open spec fn most_of(a: u8, b: u8) -> u8 {
    if a <= b {
        b
    } else {
        a
    }
}

/// The smaller and the larger of two.
fn sort2(a: u8, b: u8) -> (r: (u8, u8))
    ensures
        r.0 == least_of(a, b),
        r.1 == most_of(a, b),
{
    if a <= b {
        (a, b)
    } else {
        (b, a)
    }
}

/// Whether `a` reaches `t`.
#[verifier::opaque]
spec fn reaches(a: u8, t: int) -> bool {
    a >= t
}

/// What a comparator does to the entries that reach `t`.
proof fn lemma_sort2(a: u8, b: u8, t: int)
    ensures
        reaches(least_of(a, b), t) == (reaches(a, t) && reaches(b, t)),
        reaches(most_of(a, b), t) == (reaches(a, t) || reaches(b, t)),
{
    reveal(reaches);
}

/// The network on entries that are true or false: the result is true if and
/// only if most of them are.
proof fn lemma_network(
    v0: bool,
    v1: bool,
    v2: bool,
    v3: bool,
    v4: bool,
    v5: bool,
    v6: bool,
    v7: bool,
    v8: bool,
)
    ensures
        ({
            let (a1, a2) = (v1 && v2, v1 || v2);
            let (a4, a5) = (v4 && v5, v4 || v5);
            let (a7, a8) = (v7 && v8, v7 || v8);
            let (b0, b1) = (v0 && a1, v0 || a1);
            let (b3, b4) = (v3 && a4, v3 || a4);
            let (b6, b7) = (v6 && a7, v6 || a7);
            let (c1, c2) = (b1 && a2, b1 || a2);
            let (c4, c5) = (b4 && a5, b4 || a5);
            let (c7, c8) = (b7 && a8, b7 || a8);
            let d3 = b0 || b3;
            let d5 = c5 && c8;
            let (d4, d7) = (c4 && c7, c4 || c7);
            let e6 = d3 || b6;
            let e4 = c1 || d4;
            let e2 = c2 && d5;
            let f4 = e4 && d7;
            let (g4, g2) = (f4 && e2, f4 || e2);
            let h4 = e6 || g4;
            (h4 && g2) == (counted(v0) + counted(v1) + counted(v2) + counted(v3) + counted(v4)
                + counted(v5) + counted(v6) + counted(v7) + counted(v8) >= 5)
        }),
{
}

/// The median of nine, by a network of nineteen comparators.
fn med9(v: [u8; 9]) -> (m: u8)
    ensures
        is_median(v@, m),
{
    let (a1, a2) = sort2(v[1], v[2]);
    let (a4, a5) = sort2(v[4], v[5]);
    let (a7, a8) = sort2(v[7], v[8]);
    let (b0, b1) = sort2(v[0], a1);
    let (b3, b4) = sort2(v[3], a4);
    let (b6, b7) = sort2(v[6], a7);
    let (c1, c2) = sort2(b1, a2);
    let (c4, c5) = sort2(b4, a5);
    let (c7, c8) = sort2(b7, a8);
    let (_, d3) = sort2(b0, b3);
    let (d5, _) = sort2(c5, c8);
    let (d4, d7) = sort2(c4, c7);
    let (_, e6) = sort2(d3, b6);
    let (_, e4) = sort2(c1, d4);
    let (e2, _) = sort2(c2, d5);
    let (f4, _) = sort2(e4, d7);
    let (g4, g2) = sort2(f4, e2);
    let (_, h4) = sort2(e6, g4);
    let (m, _) = sort2(h4, g2);
    proof {
        let s = v@;
        assert forall|t: int| m >= t <==> #[trigger] reaching(s, t) >= 5 by {
            lemma_sort2(s[1], s[2], t);
            lemma_sort2(s[4], s[5], t);
            lemma_sort2(s[7], s[8], t);
            lemma_sort2(s[0], a1, t);
            lemma_sort2(s[3], a4, t);
            lemma_sort2(s[6], a7, t);
            lemma_sort2(b1, a2, t);
            lemma_sort2(b4, a5, t);
            lemma_sort2(b7, a8, t);
            lemma_sort2(b0, b3, t);
            lemma_sort2(c5, c8, t);
            lemma_sort2(c4, c7, t);
            lemma_sort2(d3, b6, t);
            lemma_sort2(c1, d4, t);
            lemma_sort2(c2, d5, t);
            lemma_sort2(e4, d7, t);
            lemma_sort2(f4, e2, t);
            lemma_sort2(e6, g4, t);
            lemma_sort2(h4, g2, t);
            lemma_network(
                reaches(s[0], t),
                reaches(s[1], t),
                reaches(s[2], t),
                reaches(s[3], t),
                reaches(s[4], t),
                reaches(s[5], t),
                reaches(s[6], t),
                reaches(s[7], t),
                reaches(s[8], t),
            );
            reveal(reaches);
        }
    }
    m
}

/// The nine pixels around a pixel; beyond its ends a row or column repeats its
/// last pixel.
pub open spec fn window(src: &Gray, x: int, y: int) -> Seq<u8> {
    Seq::new(
        9,
        |k: int|
            src.pixel(
                clamped(x + k % 3 - 1, src.w as int),
                clamped(y + k / 3 - 1, src.h as int),
            ),
    )
}

/// One row of the median filter.
pub fn median_row(src: &Gray, y: usize) -> (row: Vec<u8>)
    requires
        src.wf(),
        y < src.h,
    ensures
        row@.len() == src.w,
        forall|x: int|
            0 <= x < src.w ==> is_median(window(src, x, y as int), #[trigger] row@[x]),
{
    let (w, h) = (src.w, src.h);
    let ym = if y > 0 {
        y - 1
    } else {
        0
    };
    let yp = if h - y > 1 {
        y + 1
    } else {
        h - 1
    };
    let mut row: Vec<u8> = Vec::new();
    let mut x: usize = 0;
    while x < w
        invariant
            src.wf(),
            y < src.h,
            w == src.w,
            h == src.h,
            ym == clamped(y - 1, h as int),
            yp == clamped(y + 1, h as int),
            ym < h,
            yp < h,
            x <= w,
            row@.len() == x,
            forall|i: int|
                0 <= i < x ==> is_median(window(src, i, y as int), #[trigger] row@[i]),
        decreases w - x,
    {
        let xm = if x > 0 {
            x - 1
        } else {
            0
        };
        let xp = if w - x > 1 {
            x + 1
        } else {
            w - 1
        };
        proof {
            lemma_index(w as int, h as int, xm as int, ym as int);
            lemma_index(w as int, h as int, x as int, ym as int);
            lemma_index(w as int, h as int, xp as int, ym as int);
            lemma_index(w as int, h as int, xm as int, y as int);
            lemma_index(w as int, h as int, x as int, y as int);
            lemma_index(w as int, h as int, xp as int, y as int);
            lemma_index(w as int, h as int, xm as int, yp as int);
            lemma_index(w as int, h as int, x as int, yp as int);
            lemma_index(w as int, h as int, xp as int, yp as int);
        }
        let v: [u8; 9] = [
            src.at(xm, ym),
            src.at(x, ym),
            src.at(xp, ym),
            src.at(xm, y),
            src.at(x, y),
            src.at(xp, y),
            src.at(xm, yp),
            src.at(x, yp),
            src.at(xp, yp),
        ];
        assert(v@ =~= window(src, x as int, y as int));
        row.push(med9(v));
        x += 1;
    }
    row
}

/// A 3x3 median filter.
pub fn median3(src: &Gray) -> (out: Gray)
    requires
        src.wf(),
    ensures
        out.wf(),
        out.w == src.w,
        out.h == src.h,
        forall|x: int, y: int|
            0 <= x < src.w && 0 <= y < src.h ==> is_median(
                window(src, x, y),
                #[trigger] out.pixel(x, y),
            ),
{
    let (w, h) = (src.w, src.h);
    let mut px: Vec<u8> = Vec::new();
    let mut y: usize = 0;
    assert(0 * w == 0) by (nonlinear_arith);
    while y < h
        invariant
            src.wf(),
            w == src.w,
            h == src.h,
            y <= h,
            px@.len() == y * w,
            forall|i: int, j: int|
                0 <= i < w && 0 <= j < y ==> is_median(
                    window(src, i, j),
                    #[trigger] px@[j * w + i],
                ),
        decreases h - y,
    {
        let mut row = median_row(src, y);
        let ghost before = px@;
        let ghost added = row@;
        px.append(&mut row);
        proof {
            assert((y + 1) * w == y * w + w) by (nonlinear_arith);
            assert forall|i: int, j: int| 0 <= i < w && 0 <= j < y + 1 implies is_median(
                window(src, i, j),
                #[trigger] px@[j * w + i],
            ) by {
                if j < y {
                    lemma_index(w as int, y as int, i, j);
                    assert(w * y == y * w) by (nonlinear_arith);
                    assert(px@[j * w + i] == before[j * w + i]);
                } else {
                    assert(j * w == y * w);
                    assert(px@[j * w + i] == added[i]);
                }
            }
        }
        y += 1;
    }
    assert(y * w == w * h) by (nonlinear_arith)
        requires
            y == h,
    ;
    let out = Gray { w, h, px };
    assert forall|x: int, y: int| 0 <= x < src.w && 0 <= y < src.h implies is_median(
        window(src, x, y),
        #[trigger] out.pixel(x, y),
    ) by {
        assert(out.pixel(x, y) == px@[y * w + x]);
    }
    out
}

/// The odd number at or just above `n`.
pub open spec fn odd(n: int) -> int {
    if n % 2 == 0 {
        n + 1
    } else {
        n
    }
}

/// The block size of the adaptive threshold.
pub open spec fn block(w: int, h: int) -> int {
    let side = odd((if w < h {
        w
    } else {
        h
    }) / 8);
    if side < 11 {
        11
    } else if side > 51 {
        51
    } else {
        side
    }
}

/// The block size of the adaptive threshold: an eighth of the shorter side,
/// made odd, within 11 and 51.
pub fn adaptive_block(w: usize, h: usize) -> (b: usize)
    ensures
        b == block(w as int, h as int),
        b % 2 == 1,
        11 <= b <= 51,
{
    let side = (if w < h {
        w
    } else {
        h
    }) / 8;
    let side = if side % 2 == 0 {
        side + 1
    } else {
        side
    };
    if side < 11 {
        11
    } else if side > 51 {
        51
    } else {
        side
    }
}

/// The negative of an image.
pub fn invert(src: &Gray) -> (out: Gray)
    ensures
        out.w == src.w,
        out.h == src.h,
        out.px@ == Seq::new(src.px@.len(), |i: int| (255 - src.px@[i]) as u8),
{
    let n = src.px.len();
    let mut px: Vec<u8> = Vec::new();
    let mut i: usize = 0;
    while i < n
        invariant
            n == src.px@.len(),
            i <= n,
            px@ == Seq::new(i as nat, |k: int| (255 - src.px@[k]) as u8),
        decreases n - i,
    {
        px.push(255 - src.px[i]);
        i += 1;
        assert(px@ =~= Seq::new(i as nat, |k: int| (255 - src.px@[k]) as u8));
    }
    Gray { w: src.w, h: src.h, px }
}

/// The negative of the negative is the image.
pub proof fn law_invert_twice(px: Seq<u8>)
    ensures
        ({
            let once = Seq::new(px.len(), |i: int| (255 - px[i]) as u8);
            Seq::new(once.len(), |i: int| (255 - once[i]) as u8) == px
        }),
{
    let once = Seq::new(px.len(), |i: int| (255 - px[i]) as u8);
    assert(Seq::new(once.len(), |i: int| (255 - once[i]) as u8) =~= px);
}

/// The pixel at a position that may lie outside the image, where it is black.
pub open spec fn tap(src: &Gray, x: int, y: int) -> int {
    if 0 <= x < src.w && 0 <= y < src.h {
        src.pixel(x, y) as int
    } else {
        0
    }
}

/// The value between four pixels, at a position in units of a 32nd of a pixel,
/// weighted by area and rounded.
pub open spec fn interpolated(src: &Gray, ix: int, iy: int) -> int {
    let (x, y) = (ix / 32, iy / 32);
    let (a, b) = (ix % 32, iy % 32);
    let sum = (32 - a) * (32 - b) * tap(src, x, y) + a * (32 - b) * tap(src, x + 1, y) + (32 - a)
        * b * tap(src, x, y + 1) + a * b * tap(src, x + 1, y + 1);
    (sum + 512) / 1024
}

/// The quotient and remainder by 32, rounded down.
fn split32(i: i64) -> (r: (i64, i64))
    ensures
        r.0 == (i as int) / 32,
        r.1 == (i as int) % 32,
        0 <= r.1 < 32,
        -0x400_0000_0000_0000 <= r.0 <= 0x400_0000_0000_0000,
{
    let q = i / 32;
    let m = i % 32;
    if m < 0 {
        (q - 1, m + 32)
    } else {
        (q, m)
    }
}

/// The pixel at a position that may lie outside the image.
fn tap_at(src: &Gray, x: i64, y: i64) -> (v: i64)
    requires
        moderate(src),
    ensures
        v == tap(src, x as int, y as int),
        0 <= v <= 255,
{
    if 0 <= x && x < src.w as i64 && 0 <= y && y < src.h as i64 {
        proof {
            lemma_index(src.w as int, src.h as int, x as int, y as int);
        }
        src.at(x as usize, y as usize) as i64
    } else {
        0
    }
}

/// Reads an image at given positions, in units of a 32nd of a pixel, by
/// bilinear interpolation. What lies outside the image is black.
pub fn remap(src: &Gray, map: &[(i64, i64)]) -> (out: Gray)
    requires
        moderate(src),
        map@.len() == src.px@.len(),
    ensures
        out.wf(),
        out.w == src.w,
        out.h == src.h,
        forall|i: int|
            0 <= i < map@.len() ==> #[trigger] out.px@[i] == interpolated(
                src,
                map@[i].0 as int,
                map@[i].1 as int,
            ),
{
    let n = map.len();
    let mut px: Vec<u8> = Vec::new();
    let mut i: usize = 0;
    while i < n
        invariant
            moderate(src),
            n == map@.len(),
            i <= n,
            px@.len() == i,
            forall|k: int|
                0 <= k < i ==> #[trigger] px@[k] == interpolated(
                    src,
                    map@[k].0 as int,
                    map@[k].1 as int,
                ),
        decreases n - i,
    {
        let (x, a) = split32(map[i].0);
        let (y, b) = split32(map[i].1);
        let (t0, t1) = (tap_at(src, x, y), tap_at(src, x + 1, y));
        let (t2, t3) = (tap_at(src, x, y + 1), tap_at(src, x + 1, y + 1));
        proof {
            lemma_weights(a as int, b as int, t0 as int, t1 as int, t2 as int, t3 as int);
        }
        let sum = (32 - a) * (32 - b) * t0 + a * (32 - b) * t1 + (32 - a) * b * t2 + a * b * t3;
        let v = (sum + 512) / 1024;
        px.push(v as u8);
        i += 1;
    }
    Gray { w: src.w, h: src.h, px }
}

/// The weights of an interpolation add up to 1024.
proof fn lemma_weights(a: int, b: int, t0: int, t1: int, t2: int, t3: int)
    requires
        0 <= a < 32,
        0 <= b < 32,
        0 <= t0 <= 255,
        0 <= t1 <= 255,
        0 <= t2 <= 255,
        0 <= t3 <= 255,
    ensures
        0 <= (32 - a) * (32 - b) <= 1024,
        0 <= a * (32 - b) <= 1024,
        0 <= (32 - a) * b <= 1024,
        0 <= a * b <= 1024,
        0 <= (32 - a) * (32 - b) * t0 <= 261120,
        0 <= a * (32 - b) * t1 <= 261120,
        0 <= (32 - a) * b * t2 <= 261120,
        0 <= a * b * t3 <= 261120,
        0 <= (32 - a) * (32 - b) * t0 + a * (32 - b) * t1 + (32 - a) * b * t2 + a * b * t3
            <= 261120,
{
    let (p, q, r, s) = ((32 - a) * (32 - b), a * (32 - b), (32 - a) * b, a * b);
    assert(0 <= p && 0 <= q && 0 <= r && 0 <= s && p + q + r + s == 1024) by (nonlinear_arith)
        requires
            0 <= a < 32,
            0 <= b < 32,
            p == (32 - a) * (32 - b),
            q == a * (32 - b),
            r == (32 - a) * b,
            s == a * b,
    ;
    assert(0 <= p * t0 <= 255 * p && 0 <= q * t1 <= 255 * q && 0 <= r * t2 <= 255 * r && 0 <= s
        * t3 <= 255 * s) by (nonlinear_arith)
        requires
            0 <= p,
            0 <= q,
            0 <= r,
            0 <= s,
            0 <= t0 <= 255,
            0 <= t1 <= 255,
            0 <= t2 <= 255,
            0 <= t3 <= 255,
    ;
}

} // verus!
