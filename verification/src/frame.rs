//! Camera frames: intake, downscaling, motion blur, and drawing on a copy.
use crate::codec::differences;
use crate::image::{clamped, lemma_index, moderate, Gray};
use crate::text::same_text;
use vstd::prelude::*;

verus! {

/// How the pixels of a frame are laid out.
#[derive(Clone, Copy, Debug, PartialEq, Eq, Structural)]
pub enum PixelFormat {
    /// One byte of luma.
    Mono,
    /// Red, green, blue.
    Rgb,
    /// Blue, green, red.
    Bgr,
}

/// The format that an encoding stands for.
pub open spec fn format_of(encoding: Seq<char>) -> Option<PixelFormat> {
    if encoding == "mono8"@ || encoding == "8UC1"@ {
        Some(PixelFormat::Mono)
    } else if encoding == "rgb8"@ {
        Some(PixelFormat::Rgb)
    } else if encoding == "bgr8"@ {
        Some(PixelFormat::Bgr)
    } else {
        None
    }
}

/// The format that an encoding stands for, if it is one that is understood.
pub fn pixel_format(encoding: &str) -> (r: Option<PixelFormat>)
    ensures
        r == format_of(encoding@),
{
    if same_text(encoding, "mono8") || same_text(encoding, "8UC1") {
        Some(PixelFormat::Mono)
    } else if same_text(encoding, "rgb8") {
        Some(PixelFormat::Rgb)
    } else if same_text(encoding, "bgr8") {
        Some(PixelFormat::Bgr)
    } else {
        None
    }
}

/// The number of bytes of a pixel.
pub open spec fn depth(f: PixelFormat) -> int {
    match f {
        PixelFormat::Mono => 1,
        _ => 3,
    }
}

/// The luma of a color: 0.299 red, 0.587 green, 0.114 blue, in 8-bit fixed
/// point, rounded.
pub open spec fn luma(r: int, g: int, b: int) -> int {
    (77 * r + 150 * g + 29 * b + 128) / 256
}

/// The luma of the pixel whose bytes start at `i`.
pub open spec fn luma_at(f: PixelFormat, data: Seq<u8>, i: int) -> int {
    match f {
        PixelFormat::Mono => data[i] as int,
        PixelFormat::Rgb => luma(data[i] as int, data[i + 1] as int, data[i + 2] as int),
        PixelFormat::Bgr => luma(data[i + 2] as int, data[i + 1] as int, data[i] as int),
    }
}

/// Whether a frame has all its pixels: its rows start `step` bytes apart.
pub open spec fn complete(w: int, h: int, step: int, f: PixelFormat, len: int) -> bool {
    h > 0 ==> (h - 1) * step + w * depth(f) <= len
}

/// The luma of a frame.
pub fn to_gray(w: usize, h: usize, step: usize, format: PixelFormat, data: &[u8]) -> (g: Gray)
    requires
        w * h <= usize::MAX,
        complete(w as int, h as int, step as int, format, data@.len() as int),
    ensures
        g.wf(),
        g.w == w,
        g.h == h,
        forall|x: int, y: int|
            0 <= x < w && 0 <= y < h ==> #[trigger] g.pixel(x, y) == luma_at(
                format,
                data@,
                y * step + x * depth(format),
            ),
{
    let len = data.len();
    let mut px: Vec<u8> = Vec::new();
    let mut y: usize = 0;
    assert(0 * w == 0) by (nonlinear_arith);
    while y < h
        invariant
            w * h <= usize::MAX,
            len == data@.len(),
            complete(w as int, h as int, step as int, format, data@.len() as int),
            y <= h,
            px@.len() == y * w,
            forall|i: int, j: int|
                0 <= i < w && 0 <= j < y ==> #[trigger] px@[j * w + i] == luma_at(
                    format,
                    data@,
                    j * step + i * depth(format),
                ),
        decreases h - y,
    {
        let mut x: usize = 0;
        assert((y + 1) * w == y * w + w) by (nonlinear_arith);
        assert(0 <= y * step <= (h - 1) * step) by (nonlinear_arith)
            requires
                0 <= y <= h - 1,
        ;
        while x < w
            invariant
                w * h <= usize::MAX,
                len == data@.len(),
                complete(w as int, h as int, step as int, format, data@.len() as int),
                y < h,
                0 <= y * step <= (h - 1) * step,
                x <= w,
                px@.len() == y * w + x,
                forall|i: int, j: int|
                    0 <= i < w && 0 <= j < y ==> #[trigger] px@[j * w + i] == luma_at(
                        format,
                        data@,
                        j * step + i * depth(format),
                    ),
                forall|i: int|
                    0 <= i < x ==> px@[#[trigger] (y * w + i)] == luma_at(
                        format,
                        data@,
                        y * step + i * depth(format),
                    ),
            decreases w - x,
        {
            let ghost before = px@;
            let d: usize = match format {
                PixelFormat::Mono => 1,
                _ => 3,
            };
            assert(0 <= x * d && x * d + d <= w * d) by (nonlinear_arith)
                requires
                    x < w,
                    d >= 1,
            ;
            let i = y * step + x * d;
            let v: u8 = match format {
                PixelFormat::Mono => data[i],
                PixelFormat::Rgb => mix(data[i], data[i + 1], data[i + 2]),
                PixelFormat::Bgr => mix(data[i + 2], data[i + 1], data[i]),
            };
            px.push(v);
            proof {
                assert forall|i: int, j: int| 0 <= i < w && 0 <= j < y implies #[trigger] px@[j * w
                    + i] == luma_at(format, data@, j * step + i * depth(format)) by {
                    lemma_index(w as int, y as int, i, j);
                    assert(w * y == y * w) by (nonlinear_arith);
                    assert(px@[j * w + i] == before[j * w + i]);
                }
                assert forall|i: int| 0 <= i < x + 1 implies px@[#[trigger] (y * w + i)] == luma_at(
                    format,
                    data@,
                    y * step + i * depth(format),
                ) by {
                    if i < x {
                        assert(px@[y * w + i] == before[y * w + i]);
                    }
                }
            }
            x += 1;
        }
        assert forall|i: int, j: int| 0 <= i < w && 0 <= j < y + 1 implies #[trigger] px@[j * w + i]
            == luma_at(format, data@, j * step + i * depth(format)) by {
            if j == y {
                assert(j * w == y * w);
                assert(j * step == y * step);
                assert(px@[y * w + i] == luma_at(format, data@, y * step + i * depth(format)));
            }
        }
        y += 1;
    }
    assert(y * w == w * h) by (nonlinear_arith)
        requires
            y == h,
    ;
    let g = Gray { w, h, px };
    assert forall|x: int, y: int| 0 <= x < w && 0 <= y < h implies #[trigger] g.pixel(x, y)
        == luma_at(format, data@, y * step + x * depth(format)) by {
        assert(g.pixel(x, y) == px@[y * w + x]);
    }
    g
}

/// The luma of a color.
fn mix(r: u8, g: u8, b: u8) -> (v: u8)
    ensures
        v == luma(r as int, g as int, b as int),
{
    ((77 * r as u32 + 150 * g as u32 + 29 * b as u32 + 128) / 256) as u8
}

/// The factor by which a frame is made smaller to be at most `target` wide.
pub open spec fn factor(w: int, target: int) -> int {
    if target == 0 || w <= target {
        1
    } else {
        (w + target - 1) / target
    }
}

/// The sum of the first `k` pixels of a block of side `f`.
pub open spec fn block_sum(g: &Gray, x: int, y: int, f: int, k: nat) -> int
    decreases k,
{
    if k == 0 {
        0
    } else {
        block_sum(g, x, y, f, (k - 1) as nat) + g.pixel(x * f + (k - 1) % f, y * f + (k - 1) / f)
    }
}

/// Makes a frame smaller by a whole factor, so that it is at most `target`
/// wide, by averaging blocks. Returns the factor too; with the target zero the
/// frame is left as it is.
pub fn maybe_downscale(gray: Gray, target: usize) -> (r: (Gray, usize))
    requires
        moderate(&gray),
    ensures
        r.1 == factor(gray.w as int, target as int),
        r.1 == 1 ==> r.0 == gray,
        r.1 > 1 ==> {
            &&& r.0.wf()
            &&& r.0.w == gray.w as int / (r.1 as int)
            &&& r.0.h == gray.h as int / (r.1 as int)
            &&& r.0.w <= target
            &&& forall|x: int, y: int|
                0 <= x < r.0.w && 0 <= y < r.0.h ==> #[trigger] r.0.pixel(x, y) == block_sum(
                    &gray,
                    x,
                    y,
                    r.1 as int,
                    (r.1 * r.1) as nat,
                ) / (r.1 * r.1)
        },
{
    if target == 0 || gray.w <= target {
        return (gray, 1);
    }
    let f = (gray.w - 1) / target + 1;
    let (w, h) = (gray.w / f, gray.h / f);
    proof {
        lemma_factor(gray.w as int, target as int, f as int);
        lemma_blocks(gray.w as int, f as int, w as int);
        lemma_blocks(gray.h as int, f as int, h as int);
    }
    let mut px: Vec<u8> = Vec::new();
    let mut y: usize = 0;
    assert(0 * w == 0) by (nonlinear_arith);
    while y < h
        invariant
            moderate(&gray),
            2 <= f <= gray.w,
            w * f <= gray.w,
            h * f <= gray.h,
            w <= gray.w,
            y <= h,
            px@.len() == y * w,
            forall|i: int, j: int|
                0 <= i < w && 0 <= j < y ==> #[trigger] px@[j * w + i] == block_sum(
                    &gray,
                    i,
                    j,
                    f as int,
                    (f * f) as nat,
                ) / (f * f),
        decreases h - y,
    {
        let mut x: usize = 0;
        assert((y + 1) * w == y * w + w) by (nonlinear_arith);
        while x < w
            invariant
                moderate(&gray),
                2 <= f <= gray.w,
                w * f <= gray.w,
                h * f <= gray.h,
                w <= gray.w,
                y < h,
                x <= w,
                px@.len() == y * w + x,
                forall|i: int, j: int|
                    0 <= i < w && 0 <= j < y ==> #[trigger] px@[j * w + i] == block_sum(
                        &gray,
                        i,
                        j,
                        f as int,
                        (f * f) as nat,
                    ) / (f * f),
                forall|i: int|
                    0 <= i < x ==> px@[#[trigger] (y * w + i)] == block_sum(
                        &gray,
                        i,
                        y as int,
                        f as int,
                        (f * f) as nat,
                    ) / (f * f),
            decreases w - x,
        {
            let ghost before = px@;
            px.push(block_mean(&gray, x, y, f, Ghost(w as int), Ghost(h as int)));
            proof {
                assert forall|i: int, j: int| 0 <= i < w && 0 <= j < y implies #[trigger] px@[j * w
                    + i] == block_sum(&gray, i, j, f as int, (f * f) as nat) / (f * f) by {
                    lemma_index(w as int, y as int, i, j);
                    assert(w * y == y * w) by (nonlinear_arith);
                    assert(px@[j * w + i] == before[j * w + i]);
                }
                assert forall|i: int| 0 <= i < x + 1 implies px@[#[trigger] (y * w + i)]
                    == block_sum(&gray, i, y as int, f as int, (f * f) as nat) / (f * f) by {
                    if i < x {
                        assert(px@[y * w + i] == before[y * w + i]);
                    }
                }
            }
            x += 1;
        }
        assert forall|i: int, j: int| 0 <= i < w && 0 <= j < y + 1 implies #[trigger] px@[j * w + i]
            == block_sum(&gray, i, j, f as int, (f * f) as nat) / (f * f) by {
            if j == y {
                assert(j * w == y * w);
                assert(px@[y * w + i] == block_sum(&gray, i, y as int, f as int, (f * f) as nat)
                    / (f * f));
            }
        }
        y += 1;
    }
    assert(y * w == w * h) by (nonlinear_arith)
        requires
            y == h,
    ;
    let g = Gray { w, h, px };
    assert forall|x: int, y: int| 0 <= x < g.w && 0 <= y < g.h implies #[trigger] g.pixel(x, y)
        == block_sum(&gray, x, y, f as int, (f * f) as nat) / (f * f) by {
        assert(g.pixel(x, y) == px@[y * w + x]);
    }
    (g, f)
}

/// Rounding up by either formula, and how wide the result is.
proof fn lemma_factor(w: int, target: int, f: int)
    requires
        0 < target < w,
        f == (w - 1) / target + 1,
    ensures
        f == factor(w, target),
        2 <= f <= w,
        w / f <= target,
{
    let q = (w - 1) / target;
    let r = (w - 1) % target;
    vstd::arithmetic::div_mod::lemma_fundamental_div_mod(w - 1, target);
    assert(1 <= q <= w - 1 && w <= target * (q + 1) && w + target - 1 == (q + 1) * target + r)
        by (nonlinear_arith)
        requires
            w - 1 == target * q + r,
            0 <= r < target,
            0 < target < w,
            r == (w - 1) % target,
    ;
    vstd::arithmetic::div_mod::lemma_fundamental_div_mod_converse(w + target - 1, target, q + 1, r);
    let d = w / f;
    vstd::arithmetic::div_mod::lemma_fundamental_div_mod(w, f);
    assert(d <= target) by (nonlinear_arith)
        requires
            w == f * d + w % f,
            0 <= w % f,
            w <= target * f,
            f >= 1,
    ;
}

/// Whole blocks fit.
proof fn lemma_blocks(n: int, f: int, k: int)
    requires
        0 <= n,
        f >= 1,
        k == n / f,
    ensures
        0 <= k,
        k * f <= n,
        k <= n,
{
    vstd::arithmetic::div_mod::lemma_fundamental_div_mod(n, f);
    assert(0 <= k && k * f <= n && k <= n) by (nonlinear_arith)
        requires
            n == f * k + n % f,
            0 <= n % f < f,
            n >= 0,
            f >= 1,
    ;
}

/// The mean of a block.
fn block_mean(
    g: &Gray,
    x: usize,
    y: usize,
    f: usize,
    Ghost(w): Ghost<int>,
    Ghost(h): Ghost<int>,
) -> (v: u8)
    requires
        moderate(g),
        2 <= f <= g.w,
        w * f <= g.w,
        h * f <= g.h,
        x < w,
        y < h,
    ensures
        v == block_sum(g, x as int, y as int, f as int, (f * f) as nat) / (f * f),
{
    assert(f * f <= 0x100_0000_0000_0000_0000_0000_0000_0000 && f * f >= 4) by (nonlinear_arith)
        requires
            2 <= f <= 0x1000_0000_0000_0000,
    ;
    assert(0 <= x * f && x * f + f <= w * f && 0 <= y * f && y * f + f <= h * f)
        by (nonlinear_arith)
        requires
            x < w,
            y < h,
    ;
    let n: u128 = f as u128 * f as u128;
    let mut acc: u128 = 0;
    let mut k: u128 = 0;
    while k < n
        invariant
            moderate(g),
            2 <= f <= g.w,
            n == f * f,
            n <= 0x100_0000_0000_0000_0000_0000_0000_0000,
            0 <= x * f,
            x * f + f <= g.w,
            0 <= y * f,
            y * f + f <= g.h,
            k <= n,
            acc == block_sum(g, x as int, y as int, f as int, k as nat),
            acc <= 255 * k,
        decreases n - k,
    {
        let dx = (k % (f as u128)) as usize;
        let dy = (k / (f as u128)) as usize;
        proof {
            let (kk, ff) = (k as int, f as int);
            vstd::arithmetic::div_mod::lemma_fundamental_div_mod(kk, ff);
            let q = kk / ff;
            assert(0 <= q < f) by (nonlinear_arith)
                requires
                    kk == ff * q + kk % ff,
                    0 <= kk % ff < ff,
                    0 <= kk < ff * ff,
                    ff == f,
            ;
            lemma_index(g.w as int, g.h as int, x * f + dx, y * f + dy);
        }
        acc = acc + g.at(x * f + dx, y * f + dy) as u128;
        k += 1;
    }
    proof {
        let (a, m) = (acc as int, n as int);
        vstd::arithmetic::div_mod::lemma_fundamental_div_mod(a, m);
        assert(0 <= a / m <= 255) by (nonlinear_arith)
            requires
                a == m * (a / m) + a % m,
                0 <= a % m,
                0 <= a <= 255 * m,
                m >= 4,
        ;
    }
    (acc / n) as u8
}

/// The length of a smear in a row of width `w`: at least two pixels, and not
/// more than half the row where the row is long enough.
pub open spec fn smear(length: int, w: int) -> int {
    let l = if length > w / 2 {
        w / 2
    } else {
        length
    };
    if l < 2 {
        2
    } else {
        l
    }
}

/// The sum of the first `k` pixels that a smear of length `l` mixes into a
/// pixel. Beyond its ends a row repeats its last pixel.
pub open spec fn smear_sum(g: &Gray, x: int, y: int, l: int, k: nat) -> int
    decreases k,
{
    if k == 0 {
        0
    } else {
        smear_sum(g, x, y, l, (k - 1) as nat) + g.pixel(
            clamped(x - l / 2 + k - 1, g.w as int),
            y,
        )
    }
}

/// The mean of the pixels that are mixed, rounded.
pub open spec fn smeared(g: &Gray, x: int, y: int, l: int) -> int {
    (2 * smear_sum(g, x, y, l, l as nat) + l) / (2 * l)
}

/// The blur of horizontal motion over `length` pixels.
pub fn motion_blur(g: &Gray, length: usize) -> (out: Gray)
    requires
        moderate(g),
    ensures
        out.wf(),
        out.w == g.w,
        out.h == g.h,
        forall|x: int, y: int|
            0 <= x < g.w && 0 <= y < g.h ==> #[trigger] out.pixel(x, y) == smeared(
                g,
                x,
                y,
                smear(length as int, g.w as int),
            ),
{
    let (w, h) = (g.w, g.h);
    let half_w = w / 2;
    let l = if length > half_w {
        half_w
    } else {
        length
    };
    let l = if l < 2 {
        2
    } else {
        l
    };
    let total = g.px.len();
    let mut px: Vec<u8> = Vec::new();
    let mut q: usize = 0;
    while q < total
        invariant
            moderate(g),
            w == g.w,
            h == g.h,
            total == w * h,
            l == smear(length as int, w as int),
            2 <= l <= 0x1000_0000_0000_0000,
            q <= total,
            px@.len() == q,
            forall|i: int|
                0 <= i < q ==> #[trigger] px@[i] == smeared(
                    g,
                    i % (w as int),
                    i / (w as int),
                    l as int,
                ),
        decreases total - q,
    {
        proof {
            lemma_position(w as int, h as int, q as int);
        }
        px.push(smear_at(g, q % w, q / w, l));
        q += 1;
    }
    let out = Gray { w, h, px };
    assert forall|x: int, y: int| 0 <= x < g.w && 0 <= y < g.h implies #[trigger] out.pixel(x, y)
        == smeared(g, x, y, l as int) by {
        lemma_index(w as int, h as int, x, y);
        assert(out.pixel(x, y) == px@[y * w + x]);
    }
    out
}

/// The column and row of a position.
proof fn lemma_position(w: int, h: int, q: int)
    requires
        0 <= q < w * h,
        0 <= w,
    ensures
        w >= 1,
        0 <= q % w < w,
        0 <= q / w < h,
{
    assert(w >= 1) by (nonlinear_arith)
        requires
            0 <= q < w * h,
            0 <= w,
    ;
    vstd::arithmetic::div_mod::lemma_fundamental_div_mod(q, w);
    let (a, b) = (q / w, q % w);
    assert(0 <= b < w && 0 <= a < h) by (nonlinear_arith)
        requires
            q == w * a + b,
            b == q % w,
            0 <= q < w * h,
            w >= 1,
    ;
}

/// One pixel of the blur of motion.
fn smear_at(g: &Gray, x: usize, y: usize, l: usize) -> (v: u8)
    requires
        moderate(g),
        x < g.w,
        y < g.h,
        2 <= l <= 0x1000_0000_0000_0000,
    ensures
        v == smeared(g, x as int, y as int, l as int),
{
    let half = l / 2;
    let mut sum: u128 = 0;
    let mut k: usize = 0;
    while k < l
        invariant
            moderate(g),
            x < g.w,
            y < g.h,
            2 <= l <= 0x1000_0000_0000_0000,
            half == l / 2,
            k <= l,
            sum == smear_sum(g, x as int, y as int, l as int, k as nat),
            sum <= 255 * k,
        decreases l - k,
    {
        let i = x as i64 - half as i64 + k as i64;
        let c: usize = if i < 0 {
            0
        } else if i >= g.w as i64 {
            g.w - 1
        } else {
            i as usize
        };
        proof {
            lemma_index(g.w as int, g.h as int, c as int, y as int);
        }
        sum = sum + g.at(c, y) as u128;
        k += 1;
    }
    let v = (2 * sum + l as u128) / (2 * l as u128);
    proof {
        let (a, m) = (2 * sum + l, 2 * l as int);
        vstd::arithmetic::div_mod::lemma_fundamental_div_mod(a, m);
        assert(0 <= a / m <= 255) by (nonlinear_arith)
            requires
                a == m * (a / m) + a % m,
                0 <= a % m,
                0 <= a < 256 * m,
                m >= 4,
        ;
    }
    v as u8
}

/// A copy of an image in color.
pub fn colored(g: &Gray) -> (img: Vec<u8>)
    requires
        3 * g.px@.len() <= usize::MAX,
    ensures
        img@.len() == 3 * g.px@.len(),
        forall|i: int| 0 <= i < img@.len() ==> #[trigger] img@[i] == g.px@[i / 3],
{
    let n = g.px.len();
    let mut img: Vec<u8> = Vec::new();
    let mut i: usize = 0;
    while i < n
        invariant
            n == g.px@.len(),
            i <= n,
            img@.len() == 3 * i,
            forall|k: int| 0 <= k < img@.len() ==> #[trigger] img@[k] == g.px@[k / 3],
        decreases n - i,
    {
        let v = g.px[i];
        img.push(v);
        img.push(v);
        img.push(v);
        i += 1;
    }
    img
}

/// Whether a pixel belongs to the dot at a position: it is the pixel there or
/// one of its neighbors.
pub open spec fn in_dot(px: int, py: int, x: int, y: int) -> bool {
    x - 1 <= px <= x + 1 && y - 1 <= py <= y + 1
}

/// Draws a dot on an image in color. What lies outside the image is not drawn.
pub fn draw_dot(img: &mut Vec<u8>, w: usize, h: usize, x: i64, y: i64, color: (u8, u8, u8))
    requires
        w <= 0x1000_0000_0000_0000,
        h <= 0x1000_0000_0000_0000,
        old(img)@.len() == 3 * (w * h),
    ensures
        final(img)@.len() == old(img)@.len(),
        forall|px: int, py: int, c: int|
            0 <= px < w && 0 <= py < h && 0 <= c < 3 ==> #[trigger] final(img)@[3 * (py * w + px)
                + c] == if in_dot(px, py, x as int, y as int) {
                channel(color, c)
            } else {
                old(img)@[3 * (py * w + px) + c]
            },
{
    let len = img.len();
    let ghost before = img@;
    if x < -1 || y < -1 || x > w as i64 || y > h as i64 {
        return;
    }
    let x0: usize = if x < 1 {
        0
    } else {
        (x - 1) as usize
    };
    let y0: usize = if y < 1 {
        0
    } else {
        (y - 1) as usize
    };
    let x1: usize = if x + 2 > w as i64 {
        w
    } else {
        (x + 2) as usize
    };
    let y1: usize = if y + 2 > h as i64 {
        h
    } else {
        (y + 2) as usize
    };
    let mut py: usize = y0;
    while py < y1
        invariant
            w <= 0x1000_0000_0000_0000,
            h <= 0x1000_0000_0000_0000,
            -1 <= x <= w,
            -1 <= y <= h,
            len == 3 * (w * h),
            img@.len() == 3 * (w * h),
            before.len() == 3 * (w * h),
            x0 == if x < 1 {
                0
            } else {
                x - 1
            },
            x1 == if x + 2 > w {
                w as int
            } else {
                x + 2
            },
            y1 <= h,
            y0 <= py,
            py <= y1 || y1 <= y0,
            forall|i: int, j: int, c: int|
                0 <= i < w && 0 <= j < h && 0 <= c < 3 ==> #[trigger] img@[3 * (j * w + i) + c]
                    == dotted(before, w as int, i, j, c, x as int, y0 as int, py as int, color),
        decreases y1 - py,
    {
        let mut px: usize = x0;
        while px < x1
            invariant
                w <= 0x1000_0000_0000_0000,
                h <= 0x1000_0000_0000_0000,
                -1 <= x <= w,
                len == 3 * (w * h),
                img@.len() == 3 * (w * h),
                before.len() == 3 * (w * h),
                x0 == if x < 1 {
                    0
                } else {
                    x - 1
                },
                x1 == if x + 2 > w {
                    w as int
                } else {
                    x + 2
                },
                y0 <= py < h,
                x0 <= px,
                px <= x1 || x1 <= x0,
                forall|i: int, j: int, c: int|
                    0 <= i < w && 0 <= j < h && 0 <= c < 3 ==> #[trigger] img@[3 * (j * w + i) + c]
                        == if j == py && x0 <= i < px {
                        channel(color, c)
                    } else {
                        dotted(before, w as int, i, j, c, x as int, y0 as int, py as int, color)
                    },
            decreases x1 - px,
        {
            proof {
                lemma_index(w as int, h as int, px as int, py as int);
            }
            let i = 3 * (py * w + px);
            let ghost held = img@;
            img.set(i, color.0);
            img.set(i + 1, color.1);
            img.set(i + 2, color.2);
            proof {
                assert forall|a: int, b: int, c: int|
                    0 <= a < w && 0 <= b < h && 0 <= c < 3 implies #[trigger] img@[3 * (b * w + a)
                    + c] == if b == py && x0 <= a < px + 1 {
                    channel(color, c)
                } else {
                    dotted(before, w as int, a, b, c, x as int, y0 as int, py as int, color)
                } by {
                    lemma_index(w as int, h as int, a, b);
                    if a == px && b == py {
                        assert(b * w + a == py * w + px);
                    } else {
                        assert(b * w + a != py * w + px);
                        assert(img@[3 * (b * w + a) + c] == held[3 * (b * w + a) + c]);
                    }
                }
            }
            px += 1;
        }
        py += 1;
    }
}

/// The channel of a color.
pub open spec fn channel(color: (u8, u8, u8), c: int) -> u8 {
    if c == 0 {
        color.0
    } else if c == 1 {
        color.1
    } else {
        color.2
    }
}

/// An image in color on which the rows from `y0` up to `y1` of a dot have been
/// drawn.
spec fn dotted(
    img: Seq<u8>,
    w: int,
    px: int,
    py: int,
    c: int,
    x: int,
    y0: int,
    y1: int,
    color: (u8, u8, u8),
) -> u8 {
    if y0 <= py < y1 && x - 1 <= px <= x + 1 {
        channel(color, c)
    } else {
        img[3 * (py * w + px) + c]
    }
}

/// The number of pixels in which two images differ, as far as both go.
pub fn img_diff(a: &Gray, b: &Gray) -> (n: usize)
    ensures
        n == differences(
            a.px@,
            b.px@,
            if a.px@.len() < b.px@.len() {
                a.px@.len()
            } else {
                b.px@.len()
            },
        ),
{
    let m = if a.px.len() < b.px.len() {
        a.px.len()
    } else {
        b.px.len()
    };
    let mut n: usize = 0;
    let mut i: usize = 0;
    while i < m
        invariant
            i <= m,
            m <= a.px@.len(),
            m <= b.px@.len(),
            n <= i,
            n == differences(a.px@, b.px@, i as nat),
        decreases m - i,
    {
        if a.px[i] != b.px[i] {
            n += 1;
        }
        i += 1;
    }
    n
}

} // verus!
