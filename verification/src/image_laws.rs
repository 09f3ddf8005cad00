//! What the filters do to the pixels of an image: how they spread a single
//! bright pixel, and how they go along with mirroring and transposing.
use crate::image::{
    block, blurred, clamped, column_sum, counted, from_rows, interpolated, is_median, kernel_ok,
    reaching, reflected, row_sum, tap, thresholded, window, Gray,
};
use vstd::prelude::*;

verus! {

/// Whether an image is black but for one pixel.
pub open spec fn is_spot(g: &Gray, px: int, py: int, v: u8) -> bool {
    &&& g.wf()
    &&& 0 <= px < g.w
    &&& 0 <= py < g.h
    &&& forall|x: int, y: int|
        0 <= x < g.w && 0 <= y < g.h ==> #[trigger] g.pixel(x, y) == if x == px && y == py {
            v
        } else {
            0
        }
}

/// Whether `f` is `g` with left and right exchanged.
pub open spec fn is_mirrored(g: &Gray, f: &Gray) -> bool {
    &&& f.w == g.w
    &&& f.h == g.h
    &&& forall|x: int, y: int|
        0 <= x < g.w && 0 <= y < g.h ==> #[trigger] f.pixel(x, y) == g.pixel(g.w - 1 - x, y)
}

/// Whether `f` is `g` with top and bottom exchanged.
pub open spec fn is_flipped(g: &Gray, f: &Gray) -> bool {
    &&& f.w == g.w
    &&& f.h == g.h
    &&& forall|x: int, y: int|
        0 <= x < g.w && 0 <= y < g.h ==> #[trigger] f.pixel(x, y) == g.pixel(x, g.h - 1 - y)
}

/// Whether `f` is `g` with rows and columns exchanged.
pub open spec fn is_transposed(g: &Gray, f: &Gray) -> bool {
    &&& f.w == g.h
    &&& f.h == g.w
    &&& forall|x: int, y: int|
        0 <= x < g.h && 0 <= y < g.w ==> #[trigger] f.pixel(x, y) == g.pixel(y, x)
}

/// Whether a kernel of odd length is the same read backwards.
pub open spec fn is_symmetric(k: Seq<i32>) -> bool {
    k.len() % 2 == 1 && forall|t: int|
        0 <= t < k.len() ==> #[trigger] k[t] == k[k.len() - 1 - t]
}

/// The distance of two numbers.
pub open spec fn distance(a: int, b: int) -> int {
    if a < b {
        b - a
    } else {
        a - b
    }
}

/// The sum of the first `n` values of a function.
spec fn sum_of(f: spec_fn(int) -> int, n: nat) -> int
    decreases n,
{
    if n == 0 {
        0
    } else {
        sum_of(f, (n - 1) as nat) + f(n - 1)
    }
}

/// Sums of the same values are the same.
proof fn lemma_sum_same(f: spec_fn(int) -> int, h: spec_fn(int) -> int, n: nat)
    requires
        forall|t: int| 0 <= t < n ==> #[trigger] f(t) == h(t),
    ensures
        sum_of(f, n) == sum_of(h, n),
    decreases n,
{
    if n > 0 {
        lemma_sum_same(f, h, (n - 1) as nat);
        assert(f(n - 1) == h(n - 1));
    }
}

/// Taking the first value off a sum.
proof fn lemma_sum_first(f: spec_fn(int) -> int, n: nat)
    ensures
        sum_of(f, n + 1) == f(0) + sum_of(|t: int| f(t + 1), n),
    decreases n,
{
    assert(sum_of(f, n + 1) == sum_of(f, n) + f(n as int));
    if n > 0 {
        lemma_sum_first(f, (n - 1) as nat);
        let h = |t: int| f(t + 1);
        assert(sum_of(h, n) == sum_of(h, (n - 1) as nat) + h(n - 1));
    } else {
        assert(sum_of(f, 0) == 0);
        assert(sum_of(|t: int| f(t + 1), 0) == 0);
    }
}

/// A sum does not depend on the direction.
proof fn lemma_sum_reversed(f: spec_fn(int) -> int, n: nat)
    ensures
        sum_of(f, n) == sum_of(|t: int| f(n - 1 - t), n),
    decreases n,
{
    if n > 0 {
        let m = (n - 1) as nat;
        let back = |t: int| f(n - 1 - t);
        let h = |t: int| f(m - 1 - t);
        lemma_sum_reversed(f, m);
        lemma_sum_first(back, m);
        lemma_sum_same(|t: int| back(t + 1), h, m);
    }
}

/// A sum with one value that is not zero.
proof fn lemma_sum_single(f: spec_fn(int) -> int, i: int, n: nat)
    requires
        forall|t: int| 0 <= t < n && t != i ==> #[trigger] f(t) == 0,
    ensures
        sum_of(f, n) == if 0 <= i < n {
            f(i)
        } else {
            0
        },
    decreases n,
{
    if n > 0 {
        lemma_sum_single(f, i, (n - 1) as nat);
        if i != n - 1 {
            assert(f(n - 1) == 0);
        }
    }
}

/// A multiple of a sum.
proof fn lemma_sum_scaled(f: spec_fn(int) -> int, c: int, n: nat)
    ensures
        c * sum_of(f, n) == sum_of(|t: int| c * f(t), n),
    decreases n,
{
    if n == 0 {
        assert(c * 0 == 0) by (nonlinear_arith);
    } else {
        lemma_sum_scaled(f, c, (n - 1) as nat);
        let (a, b) = (sum_of(f, (n - 1) as nat), f(n - 1));
        assert(c * (a + b) == c * a + c * b) by (nonlinear_arith);
    }
}

/// The sum of two sums.
proof fn lemma_sum_added(f: spec_fn(int) -> int, h: spec_fn(int) -> int, n: nat)
    ensures
        sum_of(f, n) + sum_of(h, n) == sum_of(|t: int| f(t) + h(t), n),
    decreases n,
{
    if n > 0 {
        lemma_sum_added(f, h, (n - 1) as nat);
    }
}

/// Sums of sums can be taken in either order.
proof fn lemma_sum_swapped(f: spec_fn(int, int) -> int, m: nat, n: nat)
    ensures
        sum_of(|s: int| sum_of(|t: int| f(s, t), n), m) == sum_of(
            |t: int| sum_of(|s: int| f(s, t), m),
            n,
        ),
    decreases m,
{
    let rows = |s: int| sum_of(|t: int| f(s, t), n);
    let columns = |t: int| sum_of(|s: int| f(s, t), m);
    if m == 0 {
        lemma_sum_single(columns, -1, n);
    } else {
        let l = (m - 1) as nat;
        let before = |t: int| sum_of(|s: int| f(s, t), l);
        let last = |t: int| f(m - 1, t);
        lemma_sum_swapped(f, l, n);
        lemma_sum_added(before, last, n);
        assert forall|t: int| 0 <= t < n implies #[trigger] columns(t) == (|t: int|
            before(t) + last(t))(t) by {
            let h = |s: int| f(s, t);
            assert(sum_of(h, m) == sum_of(h, l) + h(m - 1));
        }
        lemma_sum_same(columns, |t: int| before(t) + last(t), n);
        assert(rows(m - 1) == sum_of(last, n));
    }
}

/// The terms of the horizontal sum of a blur.
spec fn row_term(g: &Gray, k: Seq<i32>, x: int, y: int) -> spec_fn(int) -> int {
    |t: int| k[t] * g.pixel(reflected(x + t - k.len() / 2, g.w as int), y)
}

/// The terms of the vertical sum.
spec fn column_term(g: &Gray, k: Seq<i32>, x: int, y: int) -> spec_fn(int) -> int {
    |t: int| k[t] * row_sum(g, k, x, reflected(y + t - k.len() / 2, g.h as int), k.len())
}

/// The horizontal sum as a sum.
proof fn lemma_row_terms(g: &Gray, k: Seq<i32>, x: int, y: int, n: nat)
    ensures
        row_sum(g, k, x, y, n) == sum_of(row_term(g, k, x, y), n),
    decreases n,
{
    if n > 0 {
        lemma_row_terms(g, k, x, y, (n - 1) as nat);
        assert(x + n - 1 - k.len() / 2 == x + (n - 1) - k.len() / 2);
    }
}

/// The vertical sum as a sum.
proof fn lemma_column_terms(g: &Gray, k: Seq<i32>, x: int, y: int, n: nat)
    ensures
        column_sum(g, k, x, y, n) == sum_of(column_term(g, k, x, y), n),
    decreases n,
{
    if n > 0 {
        lemma_column_terms(g, k, x, y, (n - 1) as nat);
        assert(y + n - 1 - k.len() / 2 == y + (n - 1) - k.len() / 2);
    }
}

/// Beyond its ends a row goes on as in a mirror that stands on its last pixel:
/// inside, an index is its own reflection, and the reflection is symmetric to
/// either end. So indices are mirrored with the row.
pub proof fn law_reflected(i: int, n: int)
    requires
        n >= 2,
    ensures
        0 <= reflected(i, n) < n,
        0 <= i < n ==> reflected(i, n) == i,
        reflected(-i, n) == reflected(i, n),
        reflected(2 * (n - 1) - i, n) == reflected(i, n),
        reflected(n - 1 - i, n) == n - 1 - reflected(i, n),
{
    let p = 2 * (n - 1);
    crate::image::lemma_reflected(i, n);
    let (q, r) = (i / p, i % p);
    vstd::arithmetic::div_mod::lemma_fundamental_div_mod(i, p);
    assert(0 <= r < p) by (nonlinear_arith)
        requires
            r == i % p,
            p > 0,
    ;
    assert(p * q == q * p) by (nonlinear_arith);
    if 0 <= i < n {
        vstd::arithmetic::div_mod::lemma_small_mod(i as nat, p as nat);
    }
    let j = n - 1 - i;
    if r <= n - 1 {
        assert(j == p * (-q) + (n - 1 - r)) by (nonlinear_arith)
            requires
                i == p * q + r,
                j == n - 1 - i,
        ;
        vstd::arithmetic::div_mod::lemma_fundamental_div_mod_converse(j, p, -q, n - 1 - r);
    } else {
        assert(j == p * (-q - 1) + (p + n - 1 - r)) by (nonlinear_arith)
            requires
                i == p * q + r,
                j == n - 1 - i,
        ;
        vstd::arithmetic::div_mod::lemma_fundamental_div_mod_converse(
            j,
            p,
            -q - 1,
            p + n - 1 - r,
        );
    }
}

/// The horizontal sum of a mirrored image.
proof fn lemma_row_mirrored(g: &Gray, f: &Gray, k: Seq<i32>, x: int, y: int)
    requires
        is_mirrored(g, f),
        is_symmetric(k),
        g.w >= 2,
        0 <= y < g.h,
    ensures
        row_sum(f, k, x, y, k.len()) == row_sum(g, k, g.w - 1 - x, y, k.len()),
{
    let n = k.len();
    let w = g.w as int;
    let (a, b) = (row_term(f, k, x, y), row_term(g, k, w - 1 - x, y));
    lemma_row_terms(f, k, x, y, n);
    lemma_row_terms(g, k, w - 1 - x, y, n);
    lemma_sum_reversed(b, n);
    assert forall|t: int| 0 <= t < n implies #[trigger] a(t) == (|t: int| b(n - 1 - t))(t) by {
        let i = x + t - n / 2;
        law_reflected(i, w);
        assert(w - 1 - x + (n - 1 - t) - n / 2 == w - 1 - i);
        let at = reflected(i, w);
        assert(f.pixel(at, y) == g.pixel(w - 1 - at, y));
        assert(k[t] == k[n - 1 - t]);
    }
    lemma_sum_same(a, |t: int| b(n - 1 - t), n);
}

/// The vertical sum of a mirrored image.
proof fn lemma_column_mirrored(g: &Gray, f: &Gray, k: Seq<i32>, x: int, y: int)
    requires
        is_mirrored(g, f),
        is_symmetric(k),
        g.w >= 2,
        g.h >= 2,
    ensures
        column_sum(f, k, x, y, k.len()) == column_sum(g, k, g.w - 1 - x, y, k.len()),
{
    let n = k.len();
    let (a, b) = (column_term(f, k, x, y), column_term(g, k, g.w - 1 - x, y));
    lemma_column_terms(f, k, x, y, n);
    lemma_column_terms(g, k, g.w - 1 - x, y, n);
    assert forall|t: int| 0 <= t < n implies #[trigger] a(t) == b(t) by {
        let i = y + t - n / 2;
        law_reflected(i, g.h as int);
        lemma_row_mirrored(g, f, k, x, reflected(i, g.h as int));
    }
    lemma_sum_same(a, b, n);
}

/// The blur is centered: with a kernel of odd length that is the same read
/// backwards, the blur of a mirrored image is the mirrored blur.
pub proof fn law_blur_mirrored(g: &Gray, f: &Gray, k: Seq<i32>, x: int, y: int)
    requires
        is_mirrored(g, f),
        is_symmetric(k),
        g.w >= 2,
        g.h >= 2,
    ensures
        blurred(f, k, x, y) == blurred(g, k, g.w - 1 - x, y),
{
    lemma_column_mirrored(g, f, k, x, y);
}

/// The same with top and bottom exchanged.
pub proof fn law_blur_flipped(g: &Gray, f: &Gray, k: Seq<i32>, x: int, y: int)
    requires
        is_flipped(g, f),
        is_symmetric(k),
        g.w >= 2,
        g.h >= 2,
    ensures
        blurred(f, k, x, y) == blurred(g, k, x, g.h - 1 - y),
{
    let n = k.len();
    let h = g.h as int;
    let (a, b) = (column_term(f, k, x, y), column_term(g, k, x, h - 1 - y));
    lemma_column_terms(f, k, x, y, n);
    lemma_column_terms(g, k, x, h - 1 - y, n);
    lemma_sum_reversed(b, n);
    assert forall|t: int| 0 <= t < n implies #[trigger] a(t) == (|t: int| b(n - 1 - t))(t) by {
        let i = y + t - n / 2;
        law_reflected(i, h);
        assert(h - 1 - y + (n - 1 - t) - n / 2 == h - 1 - i);
        let at = reflected(i, h);
        let (c, d) = (row_term(f, k, x, at), row_term(g, k, x, h - 1 - at));
        lemma_row_terms(f, k, x, at, n);
        lemma_row_terms(g, k, x, h - 1 - at, n);
        assert forall|s: int| 0 <= s < n implies #[trigger] c(s) == d(s) by {
            law_reflected(x + s - n / 2, g.w as int);
            let u = reflected(x + s - n / 2, g.w as int);
            assert(f.pixel(u, at) == g.pixel(u, h - 1 - at));
        }
        lemma_sum_same(c, d, n);
        assert(k[t] == k[n - 1 - t]);
    }
    lemma_sum_same(a, |t: int| b(n - 1 - t), n);
}

/// The vertical sum as a sum of sums.
proof fn lemma_column_double(g: &Gray, k: Seq<i32>, x: int, y: int)
    ensures
        column_sum(g, k, x, y, k.len()) == sum_of(
            |s: int|
                sum_of(
                    |t: int|
                        k[s] * (k[t] * g.pixel(
                            reflected(x + t - k.len() / 2, g.w as int),
                            reflected(y + s - k.len() / 2, g.h as int),
                        )),
                    k.len(),
                ),
            k.len(),
        ),
{
    let n = k.len();
    let a = column_term(g, k, x, y);
    let b = |s: int|
        sum_of(
            |t: int|
                k[s] * (k[t] * g.pixel(
                    reflected(x + t - k.len() / 2, g.w as int),
                    reflected(y + s - k.len() / 2, g.h as int),
                )),
            k.len(),
        );
    lemma_column_terms(g, k, x, y, n);
    assert forall|s: int| 0 <= s < n implies #[trigger] a(s) == b(s) by {
        let at = reflected(y + s - n / 2, g.h as int);
        let c = row_term(g, k, x, at);
        lemma_row_terms(g, k, x, at, n);
        lemma_sum_scaled(c, k[s] as int, n);
        lemma_sum_same(
            |t: int| k[s] * c(t),
            |t: int|
                k[s] * (k[t] * g.pixel(
                    reflected(x + t - k.len() / 2, g.w as int),
                    reflected(y + s - k.len() / 2, g.h as int),
                )),
            n,
        );
    }
    lemma_sum_same(a, b, n);
}

/// The blur does the same along rows and columns: the blur of a transposed
/// image is the transposed blur.
pub proof fn law_blur_transposed(g: &Gray, f: &Gray, k: Seq<i32>, x: int, y: int)
    requires
        is_transposed(g, f),
        g.w >= 2,
        g.h >= 2,
    ensures
        blurred(f, k, y, x) == blurred(g, k, x, y),
{
    let n = k.len();
    let p = |s: int, t: int|
        k[s] * (k[t] * g.pixel(
            reflected(x + t - k.len() / 2, g.w as int),
            reflected(y + s - k.len() / 2, g.h as int),
        ));
    lemma_column_double(g, k, x, y);
    lemma_column_double(f, k, y, x);
    lemma_sum_swapped(p, n, n);
    let a = |s: int|
        sum_of(
            |t: int|
                k[s] * (k[t] * f.pixel(
                    reflected(y + t - k.len() / 2, f.w as int),
                    reflected(x + s - k.len() / 2, f.h as int),
                )),
            k.len(),
        );
    let b = |t: int| sum_of(|s: int| p(s, t), n);
    assert forall|t: int| 0 <= t < n implies #[trigger] a(t) == b(t) by {
        let c = |u: int|
            k[t] * (k[u] * f.pixel(
                reflected(y + u - k.len() / 2, f.w as int),
                reflected(x + t - k.len() / 2, f.h as int),
            ));
        let d = |s: int| p(s, t);
        assert forall|s: int| 0 <= s < n implies #[trigger] c(s) == d(s) by {
            let (i, j) = (
                reflected(y + s - n / 2, g.h as int),
                reflected(x + t - n / 2, g.w as int),
            );
            law_reflected(y + s - n / 2, g.h as int);
            law_reflected(x + t - n / 2, g.w as int);
            assert(f.pixel(i, j) == g.pixel(j, i));
            let (u, v, w) = (k[t] as int, k[s] as int, g.pixel(j, i) as int);
            assert(u * (v * w) == v * (u * w)) by (nonlinear_arith);
        }
        lemma_sum_same(c, d, n);
    }
    lemma_sum_same(a, b, n);
    let rows = |s: int|
        sum_of(
            |t: int|
                k[s] * (k[t] * g.pixel(
                    reflected(x + t - k.len() / 2, g.w as int),
                    reflected(y + s - k.len() / 2, g.h as int),
                )),
            k.len(),
        );
    assert forall|s: int| 0 <= s < n implies #[trigger] rows(s) == (|s: int|
        sum_of(|t: int| p(s, t), n))(s) by {
        lemma_sum_same(
            |t: int|
                k[s] * (k[t] * g.pixel(
                    reflected(x + t - k.len() / 2, g.w as int),
                    reflected(y + s - k.len() / 2, g.h as int),
                )),
            |t: int| p(s, t),
            n,
        );
    }
    lemma_sum_same(rows, |s: int| sum_of(|t: int| p(s, t), n), n);
}

/// Where a kernel, centered on a pixel, reaches from one end of a row to the
/// other at most.
pub open spec fn kernel_fits(len: int, i: int, n: int) -> bool {
    len / 2 <= i && i + len - len / 2 <= n
}

/// A bright pixel spreads by the product of two weights, those at its distance
/// from the center of the kernel in each direction, and no further than the
/// kernel reaches.
pub proof fn law_blur_spreads_pixel(g: &Gray, k: Seq<i32>, px: int, py: int, v: u8, x: int, y: int)
    requires
        is_spot(g, px, py, v),
        kernel_ok(k),
        g.w >= 2,
        g.h >= 2,
        0 <= x < g.w,
        0 <= y < g.h,
        kernel_fits(k.len() as int, x, g.w as int),
        kernel_fits(k.len() as int, y, g.h as int),
    ensures
        ({
            let (i, j) = (k.len() / 2 + px - x, k.len() / 2 + py - y);
            if 0 <= i < k.len() && 0 <= j < k.len() {
                let s = (k[j] * (k[i] * v) + 32768) / 65536;
                blurred(g, k, x, y) == if s > 255 {
                    255
                } else {
                    s
                }
            } else {
                blurred(g, k, x, y) == 0
            }
        }),
{
    let n = k.len();
    let (i, j) = (n / 2 + px - x, n / 2 + py - y);
    let a = column_term(g, k, x, y);
    lemma_column_terms(g, k, x, y, n);
    assert forall|t: int| 0 <= t < n implies #[trigger] a(t) == k[t] * (if t == j && 0 <= i < n {
        k[i] * v
    } else {
        0
    }) by {
        let at = y + t - n / 2;
        law_reflected(at, g.h as int);
        let c = row_term(g, k, x, at);
        lemma_row_terms(g, k, x, at, n);
        assert forall|s: int| 0 <= s < n implies #[trigger] c(s) == (if s == i && t == j {
            k[i] * v
        } else {
            0
        }) by {
            let u = x + s - n / 2;
            law_reflected(u, g.w as int);
            assert(g.pixel(u, at) == if u == px && at == py {
                v
            } else {
                0
            });
            assert(k[s] * 0 == 0) by (nonlinear_arith);
        }
        lemma_sum_single(
            c,
            if t == j {
                i
            } else {
                -1
            },
            n,
        );
    }
    assert forall|t: int| 0 <= t < n && t != j implies #[trigger] a(t) == 0 by {
        assert(k[t] * 0 == 0) by (nonlinear_arith);
    }
    lemma_sum_single(a, j, n);
    if 0 <= j < n {
        assert(a(j) == k[j] * (if 0 <= i < n {
            k[i] * v
        } else {
            0
        }));
        assert(k[j] * 0 == 0) by (nonlinear_arith);
        if 0 <= i < n {
            let (b, c, e) = (k[j] as int, k[i] as int, v as int);
            assert(0 <= b * (c * e)) by (nonlinear_arith)
                requires
                    0 <= b,
                    0 <= c,
                    0 <= e,
            ;
        }
    }
}

/// Where a position lies in a whole column, and some way between two rows, the
/// value is between the two pixels above and below it, and no other pixel has
/// to do with it.
pub proof fn law_remap_along_column(g: &Gray, x: int, y: int, b: int)
    requires
        g.wf(),
        0 <= x < g.w,
        0 <= y < g.h - 1,
        0 <= b < 32,
    ensures
        interpolated(g, 32 * x, 32 * y + b) == ((32 - b) * g.pixel(x, y) + b * g.pixel(x, y + 1)
            + 16) / 32,
{
    assert((32 * x) / 32 == x && (32 * x) % 32 == 0);
    assert((32 * y + b) / 32 == y && (32 * y + b) % 32 == b);
    let (t, u, v, w) = (tap(g, x, y), tap(g, x + 1, y), tap(g, x, y + 1), tap(g, x + 1, y + 1));
    assert(t == g.pixel(x, y) && v == g.pixel(x, y + 1));
    let s = (32 - b) * t + b * v;
    assert((32 - 0) * (32 - b) * t + 0 * (32 - b) * u + (32 - 0) * b * v + 0 * b * w == 32 * s)
        by (nonlinear_arith)
        requires
            s == (32 - b) * t + b * v,
    ;
    assert((32 * s + 512) / 1024 == (s + 16) / 32);
}

/// The same along a row.
pub proof fn law_remap_along_row(g: &Gray, x: int, y: int, a: int)
    requires
        g.wf(),
        0 <= x < g.w - 1,
        0 <= y < g.h,
        0 <= a < 32,
    ensures
        interpolated(g, 32 * x + a, 32 * y) == ((32 - a) * g.pixel(x, y) + a * g.pixel(x + 1, y)
            + 16) / 32,
{
    assert((32 * y) / 32 == y && (32 * y) % 32 == 0);
    assert((32 * x + a) / 32 == x && (32 * x + a) % 32 == a);
    let (t, u, v, w) = (tap(g, x, y), tap(g, x + 1, y), tap(g, x, y + 1), tap(g, x + 1, y + 1));
    assert(t == g.pixel(x, y) && u == g.pixel(x + 1, y));
    let s = (32 - a) * t + a * u;
    assert((32 - a) * (32 - 0) * t + a * (32 - 0) * u + (32 - a) * 0 * v + a * 0 * w == 32 * s)
        by (nonlinear_arith)
        requires
            s == (32 - a) * t + a * u,
    ;
    assert((32 * s + 512) / 1024 == (s + 16) / 32);
}

/// Interpolation does the same along rows and columns: a transposed image, read
/// at transposed positions, gives the same values.
pub proof fn law_remap_transposed(g: &Gray, f: &Gray, ix: int, iy: int)
    requires
        is_transposed(g, f),
    ensures
        interpolated(f, iy, ix) == interpolated(g, ix, iy),
{
    let (x, y) = (ix / 32, iy / 32);
    let (a, b) = (ix % 32, iy % 32);
    let (t, u, v, w) = (tap(g, x, y), tap(g, x + 1, y), tap(g, x, y + 1), tap(g, x + 1, y + 1));
    assert(tap(f, y, x) == t && tap(f, y + 1, x) == v && tap(f, y, x + 1) == u && tap(
        f,
        y + 1,
        x + 1,
    ) == w) by {
        lemma_tap_transposed(g, f, x, y);
        lemma_tap_transposed(g, f, x + 1, y);
        lemma_tap_transposed(g, f, x, y + 1);
        lemma_tap_transposed(g, f, x + 1, y + 1);
    }
    assert((32 - a) * (32 - b) * t + a * (32 - b) * u + (32 - a) * b * v + a * b * w == (32 - b)
        * (32 - a) * t + b * (32 - a) * v + (32 - b) * a * u + b * a * w) by (nonlinear_arith);
}

/// A pixel of a transposed image.
proof fn lemma_tap_transposed(g: &Gray, f: &Gray, x: int, y: int)
    requires
        is_transposed(g, f),
    ensures
        tap(f, y, x) == tap(g, x, y),
{
    if 0 <= x < g.w && 0 <= y < g.h {
        assert(f.pixel(y, x) == g.pixel(x, y));
    }
}

/// Interpolation is the same from the left and from the right.
pub proof fn law_remap_mirrored(g: &Gray, f: &Gray, ix: int, iy: int)
    requires
        is_mirrored(g, f),
    ensures
        interpolated(f, 32 * (g.w - 1) - ix, iy) == interpolated(g, ix, iy),
{
    let (x, y) = (ix / 32, iy / 32);
    let (a, b) = (ix % 32, iy % 32);
    let jx = 32 * (g.w - 1) - ix;
    let (z, c) = (jx / 32, jx % 32);
    lemma_tap_mirrored(g, f, x, y);
    lemma_tap_mirrored(g, f, x + 1, y);
    lemma_tap_mirrored(g, f, x, y + 1);
    lemma_tap_mirrored(g, f, x + 1, y + 1);
    let (t, u, v, w) = (tap(g, x, y), tap(g, x + 1, y), tap(g, x, y + 1), tap(g, x + 1, y + 1));
    if a == 0 {
        assert(c == 0 && z == g.w - 1 - x);
        let (p, q) = (tap(f, z + 1, y), tap(f, z + 1, y + 1));
        assert((32 - 0) * (32 - b) * t + 0 * (32 - b) * u + (32 - 0) * b * v + 0 * b * w == (32 - 0)
            * (32 - b) * t + 0 * (32 - b) * p + (32 - 0) * b * v + 0 * b * q) by (nonlinear_arith);
    } else {
        assert(c == 32 - a && z == g.w - 2 - x);
        assert((32 - a) * (32 - b) * t + a * (32 - b) * u + (32 - a) * b * v + a * b * w == (32 - c)
            * (32 - b) * u + c * (32 - b) * t + (32 - c) * b * w + c * b * v) by (nonlinear_arith)
            requires
                c == 32 - a,
        ;
    }
}

/// A pixel of a mirrored image.
proof fn lemma_tap_mirrored(g: &Gray, f: &Gray, x: int, y: int)
    requires
        is_mirrored(g, f),
    ensures
        tap(f, g.w - 1 - x, y) == tap(g, x, y),
{
    if 0 <= x < g.w && 0 <= y < g.h {
        assert(f.pixel(g.w - 1 - x, y) == g.pixel(x, y));
    }
}

/// A bright pixel counts at a position by how near it is in each direction, and
/// not at all from a pixel away on.
pub proof fn law_remap_spreads_pixel(g: &Gray, px: int, py: int, v: u8, ix: int, iy: int)
    requires
        is_spot(g, px, py, v),
    ensures
        ({
            let (dx, dy) = (distance(ix, 32 * px), distance(iy, 32 * py));
            interpolated(g, ix, iy) == if dx < 32 && dy < 32 {
                ((32 - dx) * (32 - dy) * v + 512) / 1024
            } else {
                0
            }
        }),
{
    let (x, y) = (ix / 32, iy / 32);
    let (a, b) = (ix % 32, iy % 32);
    lemma_tap_spot(g, px, py, v, x, y);
    lemma_tap_spot(g, px, py, v, x + 1, y);
    lemma_tap_spot(g, px, py, v, x, y + 1);
    lemma_tap_spot(g, px, py, v, x + 1, y + 1);
    let (t, u, w, z) = (tap(g, x, y), tap(g, x + 1, y), tap(g, x, y + 1), tap(g, x + 1, y + 1));
    let (p, q, r, s) = ((32 - a) * (32 - b), a * (32 - b), (32 - a) * b, a * b);
    assert(p * 0 == 0 && q * 0 == 0 && r * 0 == 0 && s * 0 == 0) by (nonlinear_arith);
    let e = v as int;
    let (dx, dy) = (distance(ix, 32 * px), distance(iy, 32 * py));
    assert(0 * (32 - b) * e == 0 && (32 - a) * 0 * e == 0 && 0 * b * e == 0 && a * 0 * e == 0)
        by (nonlinear_arith);
    if x == px {
        assert(dx == a);
    } else if x + 1 == px {
        assert(dx == 32 - a);
    } else {
        assert(dx >= 32);
    }
    if y == py {
        assert(dy == b);
    } else if y + 1 == py {
        assert(dy == 32 - b);
    } else {
        assert(dy >= 32);
    }
}

/// A pixel of an image with one bright pixel.
proof fn lemma_tap_spot(g: &Gray, px: int, py: int, v: u8, x: int, y: int)
    requires
        is_spot(g, px, py, v),
    ensures
        tap(g, x, y) == if x == px && y == py {
            v as int
        } else {
            0
        },
{
    if 0 <= x < g.w && 0 <= y < g.h {
        assert(g.pixel(x, y) == if x == px && y == py {
            v
        } else {
            0
        });
    }
}

/// A pixel is white after the adaptive threshold if and only if it is darker
/// than the mean around it by at least the constant, and otherwise black.
pub proof fn law_threshold_tells_dark(px: Seq<u8>, mean: Seq<u8>, c: int, i: int)
    requires
        0 <= i < px.len(),
    ensures
        thresholded(px, mean, c)[i] == 255 <==> mean[i] - px[i] >= c,
        thresholded(px, mean, c)[i] == 0 <==> mean[i] - px[i] < c,
{
}

/// The block of the adaptive threshold is an eighth of the shorter side, made
/// odd, where that is within 11 and 51, and the nearer of the two otherwise.
pub proof fn law_block(w: int, h: int, m: int)
    requires
        0 <= m,
        m <= w && m <= h,
        m == w || m == h,
    ensures
        block(w, h) % 2 == 1,
        88 <= m < 416 ==> 8 * (block(w, h) - 1) <= m < 8 * (block(w, h) + 1),
        m < 88 ==> block(w, h) == 11,
        m >= 416 ==> block(w, h) == 51,
{
}

/// The median filter, inside an image: at least five of the pixel and its eight
/// neighbors reach a number if and only if the median does.
pub proof fn law_median_of_neighbors(g: &Gray, x: int, y: int, m: u8, t: int)
    requires
        g.wf(),
        0 < x < g.w - 1,
        0 < y < g.h - 1,
        is_median(window(g, x, y), m),
    ensures
        m >= t <==> counted(g.pixel(x - 1, y - 1) >= t) + counted(g.pixel(x, y - 1) >= t)
            + counted(g.pixel(x + 1, y - 1) >= t) + counted(g.pixel(x - 1, y) >= t) + counted(
            g.pixel(x, y) >= t,
        ) + counted(g.pixel(x + 1, y) >= t) + counted(g.pixel(x - 1, y + 1) >= t) + counted(
            g.pixel(x, y + 1) >= t,
        ) + counted(g.pixel(x + 1, y + 1) >= t) >= 5,
{
    let s = window(g, x, y);
    assert(m >= t <==> reaching(s, t) >= 5);
}

/// Beyond its ends a row or column repeats its last pixel: the median at a pixel
/// is that of an image in which the border is written out.
pub proof fn law_median_at_border(g: &Gray, f: &Gray, x: int, y: int, m: u8)
    requires
        g.wf(),
        f.w == g.w + 2,
        f.h == g.h + 2,
        forall|i: int, j: int|
            0 <= i < f.w && 0 <= j < f.h ==> #[trigger] f.pixel(i, j) == g.pixel(
                (if i == 0 {
                    0
                } else if i == f.w - 1 {
                    g.w - 1
                } else {
                    i - 1
                }),
                (if j == 0 {
                    0
                } else if j == f.h - 1 {
                    g.h - 1
                } else {
                    j - 1
                }),
            ),
        0 <= x < g.w,
        0 <= y < g.h,
    ensures
        is_median(window(g, x, y), m) <==> is_median(window(f, x + 1, y + 1), m),
{
    let (s, t) = (window(g, x, y), window(f, x + 1, y + 1));
    assert forall|k: int| 0 <= k < 9 implies s[k] == t[k] by {
        let (i, j) = (x + k % 3, y + k / 3);
        assert(f.pixel(clamped(i, f.w as int), clamped(j, f.h as int)) == t[k]);
    }
    assert(s =~= t);
}

/// A position beyond the ends of a row is taken for the nearest one in it.
pub proof fn law_clamped_is_nearest(i: int, n: int, j: int)
    requires
        0 <= j < n,
    ensures
        0 <= clamped(i, n) < n,
        distance(i, clamped(i, n)) <= distance(i, j),
{
}

/// An image made of rows has each row where it belongs.
pub proof fn law_rows_in_place(rows: spec_fn(int) -> Seq<u8>, w: nat, h: nat, x: int, y: int)
    requires
        0 <= x < w,
        0 <= y < h,
    ensures
        from_rows(rows, w, h).len() == w * h,
        from_rows(rows, w, h)[y * w + x] == rows(y)[x],
{
    crate::image::lemma_index(w as int, h as int, x, y);
}

/// An index mirrored at the ends of a row, where it is not further beyond them
/// than the row is long.
pub open spec fn mirrored_in(i: int, n: int) -> int {
    if i < 0 {
        -i
    } else if i >= n {
        2 * (n - 1) - i
    } else {
        i
    }
}

/// Whether `f` is `g` with a border of `r` pixels, in which `g` is mirrored at
/// its first and last rows and columns.
pub open spec fn has_mirrored_border(g: &Gray, f: &Gray, r: int) -> bool {
    &&& f.w == g.w + 2 * r
    &&& f.h == g.h + 2 * r
    &&& forall|i: int, j: int|
        0 <= i < f.w && 0 <= j < f.h ==> #[trigger] f.pixel(i, j) == g.pixel(
            mirrored_in(i - r, g.w as int),
            mirrored_in(j - r, g.h as int),
        )
}

/// Reflection is mirroring as far as the row is long.
proof fn lemma_mirrored_in(i: int, n: int)
    requires
        n >= 2,
        -n < i < 2 * n - 1,
    ensures
        reflected(i, n) == mirrored_in(i, n),
{
    law_reflected(i, n);
    law_reflected(-i, n);
    law_reflected(2 * (n - 1) - i, n);
}

/// At the border of an image the blur is that of an image in which the border,
/// mirrored at the first and last rows and columns, is written out.
pub proof fn law_blur_at_border(g: &Gray, f: &Gray, k: Seq<i32>, r: int, x: int, y: int)
    requires
        k.len() == 2 * r + 1,
        0 <= r < g.w,
        r < g.h,
        g.w >= 2,
        g.h >= 2,
        has_mirrored_border(g, f, r),
        0 <= x < g.w,
        0 <= y < g.h,
    ensures
        blurred(g, k, x, y) == blurred(f, k, x + r, y + r),
{
    let n = k.len();
    let (a, b) = (column_term(g, k, x, y), column_term(f, k, x + r, y + r));
    lemma_column_terms(g, k, x, y, n);
    lemma_column_terms(f, k, x + r, y + r, n);
    assert forall|t: int| 0 <= t < n implies #[trigger] a(t) == b(t) by {
        let (i, j) = (y + t - n / 2, y + r + t - n / 2);
        lemma_mirrored_in(i, g.h as int);
        law_reflected(j, f.h as int);
        let (c, d) = (
            row_term(g, k, x, reflected(i, g.h as int)),
            row_term(f, k, x + r, reflected(j, f.h as int)),
        );
        lemma_row_terms(g, k, x, reflected(i, g.h as int), n);
        lemma_row_terms(f, k, x + r, reflected(j, f.h as int), n);
        assert forall|s: int| 0 <= s < n implies #[trigger] c(s) == d(s) by {
            let (u, v) = (x + s - n / 2, x + r + s - n / 2);
            lemma_mirrored_in(u, g.w as int);
            law_reflected(v, f.w as int);
            assert(f.pixel(v, j) == g.pixel(
                mirrored_in(v - r, g.w as int),
                mirrored_in(j - r, g.h as int),
            ));
        }
        lemma_sum_same(c, d, n);
    }
    lemma_sum_same(a, b, n);
}

} // verus!
