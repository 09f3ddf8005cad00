//! How far the sync patterns of variants on one grid are apart, and what the
//! sync gate makes of them.
use crate::codec::{correlation, correlations, sign};
use crate::codec_laws::{lemma_best_is_largest, lemma_correlation, lemma_correlation_range};
use crate::detector::{best_correlation, syncs};
use crate::marker::{
    sim48c12_parameters, sim48c16_parameters, sim48c8_parameters, MarkerSpec,
};
use vstd::prelude::*;

verus! {

/// Whether the correlation of two patterns of sixteen cells, the second read
/// from sector `s` on, is at most six in either polarity.
pub open spec fn far_apart_at(a: Seq<u8>, b: Seq<u8>, s: int) -> bool {
    -6 <= correlation(a, b, s, 16, 16) <= 6
}

/// The same under every rotation.
pub open spec fn far_apart(a: Seq<u8>, b: Seq<u8>) -> bool {
    forall|s: int| 0 <= s < 16 ==> #[trigger] far_apart_at(a, b, s)
}

/// One where two cells agree, minus one where they do not.
spec fn agreement(x: u8, y: u8) -> int {
    if (x > 0) == (y > 0) {
        1
    } else {
        -1
    }
}

/// The product of signs is the agreement.
proof fn lemma_step(a: Seq<u8>, b: Seq<u8>, s: int, k: nat)
    ensures
        correlation(a, b, s, 16, k + 1) == correlation(a, b, s, 16, k) + agreement(
            a[k as int],
            b[(k + s) % 16],
        ),
{
    let (x, y) = (sign(a[k as int]), sign(b[(k + s) % 16]));
    assert(x * y == if x == y {
        1int
    } else {
        -1
    }) by (nonlinear_arith)
        requires
            x == 1 || x == -1,
            y == 1 || y == -1,
    ;
}

/// The sum over the cells, written out.
proof fn lemma_unrolled(a: Seq<u8>, b: Seq<u8>, s: int)
    ensures
        correlation(a, b, s, 16, 16) == agreement(a[0], b[(0 + s) % 16]) + agreement(a[1], b[(1 + s) % 16]) + agreement(a[2], b[(2 + s) % 16]) + agreement(a[3], b[(3 + s) % 16]) + agreement(a[4], b[(4 + s) % 16]) + agreement(a[5], b[(5 + s) % 16]) + agreement(a[6], b[(6 + s) % 16]) + agreement(a[7], b[(7 + s) % 16]) + agreement(a[8], b[(8 + s) % 16]) + agreement(a[9], b[(9 + s) % 16]) + agreement(a[10], b[(10 + s) % 16]) + agreement(a[11], b[(11 + s) % 16]) + agreement(a[12], b[(12 + s) % 16]) + agreement(a[13], b[(13 + s) % 16]) + agreement(a[14], b[(14 + s) % 16]) + agreement(a[15], b[(15 + s) % 16]),
{
    lemma_step(a, b, s, 0);
    lemma_step(a, b, s, 1);
    lemma_step(a, b, s, 2);
    lemma_step(a, b, s, 3);
    lemma_step(a, b, s, 4);
    lemma_step(a, b, s, 5);
    lemma_step(a, b, s, 6);
    lemma_step(a, b, s, 7);
    lemma_step(a, b, s, 8);
    lemma_step(a, b, s, 9);
    lemma_step(a, b, s, 10);
    lemma_step(a, b, s, 11);
    lemma_step(a, b, s, 12);
    lemma_step(a, b, s, 13);
    lemma_step(a, b, s, 14);
    lemma_step(a, b, s, 15);
}

/// The patterns of `sim48c8` and `sim48c16`.
proof fn lemma_sim48c8_sim48c16()
    ensures
        far_apart(sim48c8_parameters().sync, sim48c16_parameters().sync),
{
    let (a, b) = (sim48c8_parameters().sync, sim48c16_parameters().sync);
    assert(a[0] == 1 && a[1] == 1 && a[2] == 0 && a[3] == 0 && a[4] == 0 && a[5] == 0 && a[6] == 1 && a[7] == 1 && a[8] == 0 && a[9] == 0 && a[10] == 1 && a[11] == 1 && a[12] == 0 && a[13] == 1 && a[14] == 1 && a[15] == 1);
    assert(b[0] == 0 && b[1] == 1 && b[2] == 0 && b[3] == 1 && b[4] == 1 && b[5] == 0 && b[6] == 1 && b[7] == 0 && b[8] == 1 && b[9] == 0 && b[10] == 0 && b[11] == 0 && b[12] == 0 && b[13] == 0 && b[14] == 1 && b[15] == 0);
    lemma_unrolled(a, b, 0);
    lemma_unrolled(a, b, 1);
    lemma_unrolled(a, b, 2);
    lemma_unrolled(a, b, 3);
    lemma_unrolled(a, b, 4);
    lemma_unrolled(a, b, 5);
    lemma_unrolled(a, b, 6);
    lemma_unrolled(a, b, 7);
    lemma_unrolled(a, b, 8);
    lemma_unrolled(a, b, 9);
    lemma_unrolled(a, b, 10);
    lemma_unrolled(a, b, 11);
    lemma_unrolled(a, b, 12);
    lemma_unrolled(a, b, 13);
    lemma_unrolled(a, b, 14);
    lemma_unrolled(a, b, 15);
}

/// The patterns of `sim48c8` and `sim48c12`.
proof fn lemma_sim48c8_sim48c12()
    ensures
        far_apart(sim48c8_parameters().sync, sim48c12_parameters().sync),
{
    let (a, b) = (sim48c8_parameters().sync, sim48c12_parameters().sync);
    assert(a[0] == 1 && a[1] == 1 && a[2] == 0 && a[3] == 0 && a[4] == 0 && a[5] == 0 && a[6] == 1 && a[7] == 1 && a[8] == 0 && a[9] == 0 && a[10] == 1 && a[11] == 1 && a[12] == 0 && a[13] == 1 && a[14] == 1 && a[15] == 1);
    assert(b[0] == 1 && b[1] == 0 && b[2] == 0 && b[3] == 1 && b[4] == 0 && b[5] == 0 && b[6] == 0 && b[7] == 1 && b[8] == 1 && b[9] == 0 && b[10] == 0 && b[11] == 0 && b[12] == 1 && b[13] == 0 && b[14] == 1 && b[15] == 0);
    lemma_unrolled(a, b, 0);
    lemma_unrolled(a, b, 1);
    lemma_unrolled(a, b, 2);
    lemma_unrolled(a, b, 3);
    lemma_unrolled(a, b, 4);
    lemma_unrolled(a, b, 5);
    lemma_unrolled(a, b, 6);
    lemma_unrolled(a, b, 7);
    lemma_unrolled(a, b, 8);
    lemma_unrolled(a, b, 9);
    lemma_unrolled(a, b, 10);
    lemma_unrolled(a, b, 11);
    lemma_unrolled(a, b, 12);
    lemma_unrolled(a, b, 13);
    lemma_unrolled(a, b, 14);
    lemma_unrolled(a, b, 15);
}

/// The patterns of `sim48c16` and `sim48c12`.
proof fn lemma_sim48c16_sim48c12()
    ensures
        far_apart(sim48c16_parameters().sync, sim48c12_parameters().sync),
{
    let (a, b) = (sim48c16_parameters().sync, sim48c12_parameters().sync);
    assert(a[0] == 0 && a[1] == 1 && a[2] == 0 && a[3] == 1 && a[4] == 1 && a[5] == 0 && a[6] == 1 && a[7] == 0 && a[8] == 1 && a[9] == 0 && a[10] == 0 && a[11] == 0 && a[12] == 0 && a[13] == 0 && a[14] == 1 && a[15] == 0);
    assert(b[0] == 1 && b[1] == 0 && b[2] == 0 && b[3] == 1 && b[4] == 0 && b[5] == 0 && b[6] == 0 && b[7] == 1 && b[8] == 1 && b[9] == 0 && b[10] == 0 && b[11] == 0 && b[12] == 1 && b[13] == 0 && b[14] == 1 && b[15] == 0);
    lemma_unrolled(a, b, 0);
    lemma_unrolled(a, b, 1);
    lemma_unrolled(a, b, 2);
    lemma_unrolled(a, b, 3);
    lemma_unrolled(a, b, 4);
    lemma_unrolled(a, b, 5);
    lemma_unrolled(a, b, 6);
    lemma_unrolled(a, b, 7);
    lemma_unrolled(a, b, 8);
    lemma_unrolled(a, b, 9);
    lemma_unrolled(a, b, 10);
    lemma_unrolled(a, b, 11);
    lemma_unrolled(a, b, 12);
    lemma_unrolled(a, b, 13);
    lemma_unrolled(a, b, 14);
    lemma_unrolled(a, b, 15);
}

/// The sum of a function over `n` numbers from `s` on.
spec fn sum_from(f: spec_fn(int) -> int, s: int, n: nat) -> int
    decreases n,
{
    if n == 0 {
        0
    } else {
        sum_from(f, s, (n - 1) as nat) + f(s + n - 1)
    }
}

/// Taking the first number off a sum.
proof fn lemma_sum_tail(f: spec_fn(int) -> int, s: int, n: nat)
    ensures
        sum_from(f, s, n + 1) == f(s) + sum_from(f, s + 1, n),
    decreases n,
{
    assert(sum_from(f, s, n + 1) == sum_from(f, s, n) + f(s + n));
    if n > 0 {
        lemma_sum_tail(f, s, (n - 1) as nat);
        assert(sum_from(f, s + 1, n) == sum_from(f, s + 1, (n - 1) as nat) + f(s + n));
    }
}

/// The sum over a period does not depend on where it starts.
proof fn lemma_sum_period(f: spec_fn(int) -> int, s: nat)
    requires
        forall|j: int| #[trigger] f(j + 16) == f(j),
    ensures
        sum_from(f, s as int, 16) == sum_from(f, 0, 16),
    decreases s,
{
    if s > 0 {
        let t = s - 1;
        lemma_sum_period(f, t as nat);
        lemma_sum_tail(f, t, 16);
        assert(f(t + 16) == f(t));
    }
}

/// A product of signs, once around both patterns.
spec fn products(a: Seq<u8>, b: Seq<u8>, s: int) -> spec_fn(int) -> int {
    |j: int| sign(b[j % 16]) * sign(a[(j + s) % 16])
}

/// Correlation as a sum of products, the second pattern turned.
proof fn lemma_second_turned(a: Seq<u8>, b: Seq<u8>, s: int, k: nat)
    requires
        k <= 16,
    ensures
        correlation(b, a, s, 16, k) == sum_from(products(a, b, s), 0, k),
    decreases k,
{
    if k > 0 {
        lemma_second_turned(a, b, s, (k - 1) as nat);
    }
}

/// Correlation as a sum of products, the first pattern turned.
proof fn lemma_first_turned(a: Seq<u8>, b: Seq<u8>, s: int, k: nat)
    requires
        0 <= s < 16,
        k <= 16,
    ensures
        correlation(a, b, (16 - s) % 16, 16, k) == sum_from(
            products(a, b, s),
            (16 - s) % 16,
            k,
        ),
    decreases k,
{
    if k > 0 {
        lemma_first_turned(a, b, s, (k - 1) as nat);
        let (t, i) = ((16 - s) % 16, k - 1);
        assert((t + i + s) % 16 == i);
        assert(sign(a[i]) * sign(b[(i + t) % 16]) == sign(b[(t + i) % 16]) * sign(a[i]))
            by (nonlinear_arith);
        assert(products(a, b, s)(t + i) == sign(b[(t + i) % 16]) * sign(a[i]));
    }
}

/// Correlation does not depend on which of two patterns is turned.
proof fn lemma_mirrored_at(a: Seq<u8>, b: Seq<u8>, s: int)
    requires
        0 <= s < 16,
    ensures
        correlation(b, a, s, 16, 16) == correlation(a, b, (16 - s) % 16, 16, 16),
{
    let f = products(a, b, s);
    assert forall|j: int| #[trigger] f(j + 16) == f(j) by {
        assert((j + 16) % 16 == j % 16 && (j + 16 + s) % 16 == (j + s) % 16);
    }
    lemma_second_turned(a, b, s, 16);
    lemma_first_turned(a, b, s, 16);
    lemma_sum_period(f, ((16 - s) % 16) as nat);
}

/// Patterns are far apart both ways.
proof fn lemma_mirrored(a: Seq<u8>, b: Seq<u8>)
    requires
        far_apart(a, b),
    ensures
        far_apart(b, a),
{
    assert forall|s: int| 0 <= s < 16 implies #[trigger] far_apart_at(b, a, s) by {
        lemma_mirrored_at(a, b, s);
        assert(far_apart_at(a, b, (16 - s) % 16));
    }
}

/// No variant's sync ring is mistaken for that of another one on the same
/// grid: whichever way a tag is turned, and in either polarity, the sync
/// patterns of two of them correlate with at most six of sixteen.
pub proof fn law_sync_patterns_apart()
    ensures
        far_apart(sim48c8_parameters().sync, sim48c16_parameters().sync),
        far_apart(sim48c8_parameters().sync, sim48c12_parameters().sync),
        far_apart(sim48c16_parameters().sync, sim48c8_parameters().sync),
        far_apart(sim48c16_parameters().sync, sim48c12_parameters().sync),
        far_apart(sim48c12_parameters().sync, sim48c8_parameters().sync),
        far_apart(sim48c12_parameters().sync, sim48c16_parameters().sync),
{
    lemma_sim48c8_sim48c16();
    lemma_sim48c8_sim48c12();
    lemma_sim48c16_sim48c12();
    lemma_mirrored(sim48c8_parameters().sync, sim48c16_parameters().sync);
    lemma_mirrored(sim48c8_parameters().sync, sim48c12_parameters().sync);
    lemma_mirrored(sim48c16_parameters().sync, sim48c12_parameters().sync);
}

/// Reading a ring from another sector on, in either polarity.
proof fn lemma_turned(
    sync: Seq<u8>,
    ring: Seq<u8>,
    other: Seq<u8>,
    s: int,
    t: int,
    inverted: bool,
    n: nat,
    k: nat,
)
    requires
        n >= 1,
        0 <= s,
        0 <= t,
        k <= n,
        forall|j: int|
            0 <= j < n ==> (#[trigger] ring[j] > 0) == ((other[(j + t) % (n as int)] > 0)
                != inverted),
    ensures
        correlation(sync, ring, s, n, k) == if inverted {
            -correlation(sync, other, (s + t) % (n as int), n, k)
        } else {
            correlation(sync, other, (s + t) % (n as int), n, k)
        },
    decreases k,
{
    if k > 0 {
        let m = n as int;
        lemma_turned(sync, ring, other, s, t, inverted, n, (k - 1) as nat);
        let i = k - 1;
        let j = (i + s) % m;
        assert((ring[j] > 0) == ((other[(j + t) % m] > 0) != inverted));
        vstd::arithmetic::div_mod::lemma_add_mod_noop(i + s, t, m);
        vstd::arithmetic::div_mod::lemma_add_mod_noop_right(t, i + s, m);
        vstd::arithmetic::div_mod::lemma_add_mod_noop_right(i, s + t, m);
        assert((j + t) % m == (i + (s + t) % m) % m);
        let (a, b) = (sign(sync[i]), sign(ring[j]));
        let c = sign(other[(j + t) % m]);
        assert(b == if inverted {
            -c
        } else {
            c
        });
        assert(a * (-c) == -(a * c)) by (nonlinear_arith);
    }
}

/// The sync gate of a variant rejects the sync ring of another one on the same
/// grid, whichever way the tag is turned, and in either polarity.
pub proof fn law_sync_gate_rejects_others(
    marker: &MarkerSpec,
    other: Seq<u8>,
    ring: Seq<u8>,
    turned: int,
    inverted: bool,
)
    requires
        marker.wf(),
        marker.has_sync,
        marker.sector_count == 16,
        far_apart(marker.sync@, other),
        0 <= turned < 16,
        forall|j: int|
            0 <= j < 16 ==> (#[trigger] ring[j] > 0) == ((other[(j + turned) % 16] > 0)
                != inverted),
    ensures
        !syncs(marker, ring),
{
    let s = marker.sync_shift(ring);
    let c = correlations(marker.sync@, ring, 16);
    lemma_best_is_largest(c, 16, 0);
    lemma_turned(marker.sync@, ring, other, s, turned, inverted, 16, 16);
    assert(far_apart_at(marker.sync@, other, (s + turned) % 16));
}

/// The sync gate of a variant passes its own sync ring, whichever way the tag
/// is turned.
pub proof fn law_sync_gate_passes_own(marker: &MarkerSpec, ring: Seq<u8>, turned: int)
    requires
        marker.wf(),
        marker.has_sync,
        0 <= turned < marker.sector_count,
        forall|j: int|
            0 <= j < marker.sector_count ==> (#[trigger] ring[j] > 0) == (marker.sync@[(j + turned)
                % (marker.sector_count as int)] > 0),
    ensures
        syncs(marker, ring),
        best_correlation(marker, ring) == marker.sector_count,
{
    let n = marker.sector_count as int;
    let sync = marker.sync@;
    let s = (n - turned) % n;
    let c = correlations(sync, ring, n as nat);
    lemma_turned(sync, ring, sync, s, turned, false, n as nat, n as nat);
    assert((s + turned) % n == 0) by {
        vstd::arithmetic::div_mod::lemma_mod_self_0(n);
        vstd::arithmetic::div_mod::lemma_small_mod(0, n as nat);
        if turned > 0 {
            vstd::arithmetic::div_mod::lemma_small_mod((n - turned) as nat, n as nat);
        }
    }
    lemma_correlation(sync, sync, 0, n as nat, n as nat);
    assert forall|i: int| 0 <= i < n implies (sync[i] > 0) == (#[trigger] sync[(i + 0) % n] > 0) by {
        vstd::arithmetic::div_mod::lemma_small_mod(i as nat, n as nat);
    }
    lemma_best_is_largest(c, n as nat, s);
    lemma_correlation_range(sync, ring, marker.sync_shift(ring), n as nat, n as nat);
}

} // verus!
