//! What the Reed-Solomon codes guarantee: encoding yields codewords, decoding
//! yields only codewords, and as long as the errors and erasures are within
//! the code's budget, decoding yields the codeword that was sent.
use crate::field::{xor_cancel, xor_comm, xor_swap, Gf};
use crate::linear::{
    distinct, dot, entrywise, lemma_dot_comm, lemma_dot_concat, lemma_dot_has,
    lemma_dot_power_sums, lemma_dot_scale, lemma_dot_single, lemma_dot_sum,
    lemma_low_eval_reverse, lemma_power_sum_eliminate, lemma_root_bound, lemma_vandermonde,
    low_eval, power_sum, powers, sum,
};
use crate::poly::{
    added, at, eval, lemma_eval_added, lemma_eval_concat, lemma_eval_constant, lemma_eval_has,
    lemma_eval_times_linear, lemma_eval_zeros, lemma_multiplied_linear, lemma_remainder_at_root,
    lemma_remainder_short, linear, multiplied, partial_product, remainder, scaled, zeros,
};
use crate::rs::{
    all_zero, corrected, decoded, discrepancy, encoded, erased, errata, errata_polynomial,
    error_locator, evaluator, forney, generator, is_codeword, lemma_root_positions_range,
    lemma_stripped, lemma_synthesis_shape, locator, locators, magnitude, other_distances,
    root_positions, syndromes, synthesis, within,
};
use vstd::prelude::*;

verus! {

/// The generator is monic, of degree `nsym`, and vanishes at its roots.
proof fn lemma_generator(f: Gf, nsym: nat)
    ensures
        generator(f, nsym).len() == nsym + 1,
        generator(f, nsym)[0] == 1,
        f.has_all(generator(f, nsym)),
        forall|i: nat| i < nsym ==> eval(f, generator(f, nsym), #[trigger] f.alpha(i)) == 0,
    decreases nsym,
{
    if nsym > 0 {
        let k = (nsym - 1) as nat;
        lemma_generator(f, k);
        let g = generator(f, k);
        let c = f.alpha(k);
        let h = generator(f, nsym);
        lemma_multiplied_linear(f, g, 1, c);
        f.lemma_mul_zero(c);
        f.lemma_mul_one(1);
        xor_cancel(1, 0);
        assert(h[0] == f.mul(at(g, 0), 1) ^ f.mul(at(g, -1), c));
        assert forall|j: int| 0 <= j < h.len() implies f.has(#[trigger] h[j]) by {
            f.lemma_mul_has(at(g, j), 1);
            f.lemma_mul_has(at(g, j - 1), c);
            f.lemma_has_xor(f.mul(at(g, j), 1), f.mul(at(g, j - 1), c));
        }
        assert forall|i: nat| i < nsym implies eval(f, h, #[trigger] f.alpha(i)) == 0 by {
            lemma_eval_times_linear(f, g, 1, c, f.alpha(i));
            f.lemma_pow_has(2, i);
            f.lemma_mul_one(f.alpha(i));
            if i < k {
                f.lemma_mul_zero(f.alpha(i) ^ c);
            } else {
                xor_cancel(c, c);
                f.lemma_mul_zero(eval(f, g, c));
            }
        }
    }
}

/// Encoding is systematic and yields a word of the code.
pub proof fn law_encoded_is_codeword(f: Gf, data: Seq<u8>, nsym: nat)
    requires
        f.has_all(data),
    ensures
        encoded(f, data, nsym).len() == data.len() + nsym,
        encoded(f, data, nsym).take(data.len() as int) == data,
        f.has_all(encoded(f, data, nsym)),
        is_codeword(f, encoded(f, data, nsym), nsym),
{
    let g = generator(f, nsym);
    let z = zeros(nsym);
    let p = data + z;
    let rem = remainder(f, p, g);
    let word = encoded(f, data, nsym);
    lemma_generator(f, nsym);
    lemma_remainder_short(f, p, g);
    assert(word.take(data.len() as int) =~= data);
    assert(f.has_all(p));
    if nsym == 0 {
        assert(rem =~= seq![]);
        assert(word =~= data);
    } else {
        f.lemma_pow_has(2, 0);
        assert(eval(f, g, f.alpha(0)) == 0);
        lemma_remainder_at_root(f, p, g, f.alpha(0));
        assert(f.has_all(rem));
        assert forall|i: int| 0 <= i < word.len() implies f.has(#[trigger] word[i]) by {
            if i >= data.len() {
                assert(f.has(rem[i - data.len()]));
            } else {
                assert(f.has(data[i]));
            }
        }
    }
    let s = syndromes(f, word, nsym);
    assert forall|i: int| 0 <= i < s.len() implies #[trigger] s[i] == 0 by {
        let x = f.alpha(i as nat);
        f.lemma_pow_has(2, i as nat);
        lemma_remainder_at_root(f, p, g, x);
        lemma_eval_concat(f, data, rem, x);
        lemma_eval_concat(f, data, z, x);
        lemma_eval_zeros(f, nsym, x);
        let e = f.mul(eval(f, data, x), f.pow(x, nsym));
        xor_cancel(e, 0);
        xor_cancel(e, e);
    }
}

/// A polynomial value as an inner product with powers.
proof fn lemma_eval_as_dot(f: Gf, p: Seq<u8>, x: u8)
    requires
        f.has_all(p),
    ensures
        eval(f, p, x) == dot(f, p, Seq::new(p.len(), |i: int| f.pow(x, (p.len() - 1 - i) as nat))),
    decreases p.len(),
{
    let w = Seq::new(p.len(), |i: int| f.pow(x, (p.len() - 1 - i) as nat));
    if p.len() > 0 {
        let q = p.drop_last();
        assert(f.has_all(q));
        lemma_eval_as_dot(f, q, x);
        let v = Seq::new(q.len(), |i: int| f.pow(x, (q.len() - 1 - i) as nat));
        lemma_dot_scale(f, q, v, x);
        assert(w.drop_last() =~= Seq::new(v.len(), |i: int| f.mul(x, v[i])));
        f.lemma_mul_comm(x, eval(f, q, x));
        assert(f.has(p[p.len() - 1]));
        f.lemma_mul_one(p.last());
    }
}

/// The locators of all the positions of a word of length `n`.
pub open spec fn all_locators(f: Gf, n: nat) -> Seq<u8> {
    Seq::new(n, |p: int| locator(f, n, p))
}

/// Syndromes are power sums over the positions.
proof fn lemma_syndrome_power_sum(f: Gf, msg: Seq<u8>, j: nat)
    requires
        f.has_all(msg),
    ensures
        eval(f, msg, f.alpha(j)) == power_sum(f, msg, all_locators(f, msg.len()), j),
{
    let n = msg.len();
    lemma_eval_as_dot(f, msg, f.alpha(j));
    assert(Seq::new(n, |i: int| f.pow(f.alpha(j), (n - 1 - i) as nat)) =~= powers(
        f,
        all_locators(f, n),
        j,
    )) by {
        assert forall|i: int| 0 <= i < n implies f.pow(f.alpha(j), (n - 1 - i) as nat) == f.pow(
            locator(f, n, i),
            j,
        ) by {
            let k = (n - 1 - i) as nat;
            f.lemma_pow_mul(2, j, k);
            f.lemma_pow_mul(2, k, j);
            assert(j * k == k * j) by (nonlinear_arith);
        }
    }
}

/// The entries of `s` at the positions `pos`.
pub open spec fn gathered(s: Seq<u8>, pos: Seq<usize>) -> Seq<u8> {
    Seq::new(pos.len(), |t: int| s[pos[t] as int])
}

/// Whether `pos` lists positions below `n`, none of them twice.
pub open spec fn distinct_positions(pos: Seq<usize>, n: nat) -> bool {
    &&& forall|t: int| 0 <= t < pos.len() ==> #[trigger] pos[t] < n
    &&& forall|t: int, u: int| 0 <= t < u < pos.len() ==> #[trigger] pos[t] != #[trigger] pos[u]
}

/// Replacing one entry of an inner product by zero.
proof fn lemma_dot_update(f: Gf, a: Seq<u8>, b: Seq<u8>, q: int)
    requires
        a.len() == b.len(),
        0 <= q < a.len(),
    ensures
        dot(f, a, b) == dot(f, a.update(q, 0), b) ^ f.mul(a[q], b[q]),
{
    let r = a.update(q, 0);
    let d = zeros(a.len()).update(q, a[q]);
    assert(a =~= sum(r, d)) by {
        assert forall|i: int| 0 <= i < a.len() implies a[i] == sum(r, d)[i] by {
            xor_cancel(a[i], 0);
        }
    }
    lemma_dot_comm(f, a, b);
    lemma_dot_sum(f, b, r, d);
    lemma_dot_comm(f, r, b);
    assert forall|i: int| 0 <= i < b.len() && i != q implies #[trigger] d[i] == 0 by {}
    lemma_dot_single(f, b, d, q);
    f.lemma_mul_comm(a[q], b[q]);
}

/// An inner product only needs the positions that carry its support.
proof fn lemma_dot_gather(f: Gf, a: Seq<u8>, b: Seq<u8>, pos: Seq<usize>)
    requires
        a.len() == b.len() <= usize::MAX,
        distinct_positions(pos, a.len()),
        forall|i: int| 0 <= i < a.len() && !pos.contains(i as usize) ==> #[trigger] a[i] == 0,
    ensures
        dot(f, a, b) == dot(f, gathered(a, pos), gathered(b, pos)),
    decreases pos.len(),
{
    let (ga, gb) = (gathered(a, pos), gathered(b, pos));
    if pos.len() == 0 {
        lemma_dot_comm(f, a, b);
        assert forall|i: int| 0 <= i < b.len() && i != -1 implies #[trigger] a[i] == 0 by {
            assert(!pos.contains(i as usize));
        }
        lemma_dot_single(f, b, a, -1);
    } else {
        let n = pos.len() - 1;
        let q = pos[n] as int;
        let rest = pos.drop_last();
        let c = a.update(q, 0);
        assert forall|i: int| 0 <= i < c.len() && !rest.contains(i as usize) implies #[trigger] c[i]
            == 0 by {
            if i != q {
                if pos.contains(i as usize) {
                    let w = choose|w: int| 0 <= w < pos.len() && pos[w] == i as usize;
                    assert(w != n);
                    assert(rest[w] == i as usize);
                }
            }
        }
        lemma_dot_gather(f, c, b, rest);
        lemma_dot_update(f, a, b, q);
        assert(gathered(c, rest) =~= ga.drop_last()) by {
            assert forall|t: int| 0 <= t < rest.len() implies gathered(c, rest)[t] == ga[t] by {
                assert(pos[t] != pos[n]);
            }
        }
        assert(gathered(b, rest) =~= gb.drop_last());
    }
}

/// The locators of distinct positions of a word no longer than the group
/// order are distinct and nonzero.
proof fn lemma_locators_distinct(f: Gf, n: nat, pos: Seq<usize>)
    requires
        n <= f.order(),
        distinct_positions(pos, n),
    ensures
        distinct(locators(f, n, pos)),
        f.has_all(locators(f, n, pos)),
        forall|t: int| 0 <= t < pos.len() ==> #[trigger] locators(f, n, pos)[t] != 0,
{
    let x = locators(f, n, pos);
    assert forall|t: int| 0 <= t < x.len() implies f.has(#[trigger] x[t]) && x[t] != 0 by {
        f.lemma_pow_has(2, (n - 1 - pos[t]) as nat);
        f.lemma_pow_nonzero(2, (n - 1 - pos[t]) as nat);
    }
    assert forall|t: int, u: int| 0 <= t < u < x.len() implies #[trigger] x[t] != #[trigger] x[u] by {
        assert(pos[t] != pos[u]);
        assert(pos[t] < n && pos[u] < n);
        let (i, j) = ((n - 1 - pos[t]) as nat, (n - 1 - pos[u]) as nat);
        if i < j {
            f.lemma_alpha_distinct(i, j);
        } else {
            f.lemma_alpha_distinct(j, i);
        }
    }
}

/// The syndromes of a word that differs from a codeword at the positions
/// `pos` only are the power sums of the differences there.
proof fn lemma_syndromes_of_errors(
    f: Gf,
    msg: Seq<u8>,
    word: Seq<u8>,
    nsym: nat,
    pos: Seq<usize>,
    j: nat,
)
    requires
        msg.len() == word.len() <= usize::MAX,
        f.has_all(msg),
        f.has_all(word),
        is_codeword(f, word, nsym),
        distinct_positions(pos, msg.len()),
        forall|i: int|
            0 <= i < msg.len() && !pos.contains(i as usize) ==> #[trigger] msg[i] == word[i],
        j < nsym,
    ensures
        eval(f, msg, f.alpha(j)) == power_sum(
            f,
            gathered(sum(msg, word), pos),
            locators(f, msg.len(), pos),
            j,
        ),
{
    let n = msg.len();
    let e = sum(msg, word);
    let x = f.alpha(j);
    assert(added(msg, word) =~= e);
    lemma_eval_added(f, msg, word, x);
    assert(syndromes(f, word, nsym)[j as int] == 0);
    assert(eval(f, word, x) == 0);
    xor_cancel(eval(f, msg, x), 0);
    assert forall|i: int| 0 <= i < n implies f.has(#[trigger] e[i]) by {
        assert(f.has(msg[i]) && f.has(word[i]));
        f.lemma_has_xor(msg[i], word[i]);
    }
    lemma_syndrome_power_sum(f, e, j);
    let p = powers(f, all_locators(f, n), j);
    assert forall|i: int| 0 <= i < n && !pos.contains(i as usize) implies #[trigger] e[i] == 0 by {
        assert(msg[i] == word[i]);
        xor_cancel(msg[i], word[i]);
    }
    lemma_dot_gather(f, e, p, pos);
    assert(gathered(p, pos) =~= powers(f, locators(f, n, pos), j));
}

/// Two codewords that differ in at most as many positions as the code has
/// parity symbols are the same.
pub proof fn law_codewords_apart(f: Gf, a: Seq<u8>, b: Seq<u8>, nsym: nat, pos: Seq<usize>)
    requires
        a.len() == b.len() <= f.order(),
        f.has_all(a),
        f.has_all(b),
        is_codeword(f, a, nsym),
        is_codeword(f, b, nsym),
        distinct_positions(pos, a.len()),
        pos.len() <= nsym,
        forall|i: int| 0 <= i < a.len() && !pos.contains(i as usize) ==> #[trigger] a[i] == b[i],
    ensures
        a == b,
{
    let y = gathered(sum(a, b), pos);
    let x = locators(f, a.len(), pos);
    lemma_locators_distinct(f, a.len(), pos);
    assert forall|t: int| 0 <= t < y.len() implies f.has(#[trigger] y[t]) by {
        let i = pos[t] as int;
        assert(pos[t] < a.len());
        assert(f.has(a[i]) && f.has(b[i]));
        f.lemma_has_xor(a[i], b[i]);
    }
    assert forall|j: nat| j < y.len() implies #[trigger] power_sum(f, y, x, j) == 0 by {
        lemma_syndromes_of_errors(f, a, b, nsym, pos, j);
        assert(syndromes(f, a, nsym)[j as int] == 0);
    }
    lemma_vandermonde(f, y, x);
    assert forall|i: int| 0 <= i < a.len() implies #[trigger] a[i] == b[i] by {
        if pos.contains(i as usize) {
            let t = choose|t: int| 0 <= t < pos.len() && pos[t] == i as usize;
            assert(y[t] == 0);
            xor_cancel(a[i], b[i]);
        }
    }
    assert(a =~= b);
}

/// The weights left after the first `k` bases were eliminated.
spec fn weights(f: Gf, y: Seq<u8>, x: Seq<u8>, k: nat) -> Seq<u8>
    decreases k,
{
    if k == 0 {
        y
    } else {
        let w = weights(f, y, x, (k - 1) as nat);
        Seq::new(y.len(), |t: int| f.mul(w[t], x[t] ^ x[k - 1]))
    }
}

/// Eliminated bases lose their weight, the others keep theirs nonzero.
proof fn lemma_weights(f: Gf, y: Seq<u8>, x: Seq<u8>, k: nat)
    requires
        y.len() == x.len(),
        k <= x.len(),
        f.has_all(y),
        f.has_all(x),
        distinct(x),
    ensures
        weights(f, y, x, k).len() == y.len(),
        f.has_all(weights(f, y, x, k)),
        forall|t: int| 0 <= t < k ==> #[trigger] weights(f, y, x, k)[t] == 0,
        forall|t: int|
            k <= t < y.len() && y[t] != 0 ==> #[trigger] weights(f, y, x, k)[t] != 0,
    decreases k,
{
    if k > 0 {
        let j = (k - 1) as nat;
        lemma_weights(f, y, x, j);
        let v = weights(f, y, x, j);
        let w = weights(f, y, x, k);
        let c = x[j as int];
        assert forall|t: int| 0 <= t < w.len() implies f.has(#[trigger] w[t]) by {
            f.lemma_mul_has(v[t], x[t] ^ c);
        }
        assert forall|t: int| 0 <= t < k implies #[trigger] w[t] == 0 by {
            f.lemma_mul_zero(v[t]);
            f.lemma_mul_zero(x[t] ^ c);
            xor_cancel(c, c);
            if t < j {
                assert(v[t] == 0);
            }
        }
        assert forall|t: int| k <= t < y.len() && y[t] != 0 implies #[trigger] w[t] != 0 by {
            assert(v[t] != 0);
            assert(x[j as int] != x[t]);
            assert(f.has(x[t]) && f.has(c) && f.has(v[t]));
            f.lemma_has_xor(x[t], c);
            xor_cancel(x[t], c);
            if w[t] == 0 {
                f.lemma_no_zero_divisors(v[t], x[t] ^ c);
            }
        }
    }
}

/// Forney syndromes are the power sums with the eliminated weights, as far as
/// syndromes are left.
proof fn lemma_forney(f: Gf, synd: Seq<u8>, y: Seq<u8>, x: Seq<u8>, k: nat)
    requires
        y.len() == x.len(),
        k <= x.len(),
        k <= synd.len(),
        forall|j: int| 0 <= j < synd.len() ==> #[trigger] synd[j] == power_sum(f, y, x, j as nat),
    ensures
        forney(f, synd, x.take(k as int)).len() == synd.len(),
        weights(f, y, x, k).len() == y.len(),
        forall|j: int|
            0 <= j < synd.len() - k ==> #[trigger] forney(f, synd, x.take(k as int))[j]
                == power_sum(f, weights(f, y, x, k), x, j as nat),
    decreases k,
{
    if k > 0 {
        let i = (k - 1) as nat;
        lemma_forney(f, synd, y, x, i);
        assert(x.take(k as int).drop_last() =~= x.take(i as int));
        let u = forney(f, synd, x.take(i as int));
        let t = forney(f, synd, x.take(k as int));
        let w = weights(f, y, x, i);
        assert forall|j: int| 0 <= j < synd.len() - k implies #[trigger] t[j] == power_sum(
            f,
            weights(f, y, x, k),
            x,
            j as nat,
        ) by {
            assert(u[j] == power_sum(f, w, x, j as nat));
            assert(u[j + 1] == power_sum(f, w, x, (j + 1) as nat));
            lemma_power_sum_eliminate(f, w, x, x[i as int], j as nat);
        }
    }
}

/// A power sum whose first weights are zero is one over the rest.
proof fn lemma_power_sum_skip(f: Gf, y: Seq<u8>, x: Seq<u8>, k: nat, j: nat)
    requires
        y.len() == x.len(),
        k <= x.len(),
        forall|t: int| 0 <= t < k ==> #[trigger] y[t] == 0,
    ensures
        power_sum(f, y, x, j) == power_sum(f, y.skip(k as int), x.skip(k as int), j),
{
    let p = powers(f, x, j);
    let (ya, yb) = (y.take(k as int), y.skip(k as int));
    let (pa, pb) = (p.take(k as int), p.skip(k as int));
    assert(y =~= ya + yb);
    assert(p =~= pa + pb);
    lemma_dot_concat(f, ya, pa, yb, pb);
    lemma_dot_comm(f, ya, pa);
    assert forall|t: int| 0 <= t < pa.len() && t != -1 implies #[trigger] ya[t] == 0 by {
        assert(y[t] == 0);
    }
    lemma_dot_single(f, pa, ya, -1);
    xor_cancel(dot(f, yb, pb), 0);
    assert(pb =~= powers(f, x.skip(k as int), j));
}

/// The discrepancy of a sum is the sum of the discrepancies.
proof fn lemma_discrepancy_added(f: Gf, p: Seq<u8>, q: Seq<u8>, t: Seq<u8>, k: int)
    requires
        p.len() <= k + 1,
        q.len() <= k + 1,
        k < t.len(),
    ensures
        discrepancy(f, added(p, q), t, k) == discrepancy(f, p, t, k) ^ discrepancy(f, q, t, k),
{
    let n = added(p, q).len();
    let w = t.subrange(k + 1 - n, k + 1);
    let pp = zeros((n - p.len()) as nat) + p;
    let qq = zeros((n - q.len()) as nat) + q;
    assert(added(p, q) =~= sum(pp, qq));
    lemma_dot_comm(f, added(p, q), w);
    lemma_dot_sum(f, w, pp, qq);
    lemma_dot_comm(f, pp, w);
    lemma_dot_comm(f, qq, w);
    lemma_discrepancy_padded(f, p, t, k, n);
    lemma_discrepancy_padded(f, q, t, k, n);
}

/// Leading zeros do not change the discrepancy.
proof fn lemma_discrepancy_padded(f: Gf, p: Seq<u8>, t: Seq<u8>, k: int, n: nat)
    requires
        p.len() <= n <= k + 1,
        k < t.len(),
    ensures
        dot(f, zeros((n - p.len()) as nat) + p, t.subrange(k + 1 - n, k + 1)) == discrepancy(
            f,
            p,
            t,
            k,
        ),
{
    let m = (n - p.len()) as nat;
    let w = t.subrange(k + 1 - n, k + 1);
    let (wa, wb) = (w.take(m as int), w.skip(m as int));
    assert(w =~= wa + wb);
    assert(wb =~= t.subrange(k + 1 - p.len(), k + 1));
    lemma_dot_concat(f, zeros(m), wa, p, wb);
    lemma_dot_comm(f, zeros(m), wa);
    assert forall|i: int| 0 <= i < wa.len() && i != -1 implies #[trigger] zeros(m)[i] == 0 by {}
    lemma_dot_single(f, wa, zeros(m), -1);
    xor_cancel(dot(f, p, wb), 0);
}

/// The discrepancy of a scaled recurrence.
proof fn lemma_discrepancy_scaled(f: Gf, p: Seq<u8>, c: u8, t: Seq<u8>, k: int)
    requires
        p.len() <= k + 1,
        k < t.len(),
    ensures
        discrepancy(f, scaled(f, p, c), t, k) == f.mul(c, discrepancy(f, p, t, k)),
{
    let w = t.subrange(k + 1 - p.len(), k + 1);
    let s = Seq::new(p.len(), |i: int| f.mul(c, p[i]));
    assert(scaled(f, p, c) =~= s) by {
        assert forall|i: int| 0 <= i < p.len() implies scaled(f, p, c)[i] == s[i] by {
            f.lemma_mul_comm(p[i], c);
        }
    }
    lemma_dot_comm(f, s, w);
    lemma_dot_scale(f, w, p, c);
    lemma_dot_comm(f, w, p);
}

/// Shifting a recurrence shifts its discrepancies.
proof fn lemma_discrepancy_shifted(f: Gf, p: Seq<u8>, t: Seq<u8>, k: int)
    requires
        p.len() <= k,
        k < t.len(),
    ensures
        discrepancy(f, p.push(0), t, k) == discrepancy(f, p, t, k - 1),
{
    let w = t.subrange(k - p.len(), k + 1);
    assert(p.push(0).drop_last() =~= p);
    assert(w.drop_last() =~= t.subrange(k - p.len(), k));
    f.lemma_mul_zero(w.last());
    xor_cancel(dot(f, p, w.drop_last()), 0);
}

/// What the synthesis maintains: the current recurrence predicts every entry
/// seen so far, and the old one, once there was one, missed the last entry
/// alone, by one.
proof fn lemma_synthesis_predicts(f: Gf, t: Seq<u8>, i: nat)
    requires
        i <= t.len(),
    ensures
        forall|k: int|
            synthesis(f, t, i).cur.len() - 1 <= k < i ==> #[trigger] discrepancy(
                f,
                synthesis(f, t, i).cur,
                t,
                k,
            ) == 0,
        synthesis(f, t, i).cur.len() > 1 ==> {
            &&& synthesis(f, t, i).old.len() <= i
            &&& forall|k: int|
                synthesis(f, t, i).old.len() - 1 <= k < i - 1 ==> #[trigger] discrepancy(
                    f,
                    synthesis(f, t, i).old,
                    t,
                    k,
                ) == 0
            &&& discrepancy(f, synthesis(f, t, i).old, t, i - 1) == 1
        },
    decreases i,
{
    if i > 0 {
        let j = (i - 1) as nat;
        lemma_synthesis_predicts(f, t, j);
        lemma_synthesis_shape(f, t, j);
        lemma_synthesis_shape(f, t, i);
        let s = synthesis(f, t, j);
        let r = synthesis(f, t, i);
        let d = discrepancy(f, s.cur, t, j as int);
        let old = s.old.push(0);
        lemma_dot_has(f, s.cur, t.subrange(j + 1 - s.cur.len(), (j + 1) as int));
        if d == 0 {
            if s.cur.len() > 1 {
                assert forall|k: int| old.len() - 1 <= k < i - 1 implies #[trigger] discrepancy(
                    f,
                    old,
                    t,
                    k,
                ) == 0 by {
                    lemma_discrepancy_shifted(f, s.old, t, k);
                }
                lemma_discrepancy_shifted(f, s.old, t, i - 1);
            }
        } else {
            let sc = scaled(f, old, d);
            assert forall|k: int| r.cur.len() - 1 <= k < i implies #[trigger] discrepancy(
                f,
                r.cur,
                t,
                k,
            ) == 0 by {
                // With a fresh old recurrence there is no such entry.
                assert(s.cur.len() > 1);
                lemma_discrepancy_added(f, s.cur, sc, t, k);
                lemma_discrepancy_scaled(f, old, d, t, k);
                lemma_discrepancy_shifted(f, s.old, t, k);
                if k < j {
                    assert(discrepancy(f, s.cur, t, k) == 0);
                    assert(discrepancy(f, s.old, t, k - 1) == 0);
                    f.lemma_mul_zero(d);
                    xor_cancel(0, 0);
                } else {
                    f.lemma_mul_one(d);
                    xor_cancel(d, d);
                }
            }
            if old.len() > s.cur.len() {
                let c = f.inv(d);
                assert forall|k: int| r.old.len() - 1 <= k < i - 1 implies #[trigger] discrepancy(
                    f,
                    r.old,
                    t,
                    k,
                ) == 0 by {
                    lemma_discrepancy_scaled(f, s.cur, c, t, k);
                    assert(discrepancy(f, s.cur, t, k) == 0);
                    f.lemma_mul_zero(c);
                }
                lemma_discrepancy_scaled(f, s.cur, c, t, i - 1);
                f.lemma_inv(d);
            } else {
                assert forall|k: int| r.old.len() - 1 <= k < i - 1 implies #[trigger] discrepancy(
                    f,
                    r.old,
                    t,
                    k,
                ) == 0 by {
                    lemma_discrepancy_shifted(f, s.old, t, k);
                }
                lemma_discrepancy_shifted(f, s.old, t, i - 1);
            }
        }
    }
}

/// The discrepancy on a sequence of power sums is a power sum, whose weights
/// carry the values of the recurrence at the bases.
proof fn lemma_discrepancy_power_sum(
    f: Gf,
    loc: Seq<u8>,
    t: Seq<u8>,
    y: Seq<u8>,
    x: Seq<u8>,
    k: int,
    limit: int,
)
    requires
        y.len() == x.len(),
        f.has_all(loc),
        f.has_all(x),
        limit <= t.len(),
        forall|j: int| 0 <= j < limit ==> #[trigger] t[j] == power_sum(f, y, x, j as nat),
        1 <= loc.len() <= k + 1,
        k < limit,
    ensures
        discrepancy(f, loc, t, k) == power_sum(
            f,
            Seq::new(y.len(), |i: int| f.mul(y[i], low_eval(f, loc, x[i]))),
            x,
            (k + 1 - loc.len()) as nat,
        ),
{
    let m = (k + 1 - loc.len()) as nat;
    lemma_dot_power_sums(f, loc, y, x, m);
    assert(t.subrange(k + 1 - loc.len(), k + 1) =~= Seq::new(
        loc.len(),
        |i: int| power_sum(f, y, x, (m + i) as nat),
    ));
}

/// If a recurrence predicts as many entries as there are bases, it vanishes
/// at every base.
proof fn lemma_prediction_vanishes(
    f: Gf,
    loc: Seq<u8>,
    t: Seq<u8>,
    y: Seq<u8>,
    x: Seq<u8>,
    limit: int,
)
    requires
        y.len() == x.len(),
        f.has_all(loc),
        f.has_all(x),
        distinct(x),
        1 <= loc.len(),
        limit <= t.len(),
        forall|j: int| 0 <= j < limit ==> #[trigger] t[j] == power_sum(f, y, x, j as nat),
        loc.len() - 1 + x.len() <= limit,
        forall|k: int|
            loc.len() - 1 <= k < loc.len() - 1 + x.len() ==> #[trigger] discrepancy(f, loc, t, k)
                == 0,
    ensures
        forall|i: int|
            0 <= i < x.len() ==> f.mul(y[i], low_eval(f, loc, #[trigger] x[i])) == 0,
{
    let z = Seq::new(y.len(), |i: int| f.mul(y[i], low_eval(f, loc, x[i])));
    assert forall|i: int| 0 <= i < z.len() implies f.has(#[trigger] z[i]) by {
        f.lemma_mul_has(y[i], low_eval(f, loc, x[i]));
    }
    assert forall|m: nat| m < z.len() implies #[trigger] power_sum(f, z, x, m) == 0 by {
        let k = m + loc.len() - 1;
        assert(discrepancy(f, loc, t, k) == 0);
        lemma_discrepancy_power_sum(f, loc, t, y, x, k, limit);
    }
    lemma_vandermonde(f, z, x);
    assert forall|i: int| 0 <= i < x.len() implies f.mul(y[i], low_eval(f, loc, #[trigger] x[i]))
        == 0 by {
        assert(z[i] == 0);
    }
}

/// The recurrence found for power sums over `v` bases is never longer than
/// `v`.
proof fn lemma_synthesis_short(f: Gf, t: Seq<u8>, y: Seq<u8>, x: Seq<u8>, i: nat, limit: int)
    requires
        y.len() == x.len(),
        f.has_all(x),
        distinct(x),
        i <= limit <= t.len(),
        forall|j: int| 0 <= j < limit ==> #[trigger] t[j] == power_sum(f, y, x, j as nat),
    ensures
        synthesis(f, t, i).cur.len() <= x.len() + 1,
    decreases i,
{
    if i > 0 {
        let j = (i - 1) as nat;
        lemma_synthesis_short(f, t, y, x, j, limit);
        lemma_synthesis_shape(f, t, j);
        lemma_synthesis_shape(f, t, i);
        lemma_synthesis_predicts(f, t, j);
        let s = synthesis(f, t, j);
        let d = discrepancy(f, s.cur, t, j as int);
        let len = s.cur.len();
        if d != 0 && j >= len - 1 + x.len() {
            // Enough correct predictions would force this one too.
            lemma_prediction_vanishes(f, s.cur, t, y, x, limit);
            lemma_discrepancy_power_sum(f, s.cur, t, y, x, j as int, limit);
            let z = Seq::new(y.len(), |i: int| f.mul(y[i], low_eval(f, s.cur, x[i])));
            let p = powers(f, x, (j + 1 - len) as nat);
            assert forall|q: int| 0 <= q < p.len() && q != -1 implies #[trigger] z[q] == 0 by {
                let b = x[q];
            }
            lemma_dot_comm(f, z, p);
            lemma_dot_single(f, p, z, -1);
            assert(false);
        }
    }
}

/// With at least twice as many entries as bases, the recurrence found is the
/// locator polynomial: its length is the number of bases, and they are its
/// roots.
proof fn lemma_synthesis_locates(f: Gf, t: Seq<u8>, y: Seq<u8>, x: Seq<u8>, limit: nat)
    requires
        y.len() == x.len(),
        f.has_all(y),
        f.has_all(x),
        distinct(x),
        forall|i: int| 0 <= i < x.len() ==> #[trigger] x[i] != 0,
        forall|i: int| 0 <= i < y.len() ==> #[trigger] y[i] != 0,
        limit <= t.len(),
        2 * x.len() <= limit,
        forall|j: int| 0 <= j < limit ==> #[trigger] t[j] == power_sum(f, y, x, j as nat),
    ensures
        synthesis(f, t, limit).cur.len() == x.len() + 1,
        synthesis(f, t, limit).cur[0] != 0,
        forall|i: int|
            0 <= i < x.len() ==> eval(f, synthesis(f, t, limit).cur.reverse(), #[trigger] x[i])
                == 0,
{
    let loc = synthesis(f, t, limit).cur;
    let p = loc.reverse();
    lemma_synthesis_short(f, t, y, x, limit, limit as int);
    lemma_synthesis_shape(f, t, limit);
    lemma_synthesis_predicts(f, t, limit);
    lemma_prediction_vanishes(f, loc, t, y, x, limit as int);
    assert forall|i: int| 0 <= i < x.len() implies eval(f, p, #[trigger] x[i]) == 0 by {
        lemma_low_eval_reverse(f, loc, x[i]);
        assert forall|k: int| 0 <= k < p.len() implies f.has(#[trigger] p[k]) by {
            assert(p[k] == loc[loc.len() - 1 - k]);
        }
        lemma_eval_has(f, p, x[i]);
        assert(f.has(y[i]) && y[i] != 0);
        f.lemma_no_zero_divisors(y[i], eval(f, p, x[i]));
    }
    assert forall|k: int| 0 <= k < p.len() implies f.has(#[trigger] p[k]) by {
        assert(p[k] == loc[loc.len() - 1 - k]);
    }
    lemma_root_bound(f, p, x);
    if loc[0] == 0 {
        // Zero would be one root too many.
        let z = x.push(0);
        assert forall|i: int| 0 <= i < z.len() implies eval(f, p, #[trigger] z[i]) == 0 by {
            if i == x.len() {
                lemma_low_eval_reverse(f, loc, 0);
                f.lemma_mul_zero(low_eval(f, loc.skip(1), 0));
                xor_cancel(0, 0);
            } else {
                assert(eval(f, p, x[i]) == 0);
            }
        }
        assert(distinct(z)) by {
            assert forall|i: int, k: int| 0 <= i < k < z.len() implies #[trigger] z[i]
                != #[trigger] z[k] by {
                if k == x.len() {
                    assert(x[i] != 0);
                } else {
                    assert(x[i] != x[k]);
                }
            }
        }
        assert forall|i: int| 0 <= i < z.len() implies f.has(#[trigger] z[i]) by {
            if i < x.len() {
                assert(f.has(x[i]));
            }
        }
        lemma_root_bound(f, p, z);
    }
}

/// The `m`-th elementary symmetric polynomial of `x`.
spec fn elementary(f: Gf, x: Seq<u8>, m: int) -> u8
    decreases x.len(),
{
    if x.len() == 0 {
        if m == 0 {
            1
        } else {
            0
        }
    } else {
        elementary(f, x.drop_last(), m) ^ f.mul(x.last(), elementary(f, x.drop_last(), m - 1))
    }
}

proof fn lemma_elementary_has(f: Gf, x: Seq<u8>, m: int)
    ensures
        f.has(elementary(f, x, m)),
        m < 0 || m > x.len() ==> elementary(f, x, m) == 0,
    decreases x.len(),
{
    if x.len() > 0 {
        let d = x.drop_last();
        lemma_elementary_has(f, d, m);
        lemma_elementary_has(f, d, m - 1);
        f.lemma_mul_has(x.last(), elementary(f, d, m - 1));
        f.lemma_has_xor(elementary(f, d, m), f.mul(x.last(), elementary(f, d, m - 1)));
        f.lemma_mul_zero(x.last());
        xor_cancel(0, 0);
    }
}

/// Any factor can be split off first.
proof fn lemma_elementary_remove(f: Gf, x: Seq<u8>, i: int, m: int)
    requires
        0 <= i < x.len(),
    ensures
        elementary(f, x, m) == elementary(f, x.remove(i), m) ^ f.mul(
            x[i],
            elementary(f, x.remove(i), m - 1),
        ),
    decreases x.len(),
{
    let r = x.remove(i);
    let d = x.drop_last();
    if i == x.len() - 1 {
        assert(r =~= d);
    } else {
        let l = x.last();
        let c = x[i];
        let q = d.remove(i);
        assert(r.drop_last() =~= q);
        assert(r.last() == l);
        lemma_elementary_remove(f, d, i, m);
        lemma_elementary_remove(f, d, i, m - 1);
        let (e0, e1, e2) = (
            elementary(f, q, m),
            elementary(f, q, m - 1),
            elementary(f, q, m - 2),
        );
        f.lemma_mul_add(l, e1, f.mul(c, e2));
        f.lemma_mul_add(c, e1, f.mul(l, e2));
        f.lemma_mul_assoc(l, c, e2);
        f.lemma_mul_assoc(c, l, e2);
        f.lemma_mul_comm(l, c);
        let (u, v, w) = (f.mul(c, e1), f.mul(l, e1), f.mul(l, f.mul(c, e2)));
        xor_swap(e0, u, v, w);
    }
}

/// The coefficients of the errata polynomial are the elementary symmetric
/// polynomials of the locators.
proof fn lemma_errata_coefficients(f: Gf, x: Seq<u8>)
    ensures
        errata_polynomial(f, x).len() == x.len() + 1,
        f.has_all(errata_polynomial(f, x)),
        forall|k: int|
            0 <= k <= x.len() ==> #[trigger] errata_polynomial(f, x)[k] == elementary(
                f,
                x,
                x.len() - k,
            ),
    decreases x.len(),
{
    let loc = errata_polynomial(f, x);
    if x.len() > 0 {
        let d = x.drop_last();
        lemma_errata_coefficients(f, d);
        let p = errata_polynomial(f, d);
        let c = x.last();
        lemma_multiplied_linear(f, p, c, 1);
        assert forall|k: int| 0 <= k <= x.len() implies #[trigger] loc[k] == elementary(
            f,
            x,
            x.len() - k,
        ) by {
            let m = x.len() - k;
            assert(loc[k] == f.mul(at(p, k), c) ^ f.mul(at(p, k - 1), 1));
            lemma_elementary_has(f, d, m);
            lemma_elementary_has(f, d, m - 1);
            assert(at(p, k) == elementary(f, d, m - 1));
            assert(at(p, k - 1) == elementary(f, d, m));
            f.lemma_mul_one(elementary(f, d, m));
            f.lemma_mul_comm(c, elementary(f, d, m - 1));
            xor_comm(f.mul(at(p, k), c), elementary(f, d, m));
        }
    }
    assert forall|k: int| 0 <= k < loc.len() implies f.has(#[trigger] loc[k]) by {
        lemma_elementary_has(f, x, x.len() - k);
    }
}

/// The low part of the errata polynomial, read at one of its locators, is a
/// coefficient of the polynomial without that locator.
proof fn lemma_low_part(f: Gf, x: Seq<u8>, t: int, k: nat)
    requires
        0 <= t < x.len(),
        k <= x.len(),
    ensures
        low_eval(f, errata_polynomial(f, x).skip(x.len() + 1 - k), x[t]) == elementary(
            f,
            x.remove(t),
            k - 1,
        ),
    decreases k,
{
    let loc = errata_polynomial(f, x);
    let r = x.remove(t);
    lemma_errata_coefficients(f, x);
    let a = loc.skip(x.len() + 1 - k);
    lemma_elementary_has(f, r, k - 1);
    if k > 0 {
        let j = (k - 1) as nat;
        lemma_low_part(f, x, t, j);
        assert(a.skip(1) =~= loc.skip(x.len() + 1 - j));
        assert(a[0] == elementary(f, x, k - 1));
        lemma_elementary_remove(f, x, t, k - 1);
        xor_cancel(elementary(f, r, k - 1), f.mul(x[t], elementary(f, r, k - 2)));
    }
}

/// Reversing both arguments does not change the inner product.
proof fn lemma_dot_reverse(f: Gf, a: Seq<u8>, b: Seq<u8>)
    requires
        a.len() == b.len(),
    ensures
        dot(f, a.reverse(), b.reverse()) == dot(f, a, b),
    decreases a.len(),
{
    if a.len() > 0 {
        let (c, d) = (a.drop_last(), b.drop_last());
        lemma_dot_reverse(f, c, d);
        let (u, v) = (seq![a.last()], seq![b.last()]);
        assert(a.reverse() =~= u + c.reverse());
        assert(b.reverse() =~= v + d.reverse());
        lemma_dot_concat(f, u, v, c.reverse(), d.reverse());
        lemma_dot_single(f, u, v, 0);
        xor_comm(dot(f, c, d), f.mul(a.last(), b.last()));
    }
}

/// A coefficient of a product as an inner product.
proof fn lemma_partial_product_dot(f: Gf, p: Seq<u8>, q: Seq<u8>, i: nat, k: int)
    requires
        i <= p.len(),
    ensures
        partial_product(f, p, q, i, k) == dot(
            f,
            p.take(i as int),
            Seq::new(i, |t: int| at(q, k - t)),
        ),
    decreases i,
{
    if i > 0 {
        let j = (i - 1) as nat;
        lemma_partial_product_dot(f, p, q, j, k);
        assert(p.take(i as int).drop_last() =~= p.take(j as int));
        assert(Seq::new(i, |t: int| at(q, k - t)).drop_last() =~= Seq::new(
            j,
            |t: int| at(q, k - t),
        ));
    }
}

/// The coefficients of the evaluator polynomial.
proof fn lemma_evaluator(f: Gf, synd: Seq<u8>, loc: Seq<u8>, j: int)
    requires
        1 <= loc.len() <= synd.len() + 1,
        0 <= j < loc.len(),
    ensures
        evaluator(f, synd, loc).len() == loc.len(),
        evaluator(f, synd, loc)[j] == dot(f, loc.skip(j + 1), synd.take(loc.len() - 1 - j)),
{
    let shifted = seq![0u8] + synd;
    let rev = shifted.reverse();
    let n = rev.len();
    let product = multiplied(f, rev, loc);
    let nsym = synd.len() as int;
    assert(evaluator(f, synd, loc)[j] == product[nsym + j]);
    lemma_partial_product_dot(f, rev, loc, n, nsym + j);
    assert(rev.take(n as int) =~= rev);
    let b = Seq::new(n, |t: int| at(loc, j + t));
    assert(Seq::new(n, |t: int| at(loc, nsym + j - t)) =~= b.reverse());
    lemma_dot_reverse(f, shifted, b);
    // The shift contributes nothing.
    let c = Seq::new(synd.len(), |t: int| at(loc, j + 1 + t));
    assert(b =~= seq![b[0]] + c);
    lemma_dot_concat(f, seq![0u8], seq![b[0]], synd, c);
    lemma_dot_single(f, seq![0u8], seq![b[0]], 0);
    f.lemma_mul_zero(b[0]);
    xor_cancel(dot(f, synd, c), 0);
    // Neither do the terms beyond the end of the polynomial.
    let k = loc.len() - 1 - j;
    let (sa, sb) = (synd.take(k), synd.skip(k));
    let (ca, cb) = (c.take(k), c.skip(k));
    assert(synd =~= sa + sb);
    assert(c =~= ca + cb);
    lemma_dot_concat(f, sa, ca, sb, cb);
    assert forall|t: int| 0 <= t < sb.len() && t != -1 implies #[trigger] cb[t] == 0 by {}
    lemma_dot_single(f, sb, cb, -1);
    xor_cancel(dot(f, sa, ca), 0);
    assert(ca =~= loc.skip(j + 1));
    lemma_dot_comm(f, sa, ca);
}

/// The product of `1 - z * x[q]` over all entries.
spec fn distances(f: Gf, x: Seq<u8>, z: u8) -> u8
    decreases x.len(),
{
    if x.len() == 0 {
        1
    } else {
        f.mul(distances(f, x.drop_last(), z), 1 ^ f.mul(z, x.last()))
    }
}

proof fn lemma_distances_has(f: Gf, x: Seq<u8>, z: u8)
    ensures
        f.has(distances(f, x, z)),
{
    if x.len() > 0 {
        f.lemma_mul_has(distances(f, x.drop_last(), z), 1 ^ f.mul(z, x.last()));
    }
}

/// The errata polynomial is a product of linear factors.
proof fn lemma_errata_value(f: Gf, x: Seq<u8>, z: u8)
    ensures
        eval(f, errata_polynomial(f, x), z) == distances(f, x, z),
    decreases x.len(),
{
    if x.len() == 0 {
        lemma_eval_constant(f, 1, z);
    } else {
        let d = x.drop_last();
        lemma_errata_value(f, d, z);
        lemma_errata_coefficients(f, d);
        lemma_eval_times_linear(f, errata_polynomial(f, d), x.last(), 1, z);
        f.lemma_mul_comm(z, x.last());
        xor_comm(1, f.mul(z, x.last()));
    }
}

/// A vanishing factor makes the product vanish; without one it does not.
proof fn lemma_distances_zero(f: Gf, x: Seq<u8>, z: u8)
    requires
        f.has_all(x),
    ensures
        (exists|q: int| 0 <= q < x.len() && f.mul(z, #[trigger] x[q]) == 1) <==> distances(f, x, z)
            == 0,
    decreases x.len(),
{
    if x.len() > 0 {
        let d = x.drop_last();
        let n = x.len() - 1;
        assert(f.has_all(d));
        lemma_distances_zero(f, d, z);
        lemma_distances_has(f, d, z);
        let c = 1 ^ f.mul(z, x[n]);
        xor_cancel(1, f.mul(z, x[n]));
        f.lemma_mul_has(z, x[n]);
        f.lemma_has_xor(1, f.mul(z, x[n]));
        if distances(f, x, z) == 0 {
            f.lemma_no_zero_divisors(distances(f, d, z), c);
            if distances(f, d, z) == 0 {
                let q = choose|q: int| 0 <= q < d.len() && f.mul(z, #[trigger] d[q]) == 1;
                assert(f.mul(z, x[q]) == 1);
            }
        }
        if exists|q: int| 0 <= q < x.len() && f.mul(z, #[trigger] x[q]) == 1 {
            let q = choose|q: int| 0 <= q < x.len() && f.mul(z, #[trigger] x[q]) == 1;
            f.lemma_mul_zero(distances(f, d, z));
            f.lemma_mul_zero(c);
            if q < n {
                assert(f.mul(z, d[q]) == 1);
            }
        }
    }
}

/// The product over the other entries is the product without that entry.
proof fn lemma_other_distances(f: Gf, x: Seq<u8>, z: u8, i: int, n: nat)
    requires
        0 <= i < x.len(),
        n <= x.len(),
    ensures
        other_distances(f, x, z, i, n) == if n <= i {
            distances(f, x.take(n as int), z)
        } else {
            distances(f, x.take(n as int).remove(i), z)
        },
    decreases n,
{
    let a = x.take(n as int);
    if n > 0 {
        let j = (n - 1) as nat;
        lemma_other_distances(f, x, z, i, j);
        let b = x.take(j as int);
        assert(a.drop_last() =~= b);
        if j == i {
            assert(a.remove(i) =~= b);
        } else if j > i {
            assert(a.remove(i).drop_last() =~= b.remove(i));
            assert(a.remove(i).last() == x[j as int]);
        }
    }
}

/// Forney's formula gives the weight of each locator in the syndromes.
proof fn lemma_magnitude(f: Gf, synd: Seq<u8>, y: Seq<u8>, x: Seq<u8>, i: int)
    requires
        y.len() == x.len() <= synd.len(),
        f.has_all(y),
        f.has_all(x),
        distinct(x),
        forall|t: int| 0 <= t < x.len() ==> #[trigger] x[t] != 0,
        forall|j: int| 0 <= j < synd.len() ==> #[trigger] synd[j] == power_sum(f, y, x, j as nat),
        0 <= i < x.len(),
    ensures
        magnitude(f, synd, x, i) == y[i],
{
    let w = x.len();
    let loc = errata_polynomial(f, x);
    let omega = evaluator(f, synd, loc);
    let z = f.inv(x[i]);
    assert(f.has(x[i]) && x[i] != 0 && f.has(y[i]));
    f.lemma_inv(x[i]);
    lemma_errata_coefficients(f, x);
    lemma_evaluator(f, synd, loc, 0);
    // omega / x is the sum of the polynomials without one locator, weighted.
    lemma_evaluator_prefix(f, synd, y, x, z, w);
    lemma_evaluator_coefficient(f, synd, y, x, w as int);
    assert(omega.drop_last() =~= omega.take(w as int));
    let d = Seq::new(w, |t: int| eval(f, errata_polynomial(f, x.remove(t)).take(w as int), z));
    let prime = other_distances(f, x, z, i, w);
    lemma_other_distances(f, x, z, i, w);
    assert(x.take(w as int) =~= x);
    let r = x.remove(i);
    assert(prime == distances(f, r, z));
    assert forall|t: int| 0 <= t < w implies #[trigger] d[t] == distances(f, x.remove(t), z) by {
        lemma_errata_coefficients(f, x.remove(t));
        assert(errata_polynomial(f, x.remove(t)).take(w as int) =~= errata_polynomial(
            f,
            x.remove(t),
        ));
        lemma_errata_value(f, x.remove(t), z);
    }
    assert forall|t: int| 0 <= t < w && t != i implies #[trigger] d[t] == 0 by {
        let s = x.remove(t);
        assert forall|q: int| 0 <= q < s.len() implies f.has(#[trigger] s[q]) by {
            assert(s[q] == x[if q < t { q } else { q + 1 }]);
        }
        let q = if i < t {
            i
        } else {
            i - 1
        };
        assert(s[q] == x[i]);
        assert(f.mul(z, s[q]) == 1);
        lemma_distances_zero(f, s, z);
    }
    assert(d[i] == prime);
    lemma_dot_single(f, y, d, i);
    // No other locator has the inverse of this one.
    assert(prime != 0) by {
        assert forall|q: int| 0 <= q < r.len() implies f.has(#[trigger] r[q]) by {
            assert(r[q] == x[if q < i { q } else { q + 1 }]);
        }
        lemma_distances_zero(f, r, z);
        if prime == 0 {
            let q = choose|q: int| 0 <= q < r.len() && f.mul(z, #[trigger] r[q]) == 1;
            let p = if q < i {
                q
            } else {
                q + 1
            };
            assert(r[q] == x[p]);
            assert(f.has(x[p]));
            f.lemma_mul_cancel(z, x[p], x[i]);
            if p < i {
                assert(x[p] != x[i]);
            } else {
                assert(x[i] != x[p]);
            }
        }
    }
    let v = f.mul(y[i], prime);
    f.lemma_mul_zero(z);
    lemma_dot_has(f, y, d);
    assert(omega[w as int] == 0);
    assert(eval(f, omega, z) == f.mul(v, z)) by {
        xor_cancel(f.mul(v, z), 0);
    }
    f.lemma_mul_comm(v, z);
    f.lemma_mul_assoc(x[i], z, v);
    f.lemma_mul_has(y[i], prime);
    f.lemma_mul_one(v);
    lemma_distances_has(f, r, z);
    f.lemma_inv(prime);
    f.lemma_mul_assoc(y[i], prime, f.inv(prime));
    f.lemma_mul_one(y[i]);
}

/// Each coefficient of the evaluator is a weighted sum of coefficients of the
/// polynomials without one locator.
proof fn lemma_evaluator_coefficient(f: Gf, synd: Seq<u8>, y: Seq<u8>, x: Seq<u8>, j: int)
    requires
        y.len() == x.len() <= synd.len(),
        f.has_all(x),
        forall|k: int| 0 <= k < synd.len() ==> #[trigger] synd[k] == power_sum(f, y, x, k as nat),
        0 <= j <= x.len(),
    ensures
        evaluator(f, synd, errata_polynomial(f, x))[j] == dot(
            f,
            y,
            Seq::new(x.len(), |t: int| elementary(f, x.remove(t), x.len() - 1 - j)),
        ),
        j == x.len() ==> evaluator(f, synd, errata_polynomial(f, x))[j] == 0,
{
    let w = x.len();
    let loc = errata_polynomial(f, x);
    let k = (w - j) as nat;
    lemma_errata_coefficients(f, x);
    lemma_evaluator(f, synd, loc, j);
    let a = loc.skip(j + 1);
    assert(a == loc.skip(w + 1 - k));
    assert forall|q: int| 0 <= q < a.len() implies f.has(#[trigger] a[q]) by {
        assert(a[q] == loc[q + j + 1]);
    }
    assert(synd.take(k as int) =~= Seq::new(
        a.len(),
        |q: int| power_sum(f, y, x, (0 + q) as nat),
    ));
    lemma_dot_power_sums(f, a, y, x, 0);
    let e = Seq::new(w, |t: int| elementary(f, x.remove(t), w - 1 - j));
    let ones = powers(f, x, 0);
    let z = Seq::new(w, |t: int| f.mul(y[t], low_eval(f, a, x[t])));
    assert(z =~= entrywise(f, y, e)) by {
        assert forall|t: int| 0 <= t < w implies z[t] == entrywise(f, y, e)[t] by {
            lemma_low_part(f, x, t, k);
        }
    }
    crate::linear::lemma_dot_entrywise(f, y, e, ones);
    assert(entrywise(f, e, ones) =~= e) by {
        assert forall|t: int| 0 <= t < w implies entrywise(f, e, ones)[t] == e[t] by {
            lemma_elementary_has(f, x.remove(t), w - 1 - j);
            f.lemma_mul_one(e[t]);
        }
    }
    if j == w {
        assert forall|t: int| 0 <= t < y.len() && t != -1 implies #[trigger] e[t] == 0 by {
            lemma_elementary_has(f, x.remove(t), -1);
        }
        lemma_dot_single(f, y, e, -1);
    }
}

/// The values of the evaluator's prefixes.
proof fn lemma_evaluator_prefix(f: Gf, synd: Seq<u8>, y: Seq<u8>, x: Seq<u8>, z: u8, j: nat)
    requires
        y.len() == x.len() <= synd.len(),
        f.has_all(x),
        forall|k: int| 0 <= k < synd.len() ==> #[trigger] synd[k] == power_sum(f, y, x, k as nat),
        j <= x.len(),
    ensures
        eval(f, evaluator(f, synd, errata_polynomial(f, x)).take(j as int), z) == dot(
            f,
            y,
            Seq::new(
                x.len(),
                |t: int| eval(f, errata_polynomial(f, x.remove(t)).take(j as int), z),
            ),
        ),
    decreases j,
{
    let w = x.len();
    let loc = errata_polynomial(f, x);
    let omega = evaluator(f, synd, loc);
    let d = Seq::new(w, |t: int| eval(f, errata_polynomial(f, x.remove(t)).take(j as int), z));
    lemma_errata_coefficients(f, x);
    if j == 0 {
        assert forall|t: int| 0 <= t < y.len() && t != -1 implies #[trigger] d[t] == 0 by {}
        lemma_dot_single(f, y, d, -1);
    } else {
        let i = (j - 1) as nat;
        lemma_evaluator(f, synd, loc, 0);
        lemma_evaluator_prefix(f, synd, y, x, z, i);
        lemma_evaluator_coefficient(f, synd, y, x, i as int);
        assert(omega.take(j as int).drop_last() =~= omega.take(i as int));
        let b = Seq::new(
            w,
            |t: int| eval(f, errata_polynomial(f, x.remove(t)).take(i as int), z),
        );
        let bz = Seq::new(b.len(), |t: int| f.mul(z, b[t]));
        let e = Seq::new(w, |t: int| elementary(f, x.remove(t), w - 1 - i));
        assert(d =~= sum(bz, e)) by {
            assert forall|t: int| 0 <= t < w implies d[t] == sum(bz, e)[t] by {
                let p = errata_polynomial(f, x.remove(t));
                lemma_errata_coefficients(f, x.remove(t));
                assert(p.take(j as int).drop_last() =~= p.take(i as int));
                f.lemma_mul_comm(z, b[t]);
            }
        }
        lemma_dot_sum(f, y, bz, e);
        lemma_dot_scale(f, y, b, z);
        f.lemma_mul_comm(z, dot(f, y, b));
    }
}

/// The positions, among the last `i`, where two words differ, other than the
/// positions `known`, from the right.
pub open spec fn error_positions(a: Seq<u8>, b: Seq<u8>, known: Seq<usize>, i: nat) -> Seq<usize>
    decreases i,
{
    if i == 0 {
        seq![]
    } else {
        let before = error_positions(a, b, known, (i - 1) as nat);
        let p = a.len() - i;
        if a[p] != b[p] && !known.contains(p as usize) {
            before.push(p as usize)
        } else {
            before
        }
    }
}

/// The number of positions where two words differ, other than the positions
/// `known`.
pub open spec fn error_count(a: Seq<u8>, b: Seq<u8>, known: Seq<usize>) -> nat {
    error_positions(a, b, known, a.len()).len()
}

/// What the list of error positions holds.
pub proof fn lemma_error_positions(a: Seq<u8>, b: Seq<u8>, known: Seq<usize>, i: nat)
    requires
        i <= a.len() <= usize::MAX,
        a.len() == b.len(),
    ensures
        error_positions(a, b, known, i).len() <= i,
        distinct_positions(error_positions(a, b, known, i), a.len()),
        forall|p: int|
            0 <= p < a.len() ==> (#[trigger] error_positions(a, b, known, i).contains(p as usize)
                <==> a.len() - i <= p && a[p] != b[p] && !known.contains(p as usize)),
    decreases i,
{
    let after = error_positions(a, b, known, i);
    if i > 0 {
        let j = (i - 1) as nat;
        lemma_error_positions(a, b, known, j);
        let before = error_positions(a, b, known, j);
        let q = a.len() - i;
        if after.len() > before.len() {
            assert forall|t: int, u: int| 0 <= t < u < after.len() implies #[trigger] after[t]
                != #[trigger] after[u] by {
                if u == before.len() {
                    assert(before.contains(after[t]));
                    assert(before.contains((after[t] as int) as usize));
                }
            }
        }
        assert forall|p: int| 0 <= p < a.len() implies (#[trigger] after.contains(p as usize)
            <==> a.len() - i <= p && a[p] != b[p] && !known.contains(p as usize)) by {
            if after.len() > before.len() {
                assert(after[before.len() as int] == q as usize);
                if before.contains(p as usize) {
                    let w = choose|w: int| 0 <= w < before.len() && before[w] == p as usize;
                    assert(after[w] == p as usize);
                }
                if after.contains(p as usize) {
                    let w = choose|w: int| 0 <= w < after.len() && after[w] == p as usize;
                    if w < before.len() {
                        assert(before[w] == p as usize);
                        assert(before.contains(p as usize));
                    }
                }
            }
            assert(before.contains(p as usize) <==> a.len() - j <= p && a[p] != b[p]
                && !known.contains(p as usize));
        }
    }
}

/// Where the roots of a locator polynomial are exactly the locators of the
/// positions where two words differ, the root search lists these positions.
proof fn lemma_roots_are_errors(
    f: Gf,
    p: Seq<u8>,
    a: Seq<u8>,
    b: Seq<u8>,
    known: Seq<usize>,
    i: nat,
)
    requires
        i <= a.len() <= usize::MAX,
        forall|q: int|
            0 <= q < a.len() ==> ((#[trigger] eval(f, p, locator(f, a.len(), q)) == 0) <==> a[q]
                != b[q] && !known.contains(q as usize)),
    ensures
        root_positions(f, p, a.len(), i) == error_positions(a, b, known, i),
    decreases i,
{
    if i > 0 {
        lemma_roots_are_errors(f, p, a, b, known, (i - 1) as nat);
        let q = a.len() - i;
        assert(locator(f, a.len(), q) == f.alpha((i - 1) as nat));
        assert((eval(f, p, locator(f, a.len(), q)) == 0) <==> a[q] != b[q] && !known.contains(
            q as usize,
        ));
    }
}

/// The errata lay out the error values over their positions.
proof fn lemma_errata(
    f: Gf,
    synd: Seq<u8>,
    y: Seq<u8>,
    pos: Seq<usize>,
    n: nat,
    k: nat,
)
    requires
        k <= pos.len(),
        y.len() == pos.len(),
        distinct_positions(pos, n),
        forall|i: int|
            0 <= i < pos.len() ==> magnitude(f, synd, locators(f, n, pos), i) == #[trigger] y[i],
    ensures
        errata(f, synd, pos, n, k).len() == n,
        forall|t: int|
            0 <= t < k ==> errata(f, synd, pos, n, k)[#[trigger] pos[t] as int] == y[t],
        forall|p: int|
            0 <= p < n && !pos.take(k as int).contains(p as usize) ==> #[trigger] errata(
                f,
                synd,
                pos,
                n,
                k,
            )[p] == 0,
    decreases k,
{
    if k > 0 {
        let j = (k - 1) as nat;
        lemma_errata(f, synd, y, pos, n, j);
        let before = errata(f, synd, pos, n, j);
        let after = errata(f, synd, pos, n, k);
        assert(y[j as int] == magnitude(f, synd, locators(f, n, pos), j as int));
        assert(after == before.update(pos[j as int] as int, y[j as int]));
        assert forall|p: int|
            0 <= p < n && !pos.take(k as int).contains(p as usize) implies #[trigger] after[p]
            == 0 by {
            assert(pos.take(k as int)[j as int] == pos[j as int]);
            assert(!pos.take(j as int).contains(p as usize)) by {
                if pos.take(j as int).contains(p as usize) {
                    let w = choose|w: int|
                        0 <= w < j && pos.take(j as int)[w] == p as usize;
                    assert(pos.take(k as int)[w] == p as usize);
                }
            }
            assert(before[p] == 0);
        }
    }
}

/// With the syndromes of a word that differs from a codeword only at the
/// positions `pos`, the correction yields that codeword.
proof fn lemma_corrected(
    f: Gf,
    msg: Seq<u8>,
    word: Seq<u8>,
    nsym: nat,
    pos: Seq<usize>,
)
    requires
        msg.len() == word.len() <= f.order(),
        f.has_all(msg),
        f.has_all(word),
        is_codeword(f, word, nsym),
        distinct_positions(pos, msg.len()),
        pos.len() <= nsym,
        forall|i: int|
            0 <= i < msg.len() && !pos.contains(i as usize) ==> #[trigger] msg[i] == word[i],
    ensures
        corrected(f, msg, syndromes(f, msg, nsym), pos) == word,
{
    let n = msg.len();
    let synd = syndromes(f, msg, nsym);
    let e = sum(msg, word);
    let y = gathered(e, pos);
    let x = locators(f, n, pos);
    lemma_locators_distinct(f, n, pos);
    assert forall|t: int| 0 <= t < y.len() implies f.has(#[trigger] y[t]) by {
        let p = pos[t] as int;
        assert(f.has(msg[p]) && f.has(word[p]));
        f.lemma_has_xor(msg[p], word[p]);
    }
    assert forall|j: int| 0 <= j < synd.len() implies #[trigger] synd[j] == power_sum(
        f,
        y,
        x,
        j as nat,
    ) by {
        lemma_syndromes_of_errors(f, msg, word, nsym, pos, j as nat);
    }
    assert forall|i: int| 0 <= i < pos.len() implies magnitude(f, synd, x, i)
        == #[trigger] y[i] by {
        lemma_magnitude(f, synd, y, x, i);
    }
    lemma_errata(f, synd, y, pos, n, pos.len());
    let v = errata(f, synd, pos, n, pos.len());
    let r = corrected(f, msg, synd, pos);
    assert(pos.take(pos.len() as int) =~= pos);
    assert forall|i: int| 0 <= i < n implies #[trigger] r[i] == word[i] by {
        assert(r[i] == msg[i] ^ v[i]);
        if pos.contains(i as usize) {
            let t = choose|t: int| 0 <= t < pos.len() && pos[t] == i as usize;
            assert(v[pos[t] as int] == y[t]);
            xor_cancel(msg[i], word[i]);
        } else {
            assert(v[i] == 0);
            xor_cancel(msg[i], 0);
        }
    }
    assert(r =~= word);
}

/// A polynomial whose degree is the number of the given positions, and that
/// vanishes at their locators, vanishes at no other locator.
proof fn lemma_only_roots(f: Gf, p: Seq<u8>, n: nat, pos: Seq<usize>)
    requires
        n <= f.order(),
        distinct_positions(pos, n),
        p.len() == pos.len() + 1,
        p[0] != 0,
        f.has_all(p),
        forall|i: int|
            0 <= i < pos.len() ==> eval(f, p, #[trigger] locators(f, n, pos)[i]) == 0,
    ensures
        forall|q: int|
            0 <= q < n ==> ((#[trigger] eval(f, p, locator(f, n, q)) == 0) <==> pos.contains(
                q as usize,
            )),
{
    let xs = locators(f, n, pos);
    let c = pos.len();
    assert forall|q: int| 0 <= q < n implies ((#[trigger] eval(f, p, locator(f, n, q)) == 0)
        <==> pos.contains(q as usize)) by {
        if pos.contains(q as usize) {
            let i = choose|i: int| 0 <= i < c && pos[i] == q as usize;
            assert(xs[i] == locator(f, n, q));
        } else if eval(f, p, locator(f, n, q)) == 0 {
            let listed = pos.push(q as usize);
            assert(distinct_positions(listed, n)) by {
                assert forall|i: int, j: int| 0 <= i < j < listed.len() implies #[trigger] listed[i]
                    != #[trigger] listed[j] by {
                    if j == c {
                        assert(pos.contains(pos[i]));
                    }
                }
            }
            lemma_locators_distinct(f, n, listed);
            let more = locators(f, n, listed);
            assert forall|i: int| 0 <= i < more.len() implies eval(f, p, #[trigger] more[i])
                == 0 by {
                if i < c {
                    assert(xs[i] == more[i]);
                }
            }
            lemma_root_bound(f, p, more);
        }
    }
}

/// Decoding yields the codeword that was sent, whatever was received, as long
/// as twice the number of errors at unknown positions and the number of
/// erasures add up to at most the number of parity symbols, and the errors are
/// within the cap.
#[verifier::spinoff_prover]
#[verifier::rlimit(30)]
pub proof fn law_decode_corrects(
    f: Gf,
    sent: Seq<u8>,
    received: Seq<u8>,
    nsym: nat,
    erasures: Seq<usize>,
    max_errors: Option<usize>,
)
    requires
        sent.len() == received.len() <= f.order(),
        f.has_all(sent),
        f.has_all(received),
        is_codeword(f, sent, nsym),
        distinct_positions(erasures, sent.len()),
        2 * error_count(received, sent, erasures) + erasures.len() <= nsym,
        within(error_count(received, sent, erasures), max_errors),
    ensures
        decoded(f, received, nsym, erasures, max_errors) == Some(sent),
{
    let n = sent.len();
    let s = erasures.len();
    let msg = erased(received, erasures);
    let errors = error_positions(received, sent, erasures, n);
    let c = errors.len();
    let pos = erasures + errors;
    let synd = syndromes(f, msg, nsym);
    lemma_error_positions(received, sent, erasures, n);
    assert(f.has_all(msg)) by {
        assert forall|i: int| 0 <= i < msg.len() implies f.has(#[trigger] msg[i]) by {
            assert(f.has(received[i]));
        }
    }
    assert(distinct_positions(pos, n)) by {
        assert forall|t: int, u: int| 0 <= t < u < pos.len() implies #[trigger] pos[t]
            != #[trigger] pos[u] by {
            if t < s && u >= s {
                let p = pos[t] as int;
                assert(erasures[t] == p as usize);
                assert(erasures.contains(p as usize));
                assert(errors[u - s] == pos[u]);
                assert(errors.contains(pos[u]));
                assert(errors.contains((pos[u] as int) as usize));
            } else if u < s {
                assert(erasures[t] != erasures[u]);
            } else {
                assert(errors[t - s] != errors[u - s]);
            }
        }
    }
    assert forall|i: int| 0 <= i < n && !pos.contains(i as usize) implies #[trigger] msg[i]
        == sent[i] by {
        if erasures.contains(i as usize) {
            let t = choose|t: int| 0 <= t < s && erasures[t] == i as usize;
            assert(pos[t] == i as usize);
        }
        if errors.contains(i as usize) {
            let t = choose|t: int| 0 <= t < c && errors[t] == i as usize;
            assert(pos[s + t] == i as usize);
        }
    }
    if all_zero(synd) {
        law_codewords_apart(f, msg, sent, nsym, pos);
    } else {
        let y = gathered(sum(msg, sent), pos);
        let x = locators(f, n, pos);
        lemma_locators_distinct(f, n, pos);
        assert forall|t: int| 0 <= t < y.len() implies f.has(#[trigger] y[t]) by {
            let p = pos[t] as int;
            assert(f.has(msg[p]) && f.has(sent[p]));
            f.lemma_has_xor(msg[p], sent[p]);
        }
        assert forall|j: int| 0 <= j < synd.len() implies #[trigger] synd[j] == power_sum(
            f,
            y,
            x,
            j as nat,
        ) by {
            lemma_syndromes_of_errors(f, msg, sent, nsym, pos, j as nat);
        }
        // The erased positions leave the syndromes.
        let known = locators(f, n, erasures);
        let t = forney(f, synd, known);
        let limit = (nsym - s) as nat;
        assert(known =~= x.take(s as int));
        lemma_forney(f, synd, y, x, s);
        lemma_weights(f, y, x, s);
        let z = weights(f, y, x, s);
        let (zs, xs) = (z.skip(s as int), x.skip(s as int));
        assert(distinct(xs)) by {
            assert forall|i: int, j: int| 0 <= i < j < xs.len() implies #[trigger] xs[i]
                != #[trigger] xs[j] by {
                assert(x[i + s] != x[j + s]);
            }
        }
        assert forall|i: int| 0 <= i < xs.len() implies f.has(#[trigger] xs[i]) && xs[i]
            != 0 by {
            assert(f.has(x[i + s]) && x[i + s] != 0);
        }
        assert forall|i: int| 0 <= i < zs.len() implies f.has(#[trigger] zs[i]) && zs[i]
            != 0 by {
            assert(f.has(z[i + s]));
            let p = pos[i + s] as int;
            assert(errors[i] == p as usize);
            assert(errors.contains(p as usize));
            assert(msg[p] == received[p]);
            xor_cancel(msg[p], sent[p]);
            assert(y[i + s] != 0);
            assert(z[i + s] != 0);
        }
        assert forall|j: int| 0 <= j < limit implies #[trigger] t[j] == power_sum(
            f,
            zs,
            xs,
            j as nat,
        ) by {
            lemma_power_sum_skip(f, z, x, s, j as nat);
        }
        // The synthesis finds the locators of the errors.
        lemma_synthesis_locates(f, t, zs, xs, limit);
        lemma_synthesis_shape(f, t, limit);
        let loc = synthesis(f, t, limit).cur;
        lemma_stripped(loc);
        assert(error_locator(f, t, nsym, s) == Some(loc));
        let p = loc.reverse();
        assert(f.has_all(p)) by {
            assert forall|i: int| 0 <= i < p.len() implies f.has(#[trigger] p[i]) by {
                assert(f.has(loc[loc.len() - 1 - i]));
            }
        }
        assert(xs =~= locators(f, n, errors));
        lemma_only_roots(f, p, n, errors);
        assert forall|q: int| 0 <= q < n implies ((#[trigger] eval(f, p, locator(f, n, q)) == 0)
            <==> received[q] != sent[q] && !erasures.contains(q as usize)) by {
            assert(errors.contains(q as usize) <==> received[q] != sent[q] && !erasures.contains(
                q as usize,
            ));
        }
        lemma_roots_are_errors(f, p, received, sent, erasures, n);
        lemma_corrected(f, msg, sent, nsym, pos);
    }
}

/// Whether two words of one length agree outside the positions `known` and
/// `pos`.
pub open spec fn agree_except(
    a: Seq<u8>,
    b: Seq<u8>,
    known: Seq<usize>,
    pos: Seq<usize>,
) -> bool {
    &&& a.len() == b.len()
    &&& distinct_positions(pos, a.len())
    &&& forall|i: int|
        0 <= i < a.len() && !known.contains(i as usize) && !pos.contains(i as usize)
            ==> #[trigger] a[i] == b[i]
}

/// What a decoded word has to do with the received one: it is a codeword of
/// the same length, and apart from the erasures it differs in a number of
/// positions that the cap and the parity symbols admit.
pub proof fn law_decoded_is_codeword(
    f: Gf,
    received: Seq<u8>,
    nsym: nat,
    erasures: Seq<usize>,
    max_errors: Option<usize>,
)
    requires
        received.len() <= usize::MAX,
        forall|t: int| 0 <= t < erasures.len() ==> #[trigger] erasures[t] < received.len(),
    ensures
        erasures.len() > nsym ==> decoded(f, received, nsym, erasures, max_errors) is None,
        decoded(f, received, nsym, erasures, max_errors) matches Some(word) ==> {
            &&& word.len() == received.len()
            &&& is_codeword(f, word, nsym)
            &&& exists|pos: Seq<usize>|
                {
                    &&& #[trigger] agree_except(word, received, erasures, pos)
                    &&& 2 * pos.len() <= nsym + erasures.len()
                    &&& within(pos.len(), max_errors)
                }
        },
{
    let n = received.len();
    let msg = erased(received, erasures);
    let synd = syndromes(f, msg, nsym);
    if erasures.len() <= nsym {
        if all_zero(synd) {
            let none: Seq<usize> = seq![];
            assert(agree_except(msg, received, erasures, none));
            assert(decoded(f, received, nsym, erasures, max_errors) == Some(msg));
            assert(within(none.len(), max_errors));
            assert(is_codeword(f, msg, nsym));
        } else {
            let t = forney(f, synd, locators(f, n, erasures));
            if let Some(loc) = error_locator(f, t, nsym, erasures.len()) {
                let pos = root_positions(f, loc.reverse(), n, n);
                lemma_root_positions_range(f, loc.reverse(), n, n);
                assert(distinct_positions(pos, n));
                let all = erasures + pos;
                assert forall|t: int| 0 <= t < all.len() implies #[trigger] all[t] < n by {
                    if t < erasures.len() {
                        assert(erasures[t] < n);
                    } else {
                        assert(pos[t - erasures.len()] < n);
                    }
                }
                lemma_errata_elsewhere(f, synd, all, n, all.len());
                assert(all.take(all.len() as int) =~= all);
                let word = corrected(f, msg, synd, all);
                assert forall|i: int|
                    0 <= i < n && !erasures.contains(i as usize) && !pos.contains(
                        i as usize,
                    ) implies #[trigger] word[i] == received[i] by {
                    assert(!all.contains(i as usize)) by {
                        if all.contains(i as usize) {
                            let w = choose|w: int| 0 <= w < all.len() && all[w] == i as usize;
                            if w < erasures.len() {
                                assert(erasures[w] == i as usize);
                            } else {
                                assert(pos[w - erasures.len()] == i as usize);
                            }
                        }
                    }
                    assert(errata(f, synd, all, n, all.len())[i] == 0);
                    xor_cancel(msg[i], 0);
                }
                assert(agree_except(word, received, erasures, pos));
                if let Some(w) = decoded(f, received, nsym, erasures, max_errors) {
                    assert(w == word);
                    assert(within(pos.len(), max_errors));
                    assert(is_codeword(f, word, nsym));
                }
            }
        }
    }
}

/// The errata are zero off their positions.
proof fn lemma_errata_elsewhere(f: Gf, synd: Seq<u8>, pos: Seq<usize>, n: nat, k: nat)
    requires
        n <= usize::MAX,
        k <= pos.len(),
        forall|t: int| 0 <= t < pos.len() ==> #[trigger] pos[t] < n,
    ensures
        errata(f, synd, pos, n, k).len() == n,
        forall|p: int|
            0 <= p < n && !pos.take(k as int).contains(p as usize) ==> #[trigger] errata(
                f,
                synd,
                pos,
                n,
                k,
            )[p] == 0,
    decreases k,
{
    if k > 0 {
        let j = (k - 1) as nat;
        lemma_errata_elsewhere(f, synd, pos, n, j);
        let before = errata(f, synd, pos, n, j);
        let after = errata(f, synd, pos, n, k);
        assert(pos[j as int] < n);
        assert forall|p: int|
            0 <= p < n && !pos.take(k as int).contains(p as usize) implies #[trigger] after[p]
            == 0 by {
            assert(pos.take(k as int)[j as int] == pos[j as int]);
            if pos.take(j as int).contains(p as usize) {
                let w = choose|w: int| 0 <= w < j && pos.take(j as int)[w] == p as usize;
                assert(pos.take(k as int)[w] == p as usize);
            }
            assert(before[p] == 0);
        }
    }
}

/// The received values of erased symbols have no influence on decoding: words
/// that differ only there are decoded to the same.
pub proof fn law_erased_values_ignored(
    f: Gf,
    a: Seq<u8>,
    b: Seq<u8>,
    nsym: nat,
    erasures: Seq<usize>,
    max_errors: Option<usize>,
)
    requires
        a.len() == b.len(),
        forall|i: int|
            0 <= i < a.len() && !erasures.contains(i as usize) ==> #[trigger] a[i] == b[i],
    ensures
        decoded(f, a, nsym, erasures, max_errors) == decoded(f, b, nsym, erasures, max_errors),
{
    assert(erased(a, erasures) =~= erased(b, erasures));
}

/// The errors are counted right: no position twice, and every one at which two
/// words differ that is not known.
pub proof fn law_errors_counted(a: Seq<u8>, b: Seq<u8>, known: Seq<usize>)
    requires
        a.len() == b.len() <= usize::MAX,
    ensures
        error_count(a, b, known) == Set::new(
            |i: int| 0 <= i < a.len() && a[i] != b[i] && !known.contains(i as usize),
        ).len(),
{
    let pos = error_positions(a, b, known, a.len());
    lemma_error_positions(a, b, known, a.len());
    let wide = Seq::new(pos.len(), |t: int| pos[t] as int);
    let all = Set::new(|i: int| 0 <= i < a.len() && a[i] != b[i] && !known.contains(i as usize));
    assert(wide.no_duplicates());
    wide.unique_seq_to_set();
    assert(wide.to_set() =~= all) by {
        assert forall|i: int| wide.to_set().contains(i) <==> all.contains(i) by {
            if wide.to_set().contains(i) {
                let t = choose|t: int| 0 <= t < wide.len() && wide[t] == i;
                assert(pos[t] < a.len());
                assert(pos.contains(i as usize));
            }
            if all.contains(i) {
                assert(pos.contains(i as usize));
                let t = choose|t: int| 0 <= t < pos.len() && pos[t] == i as usize;
                assert(wide[t] == i);
            }
        }
    }
}

/// A cap admits as many errors as it says: with up to that many a word is
/// corrected, and with more it is not.
pub proof fn law_errors_capped(
    f: Gf,
    sent: Seq<u8>,
    received: Seq<u8>,
    nsym: nat,
    erasures: Seq<usize>,
    cap: usize,
)
    requires
        sent.len() == received.len() <= f.order(),
        f.has_all(sent),
        f.has_all(received),
        is_codeword(f, sent, nsym),
        distinct_positions(erasures, sent.len()),
        2 * error_count(received, sent, erasures) + erasures.len() <= nsym,
    ensures
        decoded(f, received, nsym, erasures, None) == Some(sent),
        error_count(received, sent, erasures) <= cap ==> decoded(
            f,
            received,
            nsym,
            erasures,
            Some(cap),
        ) == Some(sent),
        error_count(received, sent, erasures) > cap ==> decoded(
            f,
            received,
            nsym,
            erasures,
            Some(cap),
        ) != Some(sent),
{
    law_decode_corrects(f, sent, received, nsym, erasures, None);
    if error_count(received, sent, erasures) <= cap {
        law_decode_corrects(f, sent, received, nsym, erasures, Some(cap));
    } else {
        law_decoded_is_codeword(f, received, nsym, erasures, Some(cap));
        if decoded(f, received, nsym, erasures, Some(cap)) == Some(sent) {
            let pos = choose|pos: Seq<usize>|
                {
                    &&& #[trigger] agree_except(sent, received, erasures, pos)
                    &&& 2 * pos.len() <= nsym + erasures.len()
                    &&& within(pos.len(), Some(cap))
                };
            let errors = error_positions(received, sent, erasures, received.len());
            lemma_error_positions(received, sent, erasures, received.len());
            errors.unique_seq_to_set();
            pos.lemma_cardinality_of_set();
            assert(errors.to_set().subset_of(pos.to_set())) by {
                assert forall|p: usize| errors.to_set().contains(p) implies pos.to_set().contains(
                    p,
                ) by {
                    let t = choose|t: int| 0 <= t < errors.len() && errors[t] == p;
                    assert(errors.contains(p));
                    assert(p < received.len());
                    assert(received[p as int] != sent[p as int]);
                }
            }
            vstd::set_lib::lemma_len_subset(errors.to_set(), pos.to_set());
        }
    }
}

} // verus!
