//! Linear algebra over a finite field: inner products, power sums and the
//! facts about them that error correction rests on.
use crate::field::{xor_assoc, xor_cancel, xor_comm, xor_swap, Gf};
use crate::poly::{eval, lemma_eval_constant, lemma_eval_has, lemma_eval_push};
use vstd::prelude::*;

verus! {

/// The inner product of two sequences of equal length.
pub open spec fn dot(f: Gf, a: Seq<u8>, b: Seq<u8>) -> u8
    decreases a.len(),
{
    if a.len() == 0 {
        0
    } else {
        dot(f, a.drop_last(), b.drop_last()) ^ f.mul(a.last(), b.last())
    }
}

/// The entrywise sum.
pub open spec fn sum(a: Seq<u8>, b: Seq<u8>) -> Seq<u8> {
    Seq::new(a.len(), |i: int| a[i] ^ b[i])
}

/// The entrywise product.
pub open spec fn entrywise(f: Gf, a: Seq<u8>, b: Seq<u8>) -> Seq<u8> {
    Seq::new(a.len(), |i: int| f.mul(a[i], b[i]))
}

/// The `j`-th powers of the entries.
pub open spec fn powers(f: Gf, x: Seq<u8>, j: nat) -> Seq<u8> {
    Seq::new(x.len(), |i: int| f.pow(x[i], j))
}

/// The sum of `y[i] * x[i]^j`.
pub open spec fn power_sum(f: Gf, y: Seq<u8>, x: Seq<u8>, j: nat) -> u8 {
    dot(f, y, powers(f, x, j))
}

/// The value at `x` of the polynomial with the coefficients `a`, lowest
/// degree first.
pub open spec fn low_eval(f: Gf, a: Seq<u8>, x: u8) -> u8
    decreases a.len(),
{
    if a.len() == 0 {
        0
    } else {
        a[0] ^ f.mul(x, low_eval(f, a.skip(1), x))
    }
}

/// The inner product is additive in its second argument.
pub proof fn lemma_dot_sum(f: Gf, a: Seq<u8>, b: Seq<u8>, c: Seq<u8>)
    requires
        a.len() == b.len() == c.len(),
    ensures
        dot(f, a, sum(b, c)) == dot(f, a, b) ^ dot(f, a, c),
    decreases a.len(),
{
    if a.len() == 0 {
        xor_cancel(0, 0);
    } else {
        let (p, q, r) = (a.drop_last(), b.drop_last(), c.drop_last());
        lemma_dot_sum(f, p, q, r);
        assert(sum(b, c).drop_last() =~= sum(q, r));
        f.lemma_mul_add(a.last(), b.last(), c.last());
        xor_swap(dot(f, p, q), dot(f, p, r), f.mul(a.last(), b.last()), f.mul(a.last(), c.last()));
    }
}

/// The inner product is commutative.
pub proof fn lemma_dot_comm(f: Gf, a: Seq<u8>, b: Seq<u8>)
    requires
        a.len() == b.len(),
    ensures
        dot(f, a, b) == dot(f, b, a),
    decreases a.len(),
{
    if a.len() > 0 {
        lemma_dot_comm(f, a.drop_last(), b.drop_last());
        f.lemma_mul_comm(a.last(), b.last());
    }
}

/// Factors move from one argument of the inner product to the other.
pub proof fn lemma_dot_entrywise(f: Gf, a: Seq<u8>, b: Seq<u8>, c: Seq<u8>)
    requires
        a.len() == b.len() == c.len(),
    ensures
        dot(f, entrywise(f, a, b), c) == dot(f, a, entrywise(f, b, c)),
    decreases a.len(),
{
    if a.len() > 0 {
        let (p, q, r) = (a.drop_last(), b.drop_last(), c.drop_last());
        lemma_dot_entrywise(f, p, q, r);
        assert(entrywise(f, a, b).drop_last() =~= entrywise(f, p, q));
        assert(entrywise(f, b, c).drop_last() =~= entrywise(f, q, r));
        f.lemma_mul_assoc(a.last(), b.last(), c.last());
    }
}

/// The inner product is homogeneous in its second argument.
pub proof fn lemma_dot_scale(f: Gf, a: Seq<u8>, b: Seq<u8>, c: u8)
    requires
        a.len() == b.len(),
    ensures
        dot(f, a, Seq::new(b.len(), |i: int| f.mul(c, b[i]))) == f.mul(c, dot(f, a, b)),
    decreases a.len(),
{
    let s = Seq::new(b.len(), |i: int| f.mul(c, b[i]));
    if a.len() == 0 {
        f.lemma_mul_zero(c);
    } else {
        let (p, q) = (a.drop_last(), b.drop_last());
        lemma_dot_scale(f, p, q, c);
        assert(s.drop_last() =~= Seq::new(q.len(), |i: int| f.mul(c, q[i])));
        f.lemma_mul_add(c, dot(f, p, q), f.mul(a.last(), b.last()));
        f.lemma_mul_assoc(c, a.last(), b.last());
        f.lemma_mul_comm(c, a.last());
        f.lemma_mul_assoc(a.last(), c, b.last());
    }
}

/// Inner products are elements.
pub proof fn lemma_dot_has(f: Gf, a: Seq<u8>, b: Seq<u8>)
    requires
        a.len() == b.len(),
    ensures
        f.has(dot(f, a, b)),
    decreases a.len(),
{
    if a.len() > 0 {
        lemma_dot_has(f, a.drop_last(), b.drop_last());
        f.lemma_mul_has(a.last(), b.last());
        f.lemma_has_xor(dot(f, a.drop_last(), b.drop_last()), f.mul(a.last(), b.last()));
    }
}

/// The inner product with nothing but zeros, but for one entry.
pub proof fn lemma_dot_single(f: Gf, a: Seq<u8>, b: Seq<u8>, k: int)
    requires
        a.len() == b.len(),
        forall|i: int| 0 <= i < a.len() && i != k ==> #[trigger] b[i] == 0,
    ensures
        dot(f, a, b) == if 0 <= k < a.len() {
            f.mul(a[k], b[k])
        } else {
            0
        },
    decreases a.len(),
{
    if a.len() > 0 {
        let n = a.len() - 1;
        let (p, q) = (a.drop_last(), b.drop_last());
        lemma_dot_single(f, p, q, k);
        f.lemma_mul_zero(a[n]);
        xor_cancel(dot(f, p, q), 0);
        xor_cancel(f.mul(a[n], b[n]), 0);
        if k != n {
            assert(b[n] == 0);
        }
    }
}

/// The inner product of concatenations.
pub proof fn lemma_dot_concat(f: Gf, a: Seq<u8>, b: Seq<u8>, c: Seq<u8>, d: Seq<u8>)
    requires
        a.len() == b.len(),
        c.len() == d.len(),
    ensures
        dot(f, a + c, b + d) == dot(f, a, b) ^ dot(f, c, d),
    decreases c.len(),
{
    if c.len() == 0 {
        assert(a + c =~= a);
        assert(b + d =~= b);
        xor_cancel(dot(f, a, b), 0);
    } else {
        let (p, q) = (c.drop_last(), d.drop_last());
        lemma_dot_concat(f, a, b, p, q);
        assert((a + c).drop_last() =~= a + p);
        assert((b + d).drop_last() =~= b + q);
        xor_assoc(dot(f, a, b), dot(f, p, q), f.mul(c.last(), d.last()));
    }
}

/// The inner product of a sequence with the powers of one element is a
/// polynomial value.
pub proof fn lemma_dot_powers_of(f: Gf, a: Seq<u8>, x: u8, m: nat)
    requires
        f.has(x),
        f.has_all(a),
    ensures
        dot(f, a, Seq::new(a.len(), |i: int| f.pow(x, (m + i) as nat))) == f.mul(
            f.pow(x, m),
            low_eval(f, a, x),
        ),
    decreases a.len(),
{
    let s = Seq::new(a.len(), |i: int| f.pow(x, (m + i) as nat));
    if a.len() == 0 {
        f.lemma_mul_zero(f.pow(x, m));
    } else {
        let t = a.skip(1);
        assert forall|i: int| 0 <= i < t.len() implies f.has(#[trigger] t[i]) by {
            assert(t[i] == a[i + 1]);
        }
        lemma_dot_powers_of(f, t, x, m + 1);
        let u = Seq::new(t.len(), |i: int| f.pow(x, (m + 1 + i) as nat));
        assert(a =~= seq![a[0]] + t);
        assert(s =~= seq![s[0]] + u);
        lemma_dot_concat(f, seq![a[0]], seq![s[0]], t, u);
        assert(dot(f, seq![a[0]], seq![s[0]]) == f.mul(a[0], s[0])) by {
            lemma_dot_single(f, seq![a[0]], seq![s[0]], 0);
        }
        let xm = f.pow(x, m);
        let e = low_eval(f, t, x);
        assert(f.pow(x, m + 1) == f.mul(x, xm));
        f.lemma_mul_comm(x, xm);
        f.lemma_mul_assoc(xm, x, e);
        f.lemma_mul_add(xm, a[0], f.mul(x, e));
        f.lemma_mul_comm(a[0], xm);
    }
}

/// Whether the entries are pairwise different.
pub open spec fn distinct(x: Seq<u8>) -> bool {
    forall|i: int, j: int| 0 <= i < j < x.len() ==> #[trigger] x[i] != #[trigger] x[j]
}

/// One elimination step on power sums: each weight is multiplied by the
/// distance of its base to `c`.
pub proof fn lemma_power_sum_eliminate(f: Gf, y: Seq<u8>, x: Seq<u8>, c: u8, j: nat)
    requires
        y.len() == x.len(),
    ensures
        f.mul(power_sum(f, y, x, j), c) ^ power_sum(f, y, x, j + 1) == power_sum(
            f,
            Seq::new(y.len(), |i: int| f.mul(y[i], x[i] ^ c)),
            x,
            j,
        ),
{
    let d = Seq::new(x.len(), |i: int| x[i] ^ c);
    let (p, q) = (powers(f, x, j), powers(f, x, j + 1));
    let r = Seq::new(p.len(), |i: int| f.mul(c, p[i]));
    assert(Seq::new(y.len(), |i: int| f.mul(y[i], x[i] ^ c)) =~= entrywise(f, y, d));
    lemma_dot_entrywise(f, y, d, p);
    assert(entrywise(f, d, p) =~= sum(r, q)) by {
        assert forall|i: int| 0 <= i < x.len() implies entrywise(f, d, p)[i] == sum(r, q)[i] by {
            f.lemma_mul_add(p[i], x[i], c);
            xor_comm(f.mul(x[i], p[i]), f.mul(c, p[i]));
        }
    }
    lemma_dot_sum(f, y, r, q);
    lemma_dot_scale(f, y, p, c);
    f.lemma_mul_comm(c, power_sum(f, y, x, j));
}

/// Splitting the last term off a power sum.
pub proof fn lemma_power_sum_last(f: Gf, y: Seq<u8>, x: Seq<u8>, j: nat)
    requires
        y.len() == x.len() >= 1,
    ensures
        power_sum(f, y, x, j) == power_sum(f, y.drop_last(), x.drop_last(), j) ^ f.mul(
            y.last(),
            f.pow(x.last(), j),
        ),
{
    assert(powers(f, x, j).drop_last() =~= powers(f, x.drop_last(), j));
}

/// Weights on distinct bases whose power sums all vanish are zero
/// (the Vandermonde determinant is not).
pub proof fn lemma_vandermonde(f: Gf, y: Seq<u8>, x: Seq<u8>)
    requires
        y.len() == x.len(),
        f.has_all(y),
        f.has_all(x),
        distinct(x),
        forall|j: nat| j < y.len() ==> #[trigger] power_sum(f, y, x, j) == 0,
    ensures
        forall|i: int| 0 <= i < y.len() ==> #[trigger] y[i] == 0,
    decreases y.len(),
{
    if y.len() > 0 {
        let n = (y.len() - 1) as nat;
        let c = x.last();
        let w = Seq::new(y.len(), |i: int| f.mul(y[i], x[i] ^ c));
        let (v, z) = (w.drop_last(), x.drop_last());
        assert(f.has_all(v)) by {
            assert forall|i: int| 0 <= i < v.len() implies f.has(#[trigger] v[i]) by {
                f.lemma_mul_has(y[i], x[i] ^ c);
            }
        }
        assert(f.has_all(z));
        assert forall|j: nat| j < v.len() implies #[trigger] power_sum(f, v, z, j) == 0 by {
            lemma_power_sum_eliminate(f, y, x, c, j);
            assert(power_sum(f, y, x, j) == 0);
            assert(power_sum(f, y, x, j + 1) == 0);
            f.lemma_mul_zero(c);
            xor_cancel(0, 0);
            lemma_power_sum_last(f, w, x, j);
            xor_cancel(c, c);
            f.lemma_mul_zero(y.last());
            f.lemma_mul_zero(f.pow(c, j));
            xor_cancel(power_sum(f, v, z, j), 0);
        }
        lemma_vandermonde(f, v, z);
        assert forall|i: int| 0 <= i < n implies #[trigger] y[i] == 0 by {
            assert(v[i] == 0);
            assert(x[i] != x[n as int]);
            assert(f.has(y[i]) && f.has(x[i]) && f.has(x[n as int]));
            f.lemma_has_xor(x[i], c);
            f.lemma_no_zero_divisors(y[i], x[i] ^ c);
            xor_cancel(x[i], c);
        }
        assert(power_sum(f, y, x, 0) == 0);
        lemma_power_sum_last(f, y, x, 0);
        assert(power_sum(f, y.drop_last(), z, 0) == 0) by {
            lemma_dot_comm(f, y.drop_last(), powers(f, z, 0));
            assert forall|i: int| 0 <= i < n && i != -1 implies #[trigger] y.drop_last()[i] == 0 by {
                assert(y[i] == 0);
            }
            lemma_dot_single(f, powers(f, z, 0), y.drop_last(), -1);
        }
        assert(f.has(y[n as int]));
        f.lemma_mul_one(y.last());
        xor_cancel(y.last(), 0);
    }
}

/// The inner product of coefficients with consecutive power sums is a power
/// sum, whose weights carry the polynomial values.
pub proof fn lemma_dot_power_sums(f: Gf, a: Seq<u8>, y: Seq<u8>, x: Seq<u8>, m: nat)
    requires
        y.len() == x.len(),
        f.has_all(a),
        f.has_all(x),
    ensures
        dot(f, a, Seq::new(a.len(), |i: int| power_sum(f, y, x, (m + i) as nat))) == power_sum(
            f,
            Seq::new(y.len(), |t: int| f.mul(y[t], low_eval(f, a, x[t]))),
            x,
            m,
        ),
    decreases y.len(),
{
    let w = Seq::new(a.len(), |i: int| power_sum(f, y, x, (m + i) as nat));
    let z = Seq::new(y.len(), |t: int| f.mul(y[t], low_eval(f, a, x[t])));
    if y.len() == 0 {
        assert forall|i: int| 0 <= i < a.len() && i != -1 implies #[trigger] w[i] == 0 by {}
        lemma_dot_single(f, a, w, -1);
    } else {
        let (y1, x1) = (y.drop_last(), x.drop_last());
        let (yl, xl) = (y.last(), x.last());
        assert(f.has_all(x1));
        assert(f.has(x[x.len() - 1]));
        lemma_dot_power_sums(f, a, y1, x1, m);
        let w1 = Seq::new(a.len(), |i: int| power_sum(f, y1, x1, (m + i) as nat));
        let pw = Seq::new(a.len(), |i: int| f.pow(xl, (m + i) as nat));
        let ypw = Seq::new(pw.len(), |i: int| f.mul(yl, pw[i]));
        assert(w =~= sum(w1, ypw)) by {
            assert forall|i: int| 0 <= i < a.len() implies w[i] == sum(w1, ypw)[i] by {
                lemma_power_sum_last(f, y, x, (m + i) as nat);
            }
        }
        lemma_dot_sum(f, a, w1, ypw);
        lemma_dot_scale(f, a, pw, yl);
        lemma_dot_powers_of(f, a, xl, m);
        lemma_power_sum_last(f, z, x, m);
        assert(z.drop_last() =~= Seq::new(
            y1.len(),
            |t: int| f.mul(y1[t], low_eval(f, a, x1[t])),
        ));
        let e = low_eval(f, a, xl);
        let xm = f.pow(xl, m);
        f.lemma_mul_comm(xm, e);
        f.lemma_mul_assoc(yl, e, xm);
    }
}

/// The values of the prefixes of `p` at `c`: the quotient of `p` by `x - c`.
pub open spec fn synthetic(f: Gf, p: Seq<u8>, c: u8) -> Seq<u8> {
    Seq::new((p.len() - 1) as nat, |i: int| eval(f, p.take(i + 1), c))
}

/// Synthetic division.
pub proof fn lemma_synthetic(f: Gf, p: Seq<u8>, c: u8, x: u8)
    requires
        p.len() >= 1,
        f.has_all(p),
        f.has(c),
        f.has(x),
    ensures
        eval(f, p, x) == f.mul(eval(f, synthetic(f, p, c), x), x ^ c) ^ eval(f, p, c),
        f.has_all(synthetic(f, p, c)),
    decreases p.len(),
{
    let q = synthetic(f, p, c);
    assert forall|i: int| 0 <= i < q.len() implies f.has(#[trigger] q[i]) by {
        assert(f.has_all(p.take(i + 1)));
        lemma_eval_has(f, p.take(i + 1), c);
    }
    if p.len() == 1 {
        assert(p =~= seq![p[0]]);
        lemma_eval_constant(f, p[0], x);
        lemma_eval_constant(f, p[0], c);
        assert(eval(f, q, x) == 0);
        f.lemma_mul_zero(x ^ c);
        xor_cancel(p[0], 0);
    } else {
        let r = p.drop_last();
        assert(f.has_all(r));
        lemma_synthetic(f, r, c, x);
        let u = synthetic(f, r, c);
        let ec = eval(f, r, c);
        assert(q =~= u.push(ec)) by {
            assert forall|i: int| 0 <= i < q.len() implies q[i] == u.push(ec)[i] by {
                assert(p.take(i + 1) =~= r.take(i + 1));
                assert(r.take(r.len() as int) =~= r);
            }
        }
        lemma_eval_push(f, u, ec, x);
        // p(x) = r(x) x + l, with r(x) = u(x) (x + c) + r(c).
        let (eu, d, l) = (eval(f, u, x), x ^ c, p.last());
        f.lemma_mul_add(x, f.mul(eu, d), ec);
        f.lemma_mul_assoc(eu, d, x);
        f.lemma_mul_comm(d, x);
        f.lemma_mul_assoc(eu, x, d);
        f.lemma_mul_add(d, f.mul(eu, x), ec);
        f.lemma_mul_add(ec, x, c);
        let (m1, ex, ecc) = (f.mul(f.mul(eu, x), d), f.mul(ec, x), f.mul(ec, c));
        assert(eval(f, p, x) == (m1 ^ ex) ^ l);
        assert(f.mul(eval(f, q, x), d) == m1 ^ (ex ^ ecc));
        assert(eval(f, p, c) == ecc ^ l);
        assert((m1 ^ ex) ^ l == (m1 ^ (ex ^ ecc)) ^ (ecc ^ l)) by (bit_vector);
    }
}

/// A polynomial has at most as many roots as its degree.
pub proof fn lemma_root_bound(f: Gf, p: Seq<u8>, x: Seq<u8>)
    requires
        p.len() >= 1,
        p[0] != 0,
        f.has_all(p),
        f.has_all(x),
        distinct(x),
        forall|i: int| 0 <= i < x.len() ==> eval(f, p, #[trigger] x[i]) == 0,
    ensures
        x.len() <= p.len() - 1,
    decreases p.len(),
{
    if x.len() > 0 {
        let n = x.len() - 1;
        let c = x[n];
        assert(eval(f, p, c) == 0);
        assert(f.has(c));
        if p.len() == 1 {
            assert(p =~= seq![p[0]]);
            lemma_eval_constant(f, p[0], c);
        } else {
            let q = synthetic(f, p, c);
            lemma_synthetic(f, p, c, c);
            assert(q[0] == p[0]) by {
                assert(p.take(1) =~= seq![p[0]]);
                lemma_eval_constant(f, p[0], c);
            }
            let z = x.drop_last();
            assert(f.has_all(z));
            assert forall|i: int| 0 <= i < z.len() implies eval(f, q, #[trigger] z[i]) == 0 by {
                let t = x[i];
                assert(x[i] != x[n]);
                assert(f.has(t));
                lemma_synthetic(f, p, c, t);
                lemma_eval_has(f, q, t);
                xor_cancel(f.mul(eval(f, q, t), t ^ c), 0);
                f.lemma_has_xor(t, c);
                xor_cancel(t, c);
                f.lemma_no_zero_divisors(eval(f, q, t), t ^ c);
            }
            lemma_root_bound(f, q, z);
        }
    }
}

/// Reversing the coefficients turns one reading of a polynomial into the
/// other.
pub proof fn lemma_low_eval_reverse(f: Gf, a: Seq<u8>, x: u8)
    ensures
        low_eval(f, a, x) == eval(f, a.reverse(), x),
    decreases a.len(),
{
    if a.len() > 0 {
        let t = a.skip(1);
        lemma_low_eval_reverse(f, t, x);
        assert(a.reverse() =~= t.reverse().push(a[0]));
        lemma_eval_push(f, t.reverse(), a[0], x);
        f.lemma_mul_comm(x, low_eval(f, t, x));
        xor_comm(a[0], f.mul(x, low_eval(f, t, x)));
    }
}

} // verus!
