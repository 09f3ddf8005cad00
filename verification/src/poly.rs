//! Polynomials over a finite field, as coefficient sequences with the
//! highest degree first.
use crate::field::{xor_assoc, xor_cancel, xor_comm, xor_swap, Gf};
use crate::seqs::copied;
use vstd::prelude::*;

verus! {

/// The coefficient at index `i`, zero outside the sequence.
pub open spec fn at(p: Seq<u8>, i: int) -> u8 {
    if 0 <= i < p.len() {
        p[i]
    } else {
        0
    }
}

/// `n` zero coefficients.
pub open spec fn zeros(n: nat) -> Seq<u8> {
    Seq::new(n, |i: int| 0u8)
}

/// The linear polynomial `a x + b`.
pub open spec fn linear(a: u8, b: u8) -> Seq<u8> {
    seq![a, b]
}

/// The larger of two lengths.
pub open spec fn longer(m: nat, n: nat) -> nat {
    if m >= n {
        m
    } else {
        n
    }
}

/// The value at `x`.
pub open spec fn eval(f: Gf, p: Seq<u8>, x: u8) -> u8
    decreases p.len(),
{
    if p.len() == 0 {
        0
    } else {
        f.mul(eval(f, p.drop_last(), x), x) ^ p.last()
    }
}

/// Every coefficient times `c`.
pub open spec fn scaled(f: Gf, p: Seq<u8>, c: u8) -> Seq<u8> {
    Seq::new(p.len(), |i: int| f.mul(p[i], c))
}

/// The sum; coefficients of equal degree meet at the right end.
pub open spec fn added(p: Seq<u8>, q: Seq<u8>) -> Seq<u8> {
    let n = longer(p.len(), q.len());
    Seq::new(n, |i: int| at(p, i - (n - p.len())) ^ at(q, i - (n - q.len())))
}

/// The part of coefficient `k` of the product that the first `i`
/// coefficients of `p` contribute.
pub open spec fn partial_product(f: Gf, p: Seq<u8>, q: Seq<u8>, i: nat, k: int) -> u8
    decreases i,
{
    if i == 0 {
        0
    } else {
        partial_product(f, p, q, (i - 1) as nat, k) ^ f.mul(p[i - 1], at(q, k - (i - 1)))
    }
}

/// The product of two polynomials, not both empty.
pub open spec fn multiplied(f: Gf, p: Seq<u8>, q: Seq<u8>) -> Seq<u8> {
    Seq::new((p.len() + q.len() - 1) as nat, |k: int| partial_product(f, p, q, p.len(), k))
}

/// One step of long division by the monic `g`: the leading coefficient of `p`
/// is cancelled and dropped.
pub open spec fn divided_once(f: Gf, p: Seq<u8>, g: Seq<u8>) -> Seq<u8> {
    Seq::new((p.len() - 1) as nat, |j: int| p[j + 1] ^ f.mul(at(g, j + 1), p[0]))
}

/// The remainder of long division by the monic `g`.
pub open spec fn remainder(f: Gf, p: Seq<u8>, g: Seq<u8>) -> Seq<u8>
    decreases p.len(),
{
    if p.len() == 0 || p.len() < g.len() {
        p
    } else {
        remainder(f, divided_once(f, p, g), g)
    }
}

/// The quotient of long division by the monic `g`.
pub open spec fn quotient(f: Gf, p: Seq<u8>, g: Seq<u8>) -> Seq<u8>
    decreases p.len(),
{
    if p.len() == 0 || p.len() < g.len() {
        seq![]
    } else {
        seq![p[0]] + quotient(f, divided_once(f, p, g), g)
    }
}

/// Every coefficient of `p` times `x`.
pub fn poly_scale(f: Gf, p: &[u8], x: u8) -> (r: Vec<u8>)
    ensures
        r@ == scaled(f, p@, x),
{
    let mut r: Vec<u8> = Vec::with_capacity(p.len());
    let mut i: usize = 0;
    while i < p.len()
        invariant
            i <= p.len(),
            r@ == scaled(f, p@, x).take(i as int),
        decreases p.len() - i,
    {
        r.push(f.product(p[i], x));
        i += 1;
        assert(r@ =~= scaled(f, p@, x).take(i as int));
    }
    assert(r@ =~= scaled(f, p@, x));
    r
}

/// The sum of two polynomials.
pub fn poly_add(p: &[u8], q: &[u8]) -> (r: Vec<u8>)
    ensures
        r@ == added(p@, q@),
{
    let n = if p.len() >= q.len() {
        p.len()
    } else {
        q.len()
    };
    let (dp, dq) = (n - p.len(), n - q.len());
    let mut r: Vec<u8> = Vec::with_capacity(n);
    let mut i: usize = 0;
    while i < n
        invariant
            n == longer(p@.len(), q@.len()),
            dp == n - p@.len(),
            dq == n - q@.len(),
            i <= n,
            r@ == added(p@, q@).take(i as int),
        decreases n - i,
    {
        let a = if i >= dp {
            p[i - dp]
        } else {
            0
        };
        let b = if i >= dq {
            q[i - dq]
        } else {
            0
        };
        r.push(a ^ b);
        i += 1;
        assert(r@ =~= added(p@, q@).take(i as int));
    }
    assert(r@ =~= added(p@, q@));
    r
}

/// Coefficients of `q` beyond its end contribute nothing to a product.
proof fn lemma_partial_product_step(f: Gf, p: Seq<u8>, q: Seq<u8>, i: nat, k: int)
    requires
        i < p.len(),
        !(0 <= k - i < q.len()) || p[i as int] == 0,
    ensures
        partial_product(f, p, q, i + 1, k) == partial_product(f, p, q, i, k),
{
    f.lemma_mul_zero(p[i as int]);
    f.lemma_mul_zero(at(q, k - i));
    xor_cancel(partial_product(f, p, q, i, k), 0);
}

/// The product of two polynomials.
pub fn poly_mul(f: Gf, p: &[u8], q: &[u8]) -> (r: Vec<u8>)
    requires
        1 <= p@.len() + q@.len() <= usize::MAX,
    ensures
        r@ == multiplied(f, p@, q@),
{
    let n: usize = if p.len() == 0 {
        q.len() - 1
    } else {
        (p.len() - 1) + q.len()
    };
    let mut r: Vec<u8> = vec![0u8; n];
    let mut i: usize = 0;
    while i < p.len()
        invariant
            n == p@.len() + q@.len() - 1,
            r@.len() == n,
            i <= p@.len(),
            p@.len() + q@.len() <= usize::MAX,
            forall|k: int|
                0 <= k < n ==> #[trigger] r@[k] == partial_product(f, p@, q@, i as nat, k),
        decreases p.len() - i,
    {
        let pi = p[i];
        let ghost before = r@;
        if pi != 0 {
            let mut j: usize = 0;
            while j < q.len()
                invariant
                    n == p@.len() + q@.len() - 1,
                    r@.len() == n,
                    before.len() == n,
                    i < p@.len(),
                    p@.len() + q@.len() <= usize::MAX,
                    pi == p@[i as int],
                    j <= q@.len(),
                    forall|k: int|
                        0 <= k < n ==> #[trigger] r@[k] == if i <= k < i + j {
                            before[k] ^ f.mul(pi, q@[k - i])
                        } else {
                            before[k]
                        },
                decreases q.len() - j,
            {
                let v = r[i + j] ^ f.product(pi, q[j]);
                r.set(i + j, v);
                j += 1;
            }
        }
        proof {
            assert forall|k: int| 0 <= k < n implies #[trigger] r@[k] == partial_product(
                f,
                p@,
                q@,
                (i + 1) as nat,
                k,
            ) by {
                assert(before[k] == partial_product(f, p@, q@, i as nat, k));
                if !(0 <= k - i < q@.len()) || p@[i as int] == 0 {
                    lemma_partial_product_step(f, p@, q@, i as nat, k);
                }
            }
        }
        i += 1;
    }
    assert(r@ =~= multiplied(f, p@, q@));
    r
}

/// The value of a polynomial at `x`, by Horner's rule.
pub fn poly_eval(f: Gf, p: &[u8], x: u8) -> (y: u8)
    ensures
        y == eval(f, p@, x),
{
    let mut y: u8 = 0;
    let mut i: usize = 0;
    while i < p.len()
        invariant
            i <= p@.len(),
            y == eval(f, p@.take(i as int), x),
        decreases p.len() - i,
    {
        proof {
            assert(p@.take(i + 1).drop_last() =~= p@.take(i as int));
        }
        y = f.product(y, x) ^ p[i];
        i += 1;
    }
    assert(p@.take(i as int) =~= p@);
    y
}

/// Dividing out the leading coefficients one at a time leaves the remainder
/// at the end.
pub proof fn lemma_remainder_short(f: Gf, p: Seq<u8>, g: Seq<u8>)
    requires
        1 <= g.len(),
        g.len() - 1 <= p.len(),
    ensures
        remainder(f, p, g).len() == g.len() - 1,
        quotient(f, p, g).len() == p.len() - (g.len() - 1),
    decreases p.len(),
{
    if p.len() >= g.len() {
        lemma_remainder_short(f, divided_once(f, p, g), g);
    }
}

/// Long division by a monic polynomial: (quotient, remainder).
pub fn poly_div(f: Gf, dividend: &[u8], divisor: &[u8]) -> (r: (Vec<u8>, Vec<u8>))
    requires
        1 <= divisor@.len(),
        divisor@.len() - 1 <= dividend@.len(),
    ensures
        r.0@ == quotient(f, dividend@, divisor@),
        r.1@ == remainder(f, dividend@, divisor@),
        r.1@.len() == divisor@.len() - 1,
{
    let sep = divisor.len() - 1;
    let steps = dividend.len() - sep;
    let mut out: Vec<u8> = copied(dividend);
    let mut i: usize = 0;
    proof {
        assert(out@ =~= dividend@);
        assert(out@.skip(0) =~= out@);
        assert(out@.take(0) + quotient(f, out@, divisor@) =~= quotient(f, dividend@, divisor@));
    }
    while i < steps
        invariant
            sep == divisor@.len() - 1,
            1 <= divisor@.len(),
            steps == dividend@.len() - sep,
            out@.len() == dividend@.len() <= usize::MAX,
            i <= steps,
            remainder(f, out@.skip(i as int), divisor@) == remainder(f, dividend@, divisor@),
            out@.take(i as int) + quotient(f, out@.skip(i as int), divisor@) == quotient(
                f,
                dividend@,
                divisor@,
            ),
        decreases steps - i,
    {
        let coef = out[i];
        let ghost before = out@;
        if coef != 0 {
            let mut j: usize = 1;
            while j < divisor.len()
                invariant
                    1 <= j <= divisor@.len(),
                    sep == divisor@.len() - 1,
                    steps == dividend@.len() - sep,
                    i < steps,
                    out@.len() == dividend@.len() <= usize::MAX,
                    before.len() == dividend@.len(),
                    coef == before[i as int],
                    forall|k: int|
                        0 <= k < out@.len() ==> #[trigger] out@[k] == if i < k < i + j {
                            before[k] ^ f.mul(divisor@[k - i], coef)
                        } else {
                            before[k]
                        },
                decreases divisor.len() - j,
            {
                let v = out[i + j] ^ f.product(divisor[j], coef);
                out.set(i + j, v);
                j += 1;
            }
        }
        proof {
            let tail = before.skip(i as int);
            let next = divided_once(f, tail, divisor@);
            assert(out@.skip(i + 1) =~= next) by {
                assert forall|j: int| 0 <= j < next.len() implies out@[i + 1 + j] == next[j] by {
                    f.lemma_mul_zero(coef);
                    f.lemma_mul_zero(at(divisor@, j + 1));
                    xor_cancel(before[i + 1 + j], 0);
                }
            }
            assert(out@.take(i + 1) + quotient(f, next, divisor@) =~= before.take(i as int) + (seq![
                coef,
            ] + quotient(f, next, divisor@)));
        }
        i += 1;
    }
    proof {
        lemma_remainder_short(f, dividend@, divisor@);
        assert(quotient(f, out@.skip(i as int), divisor@) =~= seq![]);
        assert(out@.take(i as int) =~= quotient(f, dividend@, divisor@));
    }
    let rem = out.split_off(steps);
    (out, rem)
}

/// Values of polynomials over the field are elements.
pub proof fn lemma_eval_has(f: Gf, p: Seq<u8>, x: u8)
    requires
        f.has_all(p),
    ensures
        f.has(eval(f, p, x)),
{
    if p.len() > 0 {
        let t = f.mul(eval(f, p.drop_last(), x), x);
        f.lemma_mul_has(eval(f, p.drop_last(), x), x);
        assert(f.has(p[p.len() - 1]));
        f.lemma_has_xor(t, p.last());
    }
}

/// Appending a coefficient is one step of Horner's rule.
pub proof fn lemma_eval_push(f: Gf, p: Seq<u8>, c: u8, x: u8)
    ensures
        eval(f, p.push(c), x) == f.mul(eval(f, p, x), x) ^ c,
{
    assert(p.push(c).drop_last() =~= p);
}

/// The value of a concatenation.
pub proof fn lemma_eval_concat(f: Gf, p: Seq<u8>, q: Seq<u8>, x: u8)
    requires
        f.has_all(p),
        f.has(x),
    ensures
        eval(f, p + q, x) == f.mul(eval(f, p, x), f.pow(x, q.len())) ^ eval(f, q, x),
    decreases q.len(),
{
    let e = eval(f, p, x);
    lemma_eval_has(f, p, x);
    if q.len() == 0 {
        assert(p + q =~= p);
        f.lemma_mul_one(e);
        xor_cancel(e, 0);
    } else {
        let r = q.drop_last();
        lemma_eval_concat(f, p, r, x);
        assert((p + q).drop_last() =~= p + r);
        let t = f.pow(x, r.len());
        f.lemma_mul_add(x, f.mul(e, t), eval(f, r, x));
        f.lemma_mul_assoc(e, t, x);
        f.lemma_mul_comm(t, x);
        xor_assoc(f.mul(f.mul(e, t), x), f.mul(eval(f, r, x), x), q.last());
    }
}

/// A constant has its own value everywhere.
pub proof fn lemma_eval_constant(f: Gf, c: u8, x: u8)
    ensures
        eval(f, seq![c], x) == c,
{
    let p = Seq::<u8>::empty();
    assert(p.push(c) =~= seq![c]);
    lemma_eval_push(f, p, c, x);
    f.lemma_mul_zero(x);
    xor_cancel(c, 0);
}

/// The zero polynomial vanishes everywhere.
pub proof fn lemma_eval_zeros(f: Gf, n: nat, x: u8)
    ensures
        eval(f, zeros(n), x) == 0,
    decreases n,
{
    if n > 0 {
        lemma_eval_zeros(f, (n - 1) as nat, x);
        assert(zeros(n).drop_last() =~= zeros((n - 1) as nat));
        f.lemma_mul_zero(x);
        xor_cancel(0, 0);
    }
}

/// The value of a scaled polynomial.
pub proof fn lemma_eval_scaled(f: Gf, p: Seq<u8>, c: u8, x: u8)
    ensures
        eval(f, scaled(f, p, c), x) == f.mul(eval(f, p, x), c),
    decreases p.len(),
{
    if p.len() == 0 {
        f.lemma_mul_zero(c);
    } else {
        let q = p.drop_last();
        lemma_eval_scaled(f, q, c, x);
        assert(scaled(f, p, c).drop_last() =~= scaled(f, q, c));
        let e = eval(f, q, x);
        f.lemma_mul_add(c, f.mul(e, x), p.last());
        f.lemma_mul_assoc(e, c, x);
        f.lemma_mul_comm(c, x);
        f.lemma_mul_assoc(e, x, c);
    }
}

/// The value of a sum.
pub proof fn lemma_eval_added(f: Gf, p: Seq<u8>, q: Seq<u8>, x: u8)
    ensures
        eval(f, added(p, q), x) == eval(f, p, x) ^ eval(f, q, x),
    decreases p.len() + q.len(),
{
    let s = added(p, q);
    if p.len() == 0 {
        assert(s =~= q) by {
            assert forall|i: int| 0 <= i < s.len() implies s[i] == q[i] by {
                xor_cancel(q[i], 0);
            }
        }
        xor_cancel(eval(f, q, x), 0);
    } else if q.len() == 0 {
        assert(s =~= p) by {
            assert forall|i: int| 0 <= i < s.len() implies s[i] == p[i] by {
                xor_cancel(p[i], 0);
            }
        }
        xor_cancel(eval(f, p, x), 0);
    } else {
        let (a, b) = (p.drop_last(), q.drop_last());
        lemma_eval_added(f, a, b, x);
        assert(s.drop_last() =~= added(a, b));
        let (u, v) = (eval(f, a, x), eval(f, b, x));
        f.lemma_mul_add(x, u, v);
        xor_swap(f.mul(u, x), f.mul(v, x), p.last(), q.last());
    }
}

/// Multiplying by the linear polynomial with coefficients `a`, `b`.
pub proof fn lemma_multiplied_linear(f: Gf, p: Seq<u8>, a: u8, b: u8)
    requires
        p.len() >= 1,
    ensures
        multiplied(f, p, linear(a, b)).len() == p.len() + 1,
        forall|k: int|
            0 <= k <= p.len() ==> #[trigger] multiplied(f, p, linear(a, b))[k] == f.mul(at(p, k), a)
                ^ f.mul(at(p, k - 1), b),
{
    let q = linear(a, b);
    let m = multiplied(f, p, q);
    assert forall|k: int| 0 <= k <= p.len() implies #[trigger] m[k] == f.mul(at(p, k), a) ^ f.mul(
        at(p, k - 1),
        b,
    ) by {
        lemma_partial_linear(f, p, a, b, p.len(), k);
    }
}

proof fn lemma_partial_linear(f: Gf, p: Seq<u8>, a: u8, b: u8, i: nat, k: int)
    requires
        i <= p.len(),
    ensures
        partial_product(f, p, linear(a, b), i, k) == f.mul(at(p.take(i as int), k), a) ^ f.mul(
            at(p.take(i as int), k - 1),
            b,
        ),
        i == p.len() ==> p.take(i as int) == p,
    decreases i,
{
    let q = linear(a, b);
    f.lemma_mul_zero(a);
    f.lemma_mul_zero(b);
    xor_cancel(0, 0);
    if i == p.len() {
        assert(p.take(i as int) =~= p);
    }
    if i > 0 {
        let j = (i - 1) as nat;
        lemma_partial_linear(f, p, a, b, j, k);
        let w = partial_product(f, p, q, j, k);
        f.lemma_mul_zero(p[j as int]);
        xor_cancel(w, 0);
        xor_cancel(f.mul(p[j as int], a), 0);
        xor_cancel(f.mul(p[j as int], b), 0);
        if k == j {
            xor_comm(w, f.mul(p[j as int], a));
            if k >= 1 {
                assert(at(p.take(i as int), k - 1) == at(p.take(j as int), k - 1));
            }
            assert(w == f.mul(at(p.take(j as int), k - 1), b)) by {
                xor_cancel(f.mul(at(p.take(j as int), k - 1), b), 0);
            }
        } else if k == j + 1 {
        } else {
            assert(at(p.take(i as int), k) == at(p.take(j as int), k));
            assert(at(p.take(i as int), k - 1) == at(p.take(j as int), k - 1));
        }
    }
}

/// The value of a product with a linear polynomial.
pub proof fn lemma_eval_times_linear(f: Gf, p: Seq<u8>, a: u8, b: u8, x: u8)
    requires
        p.len() >= 1,
    ensures
        eval(f, multiplied(f, p, linear(a, b)), x) == f.mul(eval(f, p, x), f.mul(a, x) ^ b),
{
    let m = multiplied(f, p, linear(a, b));
    let (u, v) = (scaled(f, p, a).push(0), scaled(f, p, b));
    lemma_multiplied_linear(f, p, a, b);
    assert(m =~= added(u, v)) by {
        assert forall|k: int| 0 <= k <= p.len() implies m[k] == added(u, v)[k] by {
            f.lemma_mul_zero(a);
            f.lemma_mul_zero(b);
        }
    }
    lemma_eval_added(f, u, v, x);
    lemma_eval_push(f, scaled(f, p, a), 0, x);
    lemma_eval_scaled(f, p, a, x);
    lemma_eval_scaled(f, p, b, x);
    let e = eval(f, p, x);
    xor_cancel(f.mul(f.mul(e, a), x), 0);
    f.lemma_mul_assoc(e, a, x);
    f.lemma_mul_add(e, f.mul(a, x), b);
}

/// Long division leaves the value at every root of the divisor unchanged.
pub proof fn lemma_remainder_at_root(f: Gf, p: Seq<u8>, g: Seq<u8>, x: u8)
    requires
        1 <= g.len(),
        g[0] == 1,
        f.has_all(p),
        f.has_all(g),
        f.has(x),
        eval(f, g, x) == 0,
    ensures
        eval(f, remainder(f, p, g), x) == eval(f, p, x),
        f.has_all(remainder(f, p, g)),
    decreases p.len(),
{
    if p.len() >= g.len() {
        let next = divided_once(f, p, g);
        let c = p[0];
        let rest = p.skip(1);
        let tail = g.skip(1);
        let k = (p.len() - g.len()) as nat;
        let sub = scaled(f, tail + zeros(k), c);
        assert(next =~= added(rest, sub)) by {
            assert forall|j: int| 0 <= j < next.len() implies next[j] == added(rest, sub)[j] by {
                assert(at(rest, j) == p[j + 1]);
                assert((tail + zeros(k))[j] == at(g, j + 1));
                assert(sub[j] == f.mul(at(g, j + 1), c));
            }
        }
        lemma_eval_added(f, rest, sub, x);
        lemma_eval_scaled(f, tail + zeros(k), c, x);
        // The scaled divisor, shifted into place, vanishes at the root.
        assert forall|i: int| 0 <= i < tail.len() implies f.has(#[trigger] tail[i]) by {
            assert(tail[i] == g[i + 1]);
        }
        lemma_eval_concat(f, tail, zeros(k), x);
        lemma_eval_zeros(f, k, x);
        let (et, xk) = (eval(f, tail, x), f.pow(x, k));
        xor_cancel(f.mul(et, xk), 0);
        let lead = seq![1u8];
        assert(g =~= lead + tail);
        assert(f.has_all(lead));
        lemma_eval_concat(f, lead, tail, x);
        lemma_eval_constant(f, 1, x);
        let xt = f.pow(x, tail.len());
        f.lemma_pow_has(x, tail.len());
        f.lemma_mul_one(xt);
        xor_cancel(xt, et);
        assert(et == xt);
        // The value of the dividend splits the same way.
        let first = seq![c];
        assert(p =~= first + rest);
        assert(f.has_all(first)) by {
            assert(f.has(p[0]));
        }
        lemma_eval_concat(f, first, rest, x);
        lemma_eval_constant(f, c, x);
        f.lemma_pow_add(x, tail.len(), k);
        f.lemma_mul_comm(f.mul(et, xk), c);
        xor_comm(eval(f, rest, x), eval(f, sub, x));
        assert(eval(f, next, x) == eval(f, p, x));
        assert forall|j: int| 0 <= j < next.len() implies f.has(#[trigger] next[j]) by {
            assert(f.has(p[j + 1]));
            f.lemma_mul_has(at(g, j + 1), p[0]);
            f.lemma_has_xor(p[j + 1], f.mul(at(g, j + 1), p[0]));
        }
        lemma_remainder_at_root(f, next, g, x);
    }
}

/// The part of a coefficient of the product that the leading coefficient
/// contributes, and the rest.
proof fn lemma_partial_leading(f: Gf, c: u8, p: Seq<u8>, q: Seq<u8>, i: nat, k: int)
    requires
        i <= p.len(),
    ensures
        partial_product(f, seq![c] + p, q, i + 1, k) == f.mul(c, at(q, k)) ^ partial_product(
            f,
            p,
            q,
            i,
            k - 1,
        ),
    decreases i,
{
    let all = seq![c] + p;
    let first = f.mul(c, at(q, k));
    if i == 0 {
        assert(partial_product(f, all, q, 0, k) == 0);
        assert(all[0] == c);
        xor_comm(0, first);
    } else {
        let j = (i - 1) as nat;
        lemma_partial_leading(f, c, p, q, j, k);
        assert(all[i as int] == p[i - 1]);
        let next = f.mul(p[i - 1], at(q, k - i));
        xor_assoc(first, partial_product(f, p, q, j, k - 1), next);
    }
}

/// Nothing contributes to coefficients before the first.
proof fn lemma_partial_before(f: Gf, p: Seq<u8>, q: Seq<u8>, i: nat, k: int)
    requires
        k < 0,
        i <= p.len(),
        f.has_all(p),
    ensures
        partial_product(f, p, q, i, k) == 0,
    decreases i,
{
    if i > 0 {
        lemma_partial_before(f, p, q, (i - 1) as nat, k);
        f.lemma_mul_zero(p[i - 1]);
        xor_cancel(0, 0);
    }
}

/// A step of long division stays in the field.
proof fn lemma_divided_has(f: Gf, p: Seq<u8>, g: Seq<u8>)
    requires
        f.has_all(p),
        f.has_all(g),
        p.len() >= 1,
    ensures
        f.has_all(divided_once(f, p, g)),
{
    let d = divided_once(f, p, g);
    assert forall|j: int| 0 <= j < d.len() implies f.has(#[trigger] d[j]) by {
        assert(f.has(p[j + 1]));
        f.lemma_mul_has(at(g, j + 1), p[0]);
        f.lemma_has_xor(p[j + 1], f.mul(at(g, j + 1), p[0]));
    }
}

/// The coefficients of a quotient lie in the field.
proof fn lemma_quotient_has(f: Gf, p: Seq<u8>, g: Seq<u8>)
    requires
        f.has_all(p),
        f.has_all(g),
    ensures
        f.has_all(quotient(f, p, g)),
    decreases p.len(),
{
    if p.len() > 0 && p.len() >= g.len() {
        let d = divided_once(f, p, g);
        lemma_divided_has(f, p, g);
        lemma_quotient_has(f, d, g);
        let q = quotient(f, p, g);
        assert forall|j: int| 0 <= j < q.len() implies f.has(#[trigger] q[j]) by {
            if j > 0 {
                assert(q[j] == quotient(f, d, g)[j - 1]);
            }
        }
    }
}

/// Division, coefficient by coefficient.
proof fn lemma_division(f: Gf, p: Seq<u8>, g: Seq<u8>, k: int)
    requires
        f.has_all(p),
        f.has_all(g),
        1 <= g.len(),
        g[0] == 1,
        g.len() - 1 <= p.len(),
        0 <= k < p.len(),
    ensures
        ({
            let (q, r) = (quotient(f, p, g), remainder(f, p, g));
            partial_product(f, q, g, q.len(), k) ^ at(r, k - (p.len() - r.len())) == p[k]
        }),
    decreases p.len(),
{
    let (q, r) = (quotient(f, p, g), remainder(f, p, g));
    if p.len() < g.len() {
        assert(q.len() == 0);
        xor_comm(0, p[k]);
        xor_cancel(p[k], 0);
    } else {
        let d = divided_once(f, p, g);
        let t = quotient(f, d, g);
        lemma_divided_has(f, p, g);
        lemma_quotient_has(f, d, g);
        lemma_remainder_short(f, p, g);
        lemma_partial_leading(f, p[0], t, g, t.len(), k);
        assert(q == seq![p[0]] + t);
        let first = f.mul(p[0], at(g, k));
        if k == 0 {
            lemma_partial_before(f, t, g, t.len(), -1);
            f.lemma_mul_one(p[0]);
            xor_cancel(p[0], 0);
            assert(at(r, k - (p.len() - r.len())) == 0);
        } else {
            lemma_division(f, d, g, k - 1);
            let rest = partial_product(f, t, g, t.len(), k - 1);
            let low = at(r, k - (p.len() - r.len()));
            assert(rest ^ low == d[k - 1]);
            f.lemma_mul_comm(p[0], at(g, k));
            xor_assoc(first, rest, low);
            xor_comm(first, d[k - 1]);
            xor_cancel(p[k], first);
        }
    }
}

/// Long division by a monic polynomial is division: the divisor times the
/// quotient, plus the remainder, is the dividend, and the remainder is shorter
/// than the divisor.
pub proof fn law_division(f: Gf, p: Seq<u8>, g: Seq<u8>)
    requires
        f.has_all(p),
        f.has_all(g),
        1 <= g.len() <= p.len(),
        g[0] == 1,
    ensures
        remainder(f, p, g).len() == g.len() - 1,
        quotient(f, p, g).len() == p.len() - (g.len() - 1),
        added(multiplied(f, quotient(f, p, g), g), remainder(f, p, g)) == p,
{
    let (q, r) = (quotient(f, p, g), remainder(f, p, g));
    lemma_remainder_short(f, p, g);
    let product = multiplied(f, q, g);
    let sum = added(product, r);
    assert(product.len() == p.len());
    assert forall|k: int| 0 <= k < p.len() implies sum[k] == p[k] by {
        lemma_division(f, p, g, k);
    }
    assert(sum =~= p);
}

} // verus!
