//! Positional notation: numbers as sequences of digits, the most significant
//! first.
use vstd::arithmetic::div_mod::{lemma_fundamental_div_mod, lemma_fundamental_div_mod_converse};
use vstd::prelude::*;

verus! {

/// The number that the digits `d` write to the base `base`.
pub open spec fn value(d: Seq<u8>, base: nat) -> nat
    decreases d.len(),
{
    if d.len() == 0 {
        0
    } else {
        value(d.drop_last(), base) * base + d.last() as nat
    }
}

/// The number of values that `n` digits can take.
pub open spec fn power(base: nat, n: nat) -> nat
    decreases n,
{
    if n == 0 {
        1
    } else {
        power(base, (n - 1) as nat) * base
    }
}

/// The last `n` digits of `v` to the base `base`.
pub open spec fn digits(v: nat, base: nat, n: nat) -> Seq<u8>
    decreases n,
{
    if n == 0 {
        seq![]
    } else {
        digits(v / base, base, (n - 1) as nat).push((v % base) as u8)
    }
}

/// Whether every entry is a digit to the base `base`.
pub open spec fn all_digits(d: Seq<u8>, base: nat) -> bool {
    forall|i: int| 0 <= i < d.len() ==> (#[trigger] d[i] as nat) < base
}

/// The digits of a number are digits, and as many as asked for.
pub proof fn lemma_digits_shape(v: nat, base: nat, n: nat)
    requires
        1 <= base <= 256,
    ensures
        digits(v, base, n).len() == n,
        all_digits(digits(v, base, n), base),
    decreases n,
{
    if n > 0 {
        lemma_digits_shape(v / base, base, (n - 1) as nat);
        assert(v % base < base) by (nonlinear_arith)
            requires
                base >= 1,
        ;
    }
}

/// A number that fits is the value of its digits.
pub proof fn lemma_value_of_digits(v: nat, base: nat, n: nat)
    requires
        1 <= base <= 256,
        v < power(base, n),
    ensures
        value(digits(v, base, n), base) == v,
    decreases n,
{
    if n > 0 {
        let m = (n - 1) as nat;
        let q = v / base;
        let p = power(base, m);
        lemma_fundamental_div_mod(v as int, base as int);
        assert(q < p && v % base < 256) by (nonlinear_arith)
            requires
                v == base * q + v % base,
                v < p * base,
                0 <= v % base < base <= 256,
        ;
        lemma_value_of_digits(q, base, m);
        assert(digits(v, base, n).drop_last() =~= digits(q, base, m));
        assert(q * base == base * q) by (nonlinear_arith);
    }
}

/// Digits are those of their value.
pub proof fn lemma_digits_of_value(d: Seq<u8>, base: nat)
    requires
        1 <= base <= 256,
        all_digits(d, base),
    ensures
        digits(value(d, base), base, d.len()) == d,
        value(d, base) < power(base, d.len()),
    decreases d.len(),
{
    if d.len() > 0 {
        let e = d.drop_last();
        assert(all_digits(e, base));
        assert(d[d.len() - 1] < base);
        lemma_digits_of_value(e, base);
        let (q, r, v) = (value(e, base), d.last() as nat, value(d, base));
        let p = power(base, e.len());
        lemma_fundamental_div_mod_converse(v as int, base as int, q as int, r as int);
        assert(v < p * base) by (nonlinear_arith)
            requires
                v == q * base + r,
                r < base,
                q < p,
        ;
        assert(digits(v, base, d.len()) =~= d);
    } else {
        assert(digits(value(d, base), base, 0) =~= d);
    }
}

/// Splitting off leading digits.
pub proof fn lemma_value_concat(a: Seq<u8>, b: Seq<u8>, base: nat)
    ensures
        value(a + b, base) == value(a, base) * power(base, b.len()) + value(b, base),
    decreases b.len(),
{
    if b.len() == 0 {
        assert(a + b =~= a);
        assert(value(a, base) * 1 == value(a, base)) by (nonlinear_arith);
    } else {
        let c = b.drop_last();
        lemma_value_concat(a, c, base);
        assert((a + b).drop_last() =~= a + c);
        let (x, y, p, r) = (value(a, base), value(c, base), power(base, c.len()), b.last() as nat);
        assert((x * p + y) * base + r == x * (p * base) + (y * base + r)) by (nonlinear_arith);
    }
}

/// The powers of the bases in use.
pub proof fn lemma_powers()
    ensures
        power(2, 4) == 16,
        power(2, 8) == 256,
        power(256, 1) == 0x100,
        power(256, 2) == 0x1_0000,
        power(256, 4) == 0x1_0000_0000,
        power(256, 16) == u128::MAX + 1,
{
    reveal_with_fuel(power, 17);
}

/// Powers grow with their exponents.
pub proof fn lemma_power_monotonic(base: nat, m: nat, n: nat)
    requires
        base >= 1,
        m <= n,
    ensures
        1 <= power(base, m) <= power(base, n),
    decreases n,
{
    if n > 0 {
        let k = (n - 1) as nat;
        if m == n {
            lemma_power_monotonic(base, k, k);
        } else {
            lemma_power_monotonic(base, m, k);
        }
        let p = power(base, k);
        assert(p <= p * base && 1 <= p * base) by (nonlinear_arith)
            requires
                p >= 1,
                base >= 1,
        ;
    }
}

/// Exponents add up.
pub proof fn lemma_power_add(base: nat, m: nat, n: nat)
    ensures
        power(base, m + n) == power(base, m) * power(base, n),
    decreases n,
{
    if n == 0 {
        assert(power(base, m) * 1 == power(base, m)) by (nonlinear_arith);
    } else {
        let k = (n - 1) as nat;
        lemma_power_add(base, m, k);
        let (a, b) = (power(base, m), power(base, k));
        assert((a * b) * base == a * (b * base)) by (nonlinear_arith);
    }
}

/// The number that digits write.
pub fn from_digits(d: &[u8], base: u16) -> (v: u128)
    requires
        1 <= base <= 256,
        all_digits(d@, base as nat),
        power(base as nat, d@.len()) <= u128::MAX + 1,
    ensures
        v == value(d@, base as nat),
{
    let mut v: u128 = 0;
    let mut i: usize = 0;
    while i < d.len()
        invariant
            i <= d@.len(),
            1 <= base <= 256,
            all_digits(d@, base as nat),
            power(base as nat, d@.len()) <= u128::MAX + 1,
            v == value(d@.take(i as int), base as nat),
        decreases d.len() - i,
    {
        proof {
            let t = d@.take(i + 1);
            assert(t.drop_last() =~= d@.take(i as int));
            assert(all_digits(t, base as nat));
            lemma_digits_of_value(t, base as nat);
            lemma_power_monotonic(base as nat, (i + 1) as nat, d@.len());
            assert(value(t, base as nat) == v * base + d@[i as int]);
        }
        assert(v * base <= u128::MAX);
        v = v * base as u128 + d[i] as u128;
        i += 1;
    }
    assert(d@.take(i as int) =~= d@);
    v
}

/// The last `n` digits of a number.
pub fn to_digits(v: u128, base: u16, n: usize) -> (d: Vec<u8>)
    requires
        2 <= base <= 256,
    ensures
        d@ == digits(v as nat, base as nat, n as nat),
        d@.len() == n,
{
    let mut d: Vec<u8> = Vec::new();
    let mut i: usize = 0;
    while i < n
        invariant
            i <= n,
            d@ == zeros_of(i as nat),
        decreases n - i,
    {
        d.push(0);
        i += 1;
        assert(d@ =~= zeros_of(i as nat));
    }
    let mut rest: u128 = v;
    let ghost all = digits(v as nat, base as nat, n as nat);
    proof {
        lemma_digits_shape(v as nat, base as nat, n as nat);
        assert(all.take(n as int) =~= all);
    }
    while i > 0
        invariant
            i <= n,
            2 <= base <= 256,
            d@.len() == n,
            all.len() == n,
            all.take(i as int) == digits(rest as nat, base as nat, i as nat),
            forall|k: int| i <= k < n ==> #[trigger] d@[k] == all[k],
        decreases i,
    {
        i -= 1;
        let r: u128 = rest % (base as u128);
        proof {
            let t = digits(rest as nat, base as nat, (i + 1) as nat);
            assert(all[i as int] == all.take(i + 1)[i as int]);
            assert(t.drop_last() =~= all.take(i as int));
            lemma_digits_shape((rest as nat) / (base as nat), base as nat, i as nat);
            assert(t.drop_last() =~= digits((rest as nat) / (base as nat), base as nat, i as nat));
        }
        d.set(i, r as u8);
        rest = rest / (base as u128);
    }
    assert(d@ =~= all);
    d
}

spec fn zeros_of(n: nat) -> Seq<u8> {
    Seq::new(n, |i: int| 0u8)
}

} // verus!
