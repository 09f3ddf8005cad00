//! Systematic Reed-Solomon codes with errors-and-erasures decoding, over
//! either symbol field. The code's generator has the roots `2^0 .. 2^(nsym-1)`.
use crate::field::{xor_cancel, Gf};
use crate::linear::{dot, lemma_dot_has};
use crate::poly::{
    added, at, eval, linear, multiplied, poly_add, poly_div, poly_eval, poly_mul, poly_scale,
    remainder, scaled, zeros,
};
use crate::seqs::{copied, prefix, reversed};
use vstd::prelude::*;

verus! {

/// The generator polynomial: the product of `x - 2^i` for `i < nsym`.
pub open spec fn generator(f: Gf, nsym: nat) -> Seq<u8>
    decreases nsym,
{
    if nsym == 0 {
        seq![1]
    } else {
        multiplied(f, generator(f, (nsym - 1) as nat), linear(1, f.alpha((nsym - 1) as nat)))
    }
}

/// The systematic codeword of `data`: the data, then the remainder of the
/// shifted data by the generator.
pub open spec fn encoded(f: Gf, data: Seq<u8>, nsym: nat) -> Seq<u8> {
    data + remainder(f, data + zeros(nsym), generator(f, nsym))
}

/// The values of a received word at the generator's roots.
pub open spec fn syndromes(f: Gf, msg: Seq<u8>, nsym: nat) -> Seq<u8> {
    Seq::new(nsym, |i: int| eval(f, msg, f.alpha(i as nat)))
}

/// Whether every entry is zero.
pub open spec fn all_zero(s: Seq<u8>) -> bool {
    forall|i: int| 0 <= i < s.len() ==> #[trigger] s[i] == 0
}

/// Whether `msg` is a word of the code.
pub open spec fn is_codeword(f: Gf, msg: Seq<u8>, nsym: nat) -> bool {
    all_zero(syndromes(f, msg, nsym))
}

/// The locator of position `p` in a word of length `n`.
pub open spec fn locator(f: Gf, n: nat, p: int) -> u8 {
    f.alpha((n - 1 - p) as nat)
}

/// The locators of a list of positions.
pub open spec fn locators(f: Gf, n: nat, pos: Seq<usize>) -> Seq<u8> {
    Seq::new(pos.len(), |i: int| locator(f, n, pos[i] as int))
}

/// A word with the symbols at the positions `pos` replaced by zero.
pub open spec fn erased(msg: Seq<u8>, pos: Seq<usize>) -> Seq<u8> {
    Seq::new(msg.len(), |i: int| if pos.contains(i as usize) { 0 } else { msg[i] })
}

/// Syndromes with the influence of one known locator removed. Each such step
/// spends one syndrome: the last entry is left as it was.
pub open spec fn without_locator(f: Gf, t: Seq<u8>, x: u8) -> Seq<u8> {
    Seq::new(
        t.len(),
        |j: int|
            if j + 1 < t.len() {
                f.mul(t[j], x) ^ t[j + 1]
            } else {
                t[j]
            },
    )
}

/// Syndromes with the influence of all the known locators removed.
pub open spec fn forney(f: Gf, t: Seq<u8>, xs: Seq<u8>) -> Seq<u8>
    decreases xs.len(),
{
    if xs.len() == 0 {
        t
    } else {
        without_locator(f, forney(f, t, xs.drop_last()), xs.last())
    }
}

/// How far the linear recurrence `loc` is from predicting `t[k]` from the
/// entries before it.
pub open spec fn discrepancy(f: Gf, loc: Seq<u8>, t: Seq<u8>, k: int) -> u8 {
    dot(f, loc, t.subrange(k + 1 - loc.len(), k + 1))
}

/// The state of the Berlekamp-Massey synthesis.
pub struct Synthesis {
    /// The current recurrence.
    pub cur: Seq<u8>,
    /// The recurrence before its last lengthening, shifted once per step
    /// since, and scaled to miss by one.
    pub old: Seq<u8>,
}

/// One step of the synthesis, on entry `k` of `t`.
pub open spec fn synthesis_step(f: Gf, s: Synthesis, t: Seq<u8>, k: int) -> Synthesis {
    let d = discrepancy(f, s.cur, t, k);
    let old = s.old.push(0);
    if d == 0 {
        Synthesis { cur: s.cur, old }
    } else {
        Synthesis {
            cur: added(s.cur, scaled(f, old, d)),
            old: if old.len() > s.cur.len() {
                scaled(f, s.cur, f.inv(d))
            } else {
                old
            },
        }
    }
}

/// The recurrence found for the first `i` entries of `t`.
pub open spec fn synthesis(f: Gf, t: Seq<u8>, i: nat) -> Synthesis
    decreases i,
{
    if i == 0 {
        Synthesis { cur: seq![1], old: seq![1] }
    } else {
        synthesis_step(f, synthesis(f, t, (i - 1) as nat), t, i - 1)
    }
}

/// A polynomial without its leading zeros.
pub open spec fn stripped(p: Seq<u8>) -> Seq<u8>
    decreases p.len(),
{
    if p.len() > 0 && p[0] == 0 {
        stripped(p.skip(1))
    } else {
        p
    }
}

/// The locator polynomial of the unknown errors, unless it claims more errors
/// than the code can take on.
pub open spec fn error_locator(f: Gf, t: Seq<u8>, nsym: nat, erasures: nat) -> Option<Seq<u8>> {
    let loc = stripped(synthesis(f, t, if nsym >= erasures { (nsym - erasures) as nat } else { 0 }).cur);
    if (loc.len() - 1 - erasures) * 2 + erasures > nsym {
        None
    } else {
        Some(loc)
    }
}

/// The positions, among the last `i` of `n`, whose locators are roots of `p`,
/// from the right.
pub open spec fn root_positions(f: Gf, p: Seq<u8>, n: nat, i: nat) -> Seq<usize>
    decreases i,
{
    if i == 0 {
        seq![]
    } else {
        let before = root_positions(f, p, n, (i - 1) as nat);
        if eval(f, p, f.alpha((i - 1) as nat)) == 0 {
            before.push((n - i) as usize)
        } else {
            before
        }
    }
}

/// The polynomial with the roots `1/x` for `x` in `xs` and the constant one.
pub open spec fn errata_polynomial(f: Gf, xs: Seq<u8>) -> Seq<u8>
    decreases xs.len(),
{
    if xs.len() == 0 {
        seq![1]
    } else {
        multiplied(f, errata_polynomial(f, xs.drop_last()), linear(xs.last(), 1))
    }
}

/// The evaluator polynomial: `x` times the product of the syndrome
/// polynomial with `loc`, without the terms of a higher degree than `loc` has.
pub open spec fn evaluator(f: Gf, synd: Seq<u8>, loc: Seq<u8>) -> Seq<u8> {
    let product = multiplied(f, (seq![0u8] + synd).reverse(), loc);
    product.skip(product.len() - loc.len())
}

/// The product of `1 - z * xs[j]` over the first `n` entries other than `i`.
pub open spec fn other_distances(f: Gf, xs: Seq<u8>, z: u8, i: int, n: nat) -> u8
    decreases n,
{
    if n == 0 {
        1
    } else {
        let rest = other_distances(f, xs, z, i, (n - 1) as nat);
        if n - 1 == i {
            rest
        } else {
            f.mul(rest, 1 ^ f.mul(z, xs[n - 1]))
        }
    }
}

/// The quotient, where the divisor is not zero, and the dividend otherwise.
pub open spec fn quotient_or(f: Gf, a: u8, b: u8) -> u8 {
    if b == 0 {
        a
    } else {
        f.mul(a, f.inv(b))
    }
}

/// The error value at the `i`-th locator, by Forney's formula.
pub open spec fn magnitude(f: Gf, synd: Seq<u8>, xs: Seq<u8>, i: int) -> u8 {
    let z = f.inv(xs[i]);
    let omega = evaluator(f, synd, errata_polynomial(f, xs));
    quotient_or(f, f.mul(xs[i], eval(f, omega, z)), other_distances(f, xs, z, i, xs.len()))
}

/// The error values of the first `k` positions, laid out over a word.
pub open spec fn errata(f: Gf, synd: Seq<u8>, pos: Seq<usize>, n: nat, k: nat) -> Seq<u8>
    decreases k,
{
    if k == 0 {
        zeros(n)
    } else {
        errata(f, synd, pos, n, (k - 1) as nat).update(
            pos[k - 1] as int,
            magnitude(f, synd, locators(f, n, pos), k - 1),
        )
    }
}

/// A word with the errata at the positions `pos` taken off.
pub open spec fn corrected(f: Gf, msg: Seq<u8>, synd: Seq<u8>, pos: Seq<usize>) -> Seq<u8> {
    added(msg, errata(f, synd, pos, msg.len(), pos.len()))
}

/// Whether a count of errors at unknown positions is within the cap.
pub open spec fn within(errors: nat, max_errors: Option<usize>) -> bool {
    match max_errors {
        Some(cap) => errors <= cap,
        None => true,
    }
}

/// What decoding makes of a word whose erased symbols are already zero: the
/// corrected codeword, if one is found.
pub open spec fn repaired(
    f: Gf,
    msg: Seq<u8>,
    nsym: nat,
    erasures: Seq<usize>,
    max_errors: Option<usize>,
) -> Option<Seq<u8>> {
    let synd = syndromes(f, msg, nsym);
    if all_zero(synd) {
        Some(msg)
    } else {
        let t = forney(f, synd, locators(f, msg.len(), erasures));
        match error_locator(f, t, nsym, erasures.len()) {
            None => None,
            Some(loc) => {
                let pos = root_positions(f, loc.reverse(), msg.len(), msg.len());
                if pos.len() != loc.len() - 1 || !within(pos.len(), max_errors) {
                    None
                } else {
                    let word = corrected(f, msg, synd, erasures + pos);
                    if is_codeword(f, word, nsym) {
                        Some(word)
                    } else {
                        None
                    }
                }
            },
        }
    }
}

/// What decoding makes of a received word: the corrected codeword, if one is
/// found.
pub open spec fn decoded(
    f: Gf,
    msg: Seq<u8>,
    nsym: nat,
    erasures: Seq<usize>,
    max_errors: Option<usize>,
) -> Option<Seq<u8>> {
    if erasures.len() > nsym {
        None
    } else {
        repaired(f, erased(msg, erasures), nsym, erasures, max_errors)
    }
}

impl Gf {
    /// The `i`-th power of the generator.
    pub fn alpha_power(self, i: usize) -> (r: u8)
        ensures
            r == self.alpha(i as nat),
    {
        proof {
            self.lemma_pow_mod(2, i as nat);
        }
        let m: usize = match self {
            Gf::Nibble => 15,
            Gf::Byte => 255,
        };
        self.power(2, (i % m) as u32)
    }

    /// The quotient of two elements; the dividend where the divisor is zero.
    fn divide_or(self, a: u8, b: u8) -> (r: u8)
        requires
            self.has(b),
        ensures
            r == quotient_or(self, a, b),
    {
        if b == 0 {
            a
        } else {
            self.product(a, self.inverse(b))
        }
    }
}

/// The generator polynomial of the code with `nsym` parity symbols.
pub fn generator_poly(f: Gf, nsym: usize) -> (g: Vec<u8>)
    requires
        nsym + 3 <= usize::MAX,
    ensures
        g@ == generator(f, nsym as nat),
        g@.len() == nsym + 1,
{
    let mut g: Vec<u8> = vec![1u8];
    let mut i: usize = 0;
    assert(g@ =~= seq![1u8]);
    while i < nsym
        invariant
            i <= nsym,
            nsym + 3 <= usize::MAX,
            g@ == generator(f, i as nat),
            g@.len() == i + 1,
        decreases nsym - i,
    {
        let root: Vec<u8> = vec![1u8, f.alpha_power(i)];
        assert(root@ =~= linear(1, f.alpha(i as nat)));
        g = poly_mul(f, &g, &root);
        i += 1;
    }
    g
}

/// Systematic encoding: the data, then `nsym` parity symbols.
pub fn rs_encode_in(f: Gf, data: &[u8], nsym: usize) -> (code: Vec<u8>)
    requires
        data@.len() + nsym + 3 <= usize::MAX,
    ensures
        code@ == encoded(f, data@, nsym as nat),
        code@.len() == data@.len() + nsym,
{
    let g = generator_poly(f, nsym);
    let mut padded: Vec<u8> = copied(data);
    let mut i: usize = 0;
    assert(padded@ =~= data@ + zeros(0));
    while i < nsym
        invariant
            i <= nsym,
            padded@ == data@ + zeros(i as nat),
        decreases nsym - i,
    {
        padded.push(0);
        i += 1;
        assert(padded@ =~= data@ + zeros(i as nat));
    }
    let (_, mut rem) = poly_div(f, &padded, &g);
    let mut code: Vec<u8> = copied(data);
    code.append(&mut rem);
    code
}

/// The syndromes of a word.
pub fn calc_syndromes(f: Gf, msg: &[u8], nsym: usize) -> (s: Vec<u8>)
    ensures
        s@ == syndromes(f, msg@, nsym as nat),
{
    let mut s: Vec<u8> = Vec::new();
    let mut i: usize = 0;
    while i < nsym
        invariant
            i <= nsym,
            s@ == syndromes(f, msg@, i as nat),
        decreases nsym - i,
    {
        s.push(poly_eval(f, msg, f.alpha_power(i)));
        i += 1;
        assert(s@ =~= syndromes(f, msg@, i as nat));
    }
    assert(s@ =~= syndromes(f, msg@, nsym as nat));
    s
}

/// Whether every entry is zero.
fn is_zero(s: &[u8]) -> (b: bool)
    ensures
        b == all_zero(s@),
{
    let mut i: usize = 0;
    while i < s.len()
        invariant
            i <= s@.len(),
            forall|k: int| 0 <= k < i ==> #[trigger] s@[k] == 0,
        decreases s.len() - i,
    {
        if s[i] != 0 {
            return false;
        }
        i += 1;
    }
    true
}

/// The errata polynomial of the given locators.
pub fn errata_locator(f: Gf, xs: &[u8]) -> (loc: Vec<u8>)
    requires
        xs@.len() + 3 <= usize::MAX,
    ensures
        loc@ == errata_polynomial(f, xs@),
        loc@.len() == xs@.len() + 1,
{
    let mut loc: Vec<u8> = vec![1u8];
    let mut i: usize = 0;
    assert(loc@ =~= seq![1u8]);
    assert(xs@.take(0) =~= seq![]);
    while i < xs.len()
        invariant
            i <= xs@.len(),
            xs@.len() + 3 <= usize::MAX,
            loc@ == errata_polynomial(f, xs@.take(i as int)),
            loc@.len() == i + 1,
        decreases xs.len() - i,
    {
        let factor: Vec<u8> = vec![xs[i], 1u8];
        assert(factor@ =~= linear(xs@[i as int], 1));
        assert(xs@.take(i + 1).drop_last() =~= xs@.take(i as int));
        loc = poly_mul(f, &loc, &factor);
        i += 1;
    }
    assert(xs@.take(i as int) =~= xs@);
    loc
}

/// The evaluator polynomial of the given syndromes and errata polynomial.
pub fn error_evaluator(f: Gf, synd: &[u8], loc: &[u8]) -> (omega: Vec<u8>)
    requires
        synd@.len() + loc@.len() + 2 <= usize::MAX,
        loc@.len() >= 1,
    ensures
        omega@ == evaluator(f, synd@, loc@),
        omega@.len() == loc@.len(),
{
    let mut shifted: Vec<u8> = vec![0u8];
    let mut rest = copied(synd);
    shifted.append(&mut rest);
    assert(shifted@ =~= seq![0u8] + synd@);
    let rev = reversed(&shifted);
    let mut product = poly_mul(f, &rev, loc);
    let cut = product.len() - loc.len();
    let omega = product.split_off(cut);
    assert(omega@ =~= evaluator(f, synd@, loc@));
    omega
}

/// Lengths and coefficients in the course of the synthesis.
pub proof fn lemma_synthesis_shape(f: Gf, t: Seq<u8>, i: nat)
    requires
        i <= t.len(),
    ensures
        synthesis(f, t, i).cur.len() + synthesis(f, t, i).old.len() == i + 2,
        1 <= synthesis(f, t, i).cur.len() <= i + 1,
        1 <= synthesis(f, t, i).old.len(),
        synthesis(f, t, i).cur.last() == 1,
        f.has_all(synthesis(f, t, i).cur),
        f.has_all(synthesis(f, t, i).old),
    decreases i,
{
    if i > 0 {
        let k = (i - 1) as nat;
        lemma_synthesis_shape(f, t, k);
        let s = synthesis(f, t, k);
        let d = discrepancy(f, s.cur, t, k as int);
        let old = s.old.push(0);
        assert forall|j: int| 0 <= j < old.len() implies f.has(#[trigger] old[j]) by {
            if j < s.old.len() {
                assert(f.has(s.old[j]));
            }
        }
        if d != 0 {
            let sc = scaled(f, old, d);
            let cur = added(s.cur, sc);
            assert forall|j: int| 0 <= j < cur.len() implies f.has(#[trigger] cur[j]) by {
                let (u, v) = (
                    at(s.cur, j - (cur.len() - s.cur.len())),
                    at(sc, j - (cur.len() - sc.len())),
                );
                if 0 <= j - (cur.len() - s.cur.len()) < s.cur.len() {
                    assert(f.has(s.cur[j - (cur.len() - s.cur.len())]));
                }
                if 0 <= j - (cur.len() - sc.len()) < sc.len() {
                    f.lemma_mul_has(old[j - (cur.len() - sc.len())], d);
                }
                f.lemma_has_xor(u, v);
            }
            f.lemma_mul_zero(d);
            assert(sc.last() == 0);
            xor_cancel(s.cur.last(), 0);
            assert(cur.last() == 1);
            let prev = scaled(f, s.cur, f.inv(d));
            assert forall|j: int| 0 <= j < prev.len() implies f.has(#[trigger] prev[j]) by {
                f.lemma_mul_has(s.cur[j], f.inv(d));
            }
        }
    }
}

/// Stripping keeps the tail of a polynomial.
pub proof fn lemma_stripped(p: Seq<u8>)
    requires
        p.len() >= 1,
        p.last() != 0,
    ensures
        1 <= stripped(p).len() <= p.len(),
        stripped(p) == p.skip(p.len() - stripped(p).len()),
        stripped(p)[0] != 0,
        p[0] != 0 ==> stripped(p) == p,
    decreases p.len(),
{
    if p[0] == 0 {
        let q = p.skip(1);
        assert(q.len() >= 1) by {
            assert(p.last() == p[p.len() - 1]);
        }
        lemma_stripped(q);
        assert(q.skip(q.len() - stripped(q).len()) =~= p.skip(p.len() - stripped(q).len()));
    } else {
        assert(p.skip(0) =~= p);
    }
}

/// Finds the shortest linear recurrence of the syndromes (Berlekamp-Massey):
/// the locator polynomial of the unknown errors, `None` where it claims more
/// errors than the code can take on.
pub fn find_error_locator(f: Gf, synd: &[u8], nsym: usize, erase_count: usize) -> (r: Option<
    Vec<u8>,
>)
    requires
        synd@.len() == nsym,
        nsym + 3 <= usize::MAX,
        erase_count <= nsym,
    ensures
        r matches Some(v) ==> error_locator(f, synd@, nsym as nat, erase_count as nat) == Some(v@),
        r is None ==> error_locator(f, synd@, nsym as nat, erase_count as nat) is None,
{
    let mut cur: Vec<u8> = vec![1u8];
    let mut old: Vec<u8> = vec![1u8];
    let steps = nsym - erase_count;
    let mut i: usize = 0;
    assert(cur@ =~= seq![1u8]);
    assert(old@ =~= seq![1u8]);
    while i < steps
        invariant
            synd@.len() == nsym,
            nsym + 3 <= usize::MAX,
            steps == nsym - erase_count,
            i <= steps <= nsym,
            cur@ == synthesis(f, synd@, i as nat).cur,
            old@ == synthesis(f, synd@, i as nat).old,
        decreases steps - i,
    {
        let ghost s = synthesis(f, synd@, i as nat);
        proof {
            lemma_synthesis_shape(f, synd@, i as nat);
        }
        let n = cur.len();
        let base = i + 1 - n;
        let ghost window = synd@.subrange(base as int, i + 1);
        let mut delta: u8 = 0;
        let mut j: usize = 0;
        while j < n
            invariant
                n == cur@.len(),
                base == i + 1 - n,
                j <= n,
                i < synd@.len(),
                window == synd@.subrange(base as int, i + 1),
                delta == dot(f, cur@.take(j as int), window.take(j as int)),
            decreases n - j,
        {
            proof {
                assert(cur@.take(j + 1).drop_last() =~= cur@.take(j as int));
                assert(window.take(j + 1).drop_last() =~= window.take(j as int));
            }
            delta = delta ^ f.product(cur[j], synd[base + j]);
            j += 1;
        }
        assert(cur@.take(n as int) =~= cur@);
        assert(window.take(n as int) =~= window);
        assert(delta == discrepancy(f, s.cur, synd@, i as int));
        old.push(0);
        if delta != 0 {
            let miss = poly_scale(f, &old, delta);
            let next = poly_add(&cur, &miss);
            if old.len() > cur.len() {
                proof {
                    lemma_dot_has(f, s.cur, window);
                }
                old = poly_scale(f, &cur, f.inverse(delta));
            }
            cur = next;
        }
        i += 1;
    }
    proof {
        lemma_synthesis_shape(f, synd@, steps as nat);
        lemma_stripped(cur@);
    }
    let ghost full = cur@;
    let mut k: usize = 0;
    assert(full.skip(0) =~= full);
    while k < cur.len() && cur[k] == 0
        invariant
            cur@ == full,
            k <= full.len(),
            stripped(full.skip(k as int)) == stripped(full),
            1 <= stripped(full).len(),
        decreases cur.len() - k,
    {
        proof {
            assert(full.skip(k as int).skip(1) =~= full.skip(k + 1));
        }
        k += 1;
    }
    proof {
        assert(stripped(full) == full.skip(k as int));
    }
    let loc = cur.split_off(k);
    assert(loc@ =~= stripped(full));
    // With more errors than erasures, count twice what is over.
    let errs = loc.len() - 1;
    let over: bool = if errs >= erase_count {
        errs - erase_count > (nsym - erase_count) / 2
    } else {
        false
    };
    if over {
        None
    } else {
        Some(loc)
    }
}

/// The positions whose locators are roots of `err_loc`, `None` unless there
/// are as many as its degree.
pub fn find_errors(f: Gf, err_loc: &[u8], nmess: usize) -> (r: Option<Vec<usize>>)
    requires
        err_loc@.len() >= 1,
    ensures
        r matches Some(v) ==> v@ == root_positions(f, err_loc@, nmess as nat, nmess as nat)
            && v@.len() == err_loc@.len() - 1,
        r is None ==> root_positions(f, err_loc@, nmess as nat, nmess as nat).len()
            != err_loc@.len() - 1,
{
    let mut pos: Vec<usize> = Vec::new();
    let mut i: usize = 0;
    assert(pos@ =~= seq![]);
    while i < nmess
        invariant
            i <= nmess,
            pos@ == root_positions(f, err_loc@, nmess as nat, i as nat),
        decreases nmess - i,
    {
        if poly_eval(f, err_loc, f.alpha_power(i)) == 0 {
            pos.push(nmess - 1 - i);
        }
        i += 1;
    }
    if pos.len() != err_loc.len() - 1 {
        None
    } else {
        Some(pos)
    }
}

/// The syndromes with the influence of the known locators removed.
pub fn forney_syndromes(f: Gf, synd: &[u8], xs: &[u8]) -> (r: Vec<u8>)
    requires
        synd@.len() >= 1,
    ensures
        r@ == forney(f, synd@, xs@),
        r@.len() == synd@.len(),
{
    let mut t = copied(synd);
    let n = t.len();
    let mut i: usize = 0;
    assert(xs@.take(0) =~= seq![]);
    while i < xs.len()
        invariant
            i <= xs@.len(),
            t@ == forney(f, synd@, xs@.take(i as int)),
            t@.len() == n == synd@.len(),
            n >= 1,
        decreases xs.len() - i,
    {
        let x = xs[i];
        let ghost before = t@;
        let mut j: usize = 0;
        while j < n - 1
            invariant
                j <= n - 1,
                n >= 1,
                t@.len() == before.len() == n,
                forall|k: int|
                    0 <= k < n ==> #[trigger] t@[k] == if k < j {
                        without_locator(f, before, x)[k]
                    } else {
                        before[k]
                    },
            decreases n - 1 - j,
        {
            let v = f.product(t[j], x) ^ t[j + 1];
            t.set(j, v);
            j += 1;
        }
        assert(t@ =~= without_locator(f, before, x));
        assert(xs@.take(i + 1).drop_last() =~= xs@.take(i as int));
        i += 1;
    }
    assert(xs@.take(i as int) =~= xs@);
    t
}

/// The locators of a list of positions.
fn position_locators(f: Gf, n: usize, pos: &[usize]) -> (xs: Vec<u8>)
    requires
        forall|i: int| 0 <= i < pos@.len() ==> #[trigger] pos@[i] < n,
    ensures
        xs@ == locators(f, n as nat, pos@),
{
    let mut xs: Vec<u8> = Vec::new();
    let mut i: usize = 0;
    while i < pos.len()
        invariant
            i <= pos@.len(),
            forall|k: int| 0 <= k < pos@.len() ==> #[trigger] pos@[k] < n,
            xs@ == locators(f, n as nat, pos@).take(i as int),
        decreases pos.len() - i,
    {
        let p = pos[i];
        assert(pos@[i as int] < n);
        xs.push(f.alpha_power(n - 1 - p));
        i += 1;
        assert(xs@ =~= locators(f, n as nat, pos@).take(i as int));
    }
    assert(xs@ =~= locators(f, n as nat, pos@));
    xs
}

/// Takes the errata at the given positions off a word.
pub fn correct_errata(f: Gf, msg: &[u8], synd: &[u8], pos: &[usize]) -> (r: Vec<u8>)
    requires
        synd@.len() + pos@.len() + 3 <= usize::MAX,
        forall|i: int| 0 <= i < pos@.len() ==> #[trigger] pos@[i] < msg@.len(),
    ensures
        r@ == corrected(f, msg@, synd@, pos@),
        r@.len() == msg@.len(),
{
    let n = msg.len();
    let xs = position_locators(f, n, pos);
    let loc = errata_locator(f, &xs);
    let omega = error_evaluator(f, synd, &loc);
    let mut e: Vec<u8> = vec![0u8; n];
    assert(e@ =~= zeros(n as nat));
    let mut i: usize = 0;
    while i < pos.len()
        invariant
            n == msg@.len(),
            i <= pos@.len(),
            forall|k: int| 0 <= k < pos@.len() ==> #[trigger] pos@[k] < n,
            xs@ == locators(f, n as nat, pos@),
            omega@ == evaluator(f, synd@, errata_polynomial(f, xs@)),
            e@ == errata(f, synd@, pos@, n as nat, i as nat),
            e@.len() == n,
        decreases pos.len() - i,
    {
        let x = xs[i];
        proof {
            f.lemma_pow_has(2, (n - 1 - pos@[i as int]) as nat);
        }
        let z = f.inverse(x);
        let mut prime: u8 = 1;
        let mut j: usize = 0;
        proof {
            f.lemma_mul_one(1);
        }
        while j < xs.len()
            invariant
                j <= xs@.len(),
                i < xs@.len(),
                f.has(prime),
                prime == other_distances(f, xs@, z, i as int, j as nat),
            decreases xs.len() - j,
        {
            if j != i {
                let d = 1 ^ f.product(z, xs[j]);
                proof {
                    f.lemma_mul_has(prime, d);
                }
                prime = f.product(prime, d);
            }
            j += 1;
        }
        let y = f.product(x, poly_eval(f, &omega, z));
        let v = f.divide_or(y, prime);
        assert(pos@[i as int] < n);
        e.set(pos[i], v);
        i += 1;
    }
    poly_add(msg, &e)
}

/// Errors-and-erasures decoding; `erase_pos` are the symbols known to be bad,
/// `max_errors` caps the corrections at other symbols. Returns the data and
/// the whole codeword, or `None` on uncorrectable input.
pub fn rs_decode_in(
    f: Gf,
    msg_in: &[u8],
    nsym: usize,
    erase_pos: &[usize],
    max_errors: Option<usize>,
) -> (r: Option<(Vec<u8>, Vec<u8>)>)
    requires
        nsym <= msg_in@.len(),
        2 * msg_in@.len() + nsym + 3 <= usize::MAX,
        forall|i: int| 0 <= i < erase_pos@.len() ==> #[trigger] erase_pos@[i] < msg_in@.len(),
    ensures
        r matches Some((data, word)) ==> {
            &&& decoded(f, msg_in@, nsym as nat, erase_pos@, max_errors) == Some(word@)
            &&& word@.len() == msg_in@.len()
            &&& data@ == word@.take(msg_in@.len() - nsym)
        },
        r is None ==> decoded(f, msg_in@, nsym as nat, erase_pos@, max_errors) is None,
{
    let n = msg_in.len();
    let mut msg = copied(msg_in);
    let mut i: usize = 0;
    while i < erase_pos.len()
        invariant
            n == msg_in@.len(),
            i <= erase_pos@.len(),
            forall|k: int| 0 <= k < erase_pos@.len() ==> #[trigger] erase_pos@[k] < n,
            msg@.len() == n,
            forall|k: int|
                0 <= k < n ==> #[trigger] msg@[k] == if erase_pos@.take(i as int).contains(
                    k as usize,
                ) {
                    0
                } else {
                    msg_in@[k]
                },
        decreases erase_pos.len() - i,
    {
        let e = erase_pos[i];
        assert(erase_pos@[i as int] < n);
        let ghost before = msg@;
        msg.set(e, 0);
        proof {
            let (a, b) = (erase_pos@.take(i as int), erase_pos@.take(i + 1));
            assert(b =~= a.push(e));
            assert forall|k: int| 0 <= k < n implies #[trigger] msg@[k] == if b.contains(
                k as usize,
            ) {
                0
            } else {
                msg_in@[k]
            } by {
                assert(before[k] == if a.contains(k as usize) {
                    0
                } else {
                    msg_in@[k]
                });
                if k == e {
                    assert(b[i as int] == e);
                } else if a.contains(k as usize) {
                    let w = choose|w: int| 0 <= w < a.len() && a[w] == k as usize;
                    assert(b[w] == k as usize);
                } else if b.contains(k as usize) {
                    let w = choose|w: int| 0 <= w < b.len() && b[w] == k as usize;
                    assert(w < i);
                    assert(a[w] == k as usize);
                }
            }
        }
        i += 1;
    }
    proof {
        assert(erase_pos@.take(i as int) =~= erase_pos@);
        assert(msg@ =~= erased(msg_in@, erase_pos@));
    }
    if erase_pos.len() > nsym {
        return None;
    }
    let synd = calc_syndromes(f, &msg, nsym);
    if is_zero(&synd) {
        let data = prefix(&msg, n - nsym);
        return Some((data, msg));
    }
    let known = position_locators(f, n, erase_pos);
    let t = forney_syndromes(f, &synd, &known);
    let loc = match find_error_locator(f, &t, nsym, erase_pos.len()) {
        Some(loc) => loc,
        None => {
            return None;
        },
    };
    proof {
        lemma_locator_shape(f, t@, nsym as nat, erase_pos@.len());
    }
    let rev = reversed(&loc);
    let mut found = match find_errors(f, &rev, n) {
        Some(found) => found,
        None => {
            return None;
        },
    };
    let errors = found.len();
    let capped: bool = match max_errors {
        Some(cap) => errors > cap,
        None => false,
    };
    if capped {
        return None;
    }
    let mut all_pos = copied(erase_pos);
    let ghost found_pos = found@;
    all_pos.append(&mut found);
    proof {
        lemma_root_positions_range(f, rev@, n as nat, n as nat);
        assert forall|k: int| 0 <= k < all_pos@.len() implies #[trigger] all_pos@[k] < n by {
            if k < erase_pos@.len() {
                assert(all_pos@[k] == erase_pos@[k]);
            } else {
                assert(all_pos@[k] == found_pos[k - erase_pos@.len()]);
            }
        }
    }
    let word = correct_errata(f, &msg, &synd, &all_pos);
    let check = calc_syndromes(f, &word, nsym);
    if !is_zero(&check) {
        return None;
    }
    let data = prefix(&word, n - nsym);
    Some((data, word))
}

/// A locator polynomial that was found is not empty and within its bound.
proof fn lemma_locator_shape(f: Gf, t: Seq<u8>, nsym: nat, erasures: nat)
    requires
        t.len() == nsym,
        erasures <= nsym,
    ensures
        error_locator(f, t, nsym, erasures) matches Some(loc) ==> 1 <= loc.len() <= nsym + 1,
{
    let steps = (nsym - erasures) as nat;
    lemma_synthesis_shape(f, t, steps);
    lemma_stripped(synthesis(f, t, steps).cur);
}

/// Root positions lie in the word, each at most once.
pub proof fn lemma_root_positions_range(f: Gf, p: Seq<u8>, n: nat, i: nat)
    requires
        i <= n <= usize::MAX,
    ensures
        root_positions(f, p, n, i).len() <= i,
        forall|k: int|
            0 <= k < root_positions(f, p, n, i).len() ==> {
                let q = #[trigger] root_positions(f, p, n, i)[k];
                n - i <= q < n && eval(f, p, locator(f, n, q as int)) == 0
            },
        forall|j: int, k: int|
            0 <= j < k < root_positions(f, p, n, i).len() ==> #[trigger] root_positions(
                f,
                p,
                n,
                i,
            )[j] > #[trigger] root_positions(f, p, n, i)[k],
        forall|q: int|
            n - i <= q < n && #[trigger] eval(f, p, locator(f, n, q)) == 0 ==> root_positions(
                f,
                p,
                n,
                i,
            ).contains(q as usize),
    decreases i,
{
    if i > 0 {
        let j = (i - 1) as nat;
        lemma_root_positions_range(f, p, n, j);
        let before = root_positions(f, p, n, j);
        let after = root_positions(f, p, n, i);
        assert forall|q: int|
            n - i <= q < n && #[trigger] eval(f, p, locator(f, n, q)) == 0 implies after.contains(
            q as usize,
        ) by {
            if q == n - i {
                assert(after[before.len() as int] == q);
            } else {
                let w = choose|w: int| 0 <= w < before.len() && before[w] == q as usize;
                assert(after[w] == q as usize);
            }
        }
    }
}

/// Corrected words are made of elements of the field.
pub proof fn lemma_decoded_has(
    f: Gf,
    msg: Seq<u8>,
    nsym: nat,
    erasures: Seq<usize>,
    max_errors: Option<usize>,
)
    requires
        msg.len() <= usize::MAX,
        f.has_all(msg),
        forall|i: int| 0 <= i < erasures.len() ==> #[trigger] erasures[i] < msg.len(),
    ensures
        decoded(f, msg, nsym, erasures, max_errors) matches Some(word) ==> f.has_all(word),
{
    let kept = erased(msg, erasures);
    let synd = syndromes(f, kept, nsym);
    assert(f.has_all(kept)) by {
        assert forall|i: int| 0 <= i < kept.len() implies f.has(#[trigger] kept[i]) by {
            assert(f.has(msg[i]));
        }
    }
    if erasures.len() <= nsym && !all_zero(synd) {
        let t = forney(f, synd, locators(f, kept.len(), erasures));
        if let Some(loc) = error_locator(f, t, nsym, erasures.len()) {
            let found = root_positions(f, loc.reverse(), kept.len(), kept.len());
            let pos = erasures + found;
            lemma_root_positions_range(f, loc.reverse(), kept.len(), kept.len());
            assert forall|i: int| 0 <= i < pos.len() implies #[trigger] pos[i] < kept.len() by {
                if i >= erasures.len() {
                    assert(pos[i] == found[i - erasures.len()]);
                }
            }
            let e = errata(f, synd, pos, kept.len(), pos.len());
            let word = corrected(f, kept, synd, pos);
            lemma_errata_has(f, synd, pos, kept.len(), pos.len());
            assert forall|i: int| 0 <= i < word.len() implies f.has(#[trigger] word[i]) by {
                assert(f.has(kept[i]) && f.has(e[i]));
                f.lemma_has_xor(kept[i], e[i]);
            }
        }
    }
}

/// Errata are made of elements of the field.
proof fn lemma_errata_has(f: Gf, synd: Seq<u8>, pos: Seq<usize>, n: nat, k: nat)
    requires
        k <= pos.len(),
        forall|i: int| 0 <= i < pos.len() ==> #[trigger] pos[i] < n,
    ensures
        errata(f, synd, pos, n, k).len() == n,
        f.has_all(errata(f, synd, pos, n, k)),
    decreases k,
{
    if k > 0 {
        let j = (k - 1) as nat;
        assert(pos[k - 1] < n);
        lemma_errata_has(f, synd, pos, n, j);
        let xs = locators(f, n, pos);
        let z = f.inv(xs[k - 1]);
        let omega = evaluator(f, synd, errata_polynomial(f, xs));
        let a = f.mul(xs[k - 1], eval(f, omega, z));
        let b = other_distances(f, xs, z, k - 1, xs.len());
        f.lemma_mul_has(xs[k - 1], eval(f, omega, z));
        f.lemma_mul_has(a, f.inv(b));
        let before = errata(f, synd, pos, n, j);
        let after = errata(f, synd, pos, n, k);
        assert forall|i: int| 0 <= i < after.len() implies f.has(#[trigger] after[i]) by {
            assert(f.has(before[i]));
        }
    }
}

} // verus!
