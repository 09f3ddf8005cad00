//! Byte symbols: arithmetic in GF(256) with the field polynomial
//! `x^8 + x^4 + x^3 + x^2 + 1`, the Reed-Solomon codes over it, and CRC-8.
use crate::field::{xor_cancel, xor_swap, Gf};
use crate::rs::{decoded, encoded, rs_decode_in, rs_encode_in};
use vstd::prelude::*;

verus! {

/// The field polynomial.
pub const PRIM: u16 = 0x11D;

/// The generator of the multiplicative group.
pub const GEN: u8 = 2;

/// The powers of the generator, twice over, and the logarithms to its base.
/// The logarithm of zero, which does not exist, is given as zero.
pub fn build_tables() -> (r: ([u8; 512], [u8; 256]))
    ensures
        forall|i: int| 0 <= i < 512 ==> #[trigger] r.0@[i] == Gf::Byte.alpha(i as nat),
        forall|i: int|
            0 <= i < 255 ==> r.1@[#[trigger] Gf::Byte.alpha(i as nat) as int] == i,
        r.1@[0] == 0,
{
    let f = Gf::Byte;
    let mut exp: [u8; 512] = [0u8; 512];
    let mut log: [u8; 256] = [0u8; 256];
    let mut x: u16 = 1;
    let mut i: usize = 0;
    while i < 255
        invariant
            f == Gf::Byte,
            i <= 255,
            exp@.len() == 512,
            log@.len() == 256,
            x <= 0xff,
            x == f.alpha(i as nat),
            forall|k: int| 0 <= k < i ==> #[trigger] exp@[k] == f.alpha(k as nat),
            forall|k: int| 0 <= k < i ==> log@[#[trigger] f.alpha(k as nat) as int] == k,
            log@[0] == 0,
        decreases 255 - i,
    {
        exp[i] = x as u8;
        log[x as usize] = i as u8;
        proof {
            f.lemma_pow_nonzero(2, i as nat);
            assert forall|k: int| 0 <= k < i + 1 implies log@[#[trigger] f.alpha(k as nat) as int]
                == k by {
                if k < i {
                    f.lemma_alpha_distinct(k as nat, i as nat);
                }
            }
            f.lemma_times_two(x as u8);
            let y = x as u8;
            assert(y as u16 == x ==> x << 1 == if y & 0x80 != 0 {
                (0x100 | ((y << 1) as u16)) as u16
            } else {
                (y << 1) as u16
            }) by (bit_vector)
                requires
                    x <= 0xff,
            ;
            assert({
                &&& (0x100 | ((y << 1) as u16)) & 0x100 != 0
                &&& ((y << 1) as u16) & 0x100 == 0
                &&& (0x100 | ((y << 1) as u16)) ^ 0x11D == ((y << 1) ^ 0x1d) as u16
            }) by (bit_vector);
        }
        x = x << 1;
        if x & 0x100 != 0 {
            x = x ^ PRIM;
        }
        i += 1;
    }
    let mut j: usize = 255;
    while j < 512
        invariant
            f == Gf::Byte,
            255 <= j <= 512,
            exp@.len() == 512,
            forall|k: int| 0 <= k < j ==> #[trigger] exp@[k] == f.alpha(k as nat),
        decreases 512 - j,
    {
        proof {
            f.lemma_pow_mod(2, j as nat);
            f.lemma_pow_mod(2, (j - 255) as nat);
            assert(j % 255 == (j - 255) % 255);
        }
        exp[j] = exp[j - 255];
        j += 1;
    }
    (exp, log)
}

/// The product of two elements.
pub fn gmul(a: u8, b: u8) -> (r: u8)
    ensures
        r == Gf::Byte.mul(a, b),
{
    Gf::Byte.product(a, b)
}

/// The quotient of two elements.
pub fn gdiv(a: u8, b: u8) -> (r: u8)
    requires
        b != 0,
    ensures
        r == Gf::Byte.mul(a, Gf::Byte.inv(b)),
        Gf::Byte.mul(r, b) == a,
{
    proof {
        let f = Gf::Byte;
        f.lemma_inv(b);
        f.lemma_mul_comm(b, f.inv(b));
        f.lemma_mul_assoc(a, f.inv(b), b);
        f.lemma_mul_one(a);
    }
    Gf::Byte.product(a, Gf::Byte.inverse(b))
}

/// What `gpow` computes: the power of a nonzero element, where negative
/// exponents are those of the inverse. The powers of zero are given as one.
pub open spec fn signed_power(a: u8, n: int) -> u8 {
    if a == 0 {
        1
    } else {
        Gf::Byte.pow(a, (n % 255) as nat)
    }
}

/// The power of an element, also to negative exponents.
pub fn gpow(a: u8, n: i64) -> (r: u8)
    ensures
        r == signed_power(a, n as int),
        a != 0 && n >= 0 ==> r == Gf::Byte.pow(a, n as nat),
        a != 0 && n <= 0 ==> r == Gf::Byte.pow(Gf::Byte.inv(a), (-n) as nat),
{
    if a == 0 {
        return 1;
    }
    let rem = n % 255;
    let e: i64 = if rem < 0 {
        rem + 255
    } else {
        rem
    };
    proof {
        let f = Gf::Byte;
        assert(e == (n as int) % 255);
        if n >= 0 {
            f.lemma_pow_mod(a, n as nat);
        }
        if n <= 0 {
            let m = (-n) as nat;
            f.lemma_pow_mul(a, 254, m);
            f.lemma_pow_mod(a, 254 * m);
            assert((254 * m) % 255 == e) by {
                assert(254 * m == 255 * m + n);
                vstd::arithmetic::div_mod::lemma_mod_multiples_vanish(m as int, n as int, 255);
            }
        }
    }
    Gf::Byte.power(a, e as u32)
}

/// The inverse of an element; that of zero is given as one.
pub fn ginv(a: u8) -> (r: u8)
    ensures
        r == if a == 0 {
            1
        } else {
            Gf::Byte.inv(a)
        },
        a != 0 ==> Gf::Byte.mul(a, r) == 1,
{
    if a == 0 {
        1
    } else {
        proof {
            Gf::Byte.lemma_inv(a);
        }
        Gf::Byte.inverse(a)
    }
}

/// Systematic Reed-Solomon encoding: the data, then `nsym` parity bytes.
pub fn rs_encode(data: &[u8], nsym: usize) -> (code: Vec<u8>)
    requires
        data@.len() + nsym + 3 <= usize::MAX,
    ensures
        code@ == encoded(Gf::Byte, data@, nsym as nat),
        code@.len() == data@.len() + nsym,
{
    rs_encode_in(Gf::Byte, data, nsym)
}

/// Corrects a received codeword whose bytes at `erase_pos` are known to be
/// bad. Returns the data and the whole codeword.
pub fn rs_decode(msg_in: &[u8], nsym: usize, erase_pos: &[usize]) -> (r: Result<
    (Vec<u8>, Vec<u8>),
    (),
>)
    requires
        nsym <= msg_in@.len(),
        2 * msg_in@.len() + nsym + 3 <= usize::MAX,
        forall|i: int| 0 <= i < erase_pos@.len() ==> #[trigger] erase_pos@[i] < msg_in@.len(),
    ensures
        r matches Ok((data, word)) ==> {
            &&& decoded(Gf::Byte, msg_in@, nsym as nat, erase_pos@, None) == Some(word@)
            &&& word@.len() == msg_in@.len()
            &&& data@ == word@.take(msg_in@.len() - nsym)
        },
        r is Err ==> decoded(Gf::Byte, msg_in@, nsym as nat, erase_pos@, None) is None,
{
    rs_decode_capped(msg_in, nsym, erase_pos, None)
}

/// Like `rs_decode`, but a word with more than `max_errors` errors at unknown
/// positions is given up. Erasures do not count towards the cap.
pub fn rs_decode_capped(
    msg_in: &[u8],
    nsym: usize,
    erase_pos: &[usize],
    max_errors: Option<usize>,
) -> (r: Result<(Vec<u8>, Vec<u8>), ()>)
    requires
        nsym <= msg_in@.len(),
        2 * msg_in@.len() + nsym + 3 <= usize::MAX,
        forall|i: int| 0 <= i < erase_pos@.len() ==> #[trigger] erase_pos@[i] < msg_in@.len(),
    ensures
        r matches Ok((data, word)) ==> {
            &&& decoded(Gf::Byte, msg_in@, nsym as nat, erase_pos@, max_errors) == Some(word@)
            &&& word@.len() == msg_in@.len()
            &&& data@ == word@.take(msg_in@.len() - nsym)
        },
        r is Err ==> decoded(Gf::Byte, msg_in@, nsym as nat, erase_pos@, max_errors) is None,
{
    match rs_decode_in(Gf::Byte, msg_in, nsym, erase_pos, max_errors) {
        Some(hit) => Ok(hit),
        None => Err(()),
    }
}

/// One bit of the CRC-8 register: the product with `x` modulo
/// `x^8 + x^2 + x + 1`.
pub open spec fn crc8_bit(c: u8) -> u8 {
    if c & 0x80 != 0 {
        (c << 1) ^ 0x07
    } else {
        c << 1
    }
}

/// Eight bits of the CRC-8 register.
pub open spec fn crc8_step(c: u8) -> u8 {
    crc8_bit(crc8_bit(crc8_bit(crc8_bit(crc8_bit(crc8_bit(crc8_bit(crc8_bit(c))))))))
}

/// The CRC-8 of a byte sequence.
pub open spec fn crc8_of(data: Seq<u8>) -> u8
    decreases data.len(),
{
    if data.len() == 0 {
        0
    } else {
        crc8_step(crc8_of(data.drop_last()) ^ data.last())
    }
}

/// CRC-8 with the polynomial `0x07`, initial value zero.
pub fn crc8(data: &[u8]) -> (crc: u8)
    ensures
        crc == crc8_of(data@),
{
    let mut crc: u8 = 0;
    let mut i: usize = 0;
    assert(data@.take(0) =~= seq![]);
    while i < data.len()
        invariant
            i <= data@.len(),
            crc == crc8_of(data@.take(i as int)),
        decreases data.len() - i,
    {
        assert(data@.take(i + 1).drop_last() =~= data@.take(i as int));
        crc = crc ^ data[i];
        crc = crc8_shift(crc8_shift(crc8_shift(crc8_shift(crc))));
        crc = crc8_shift(crc8_shift(crc8_shift(crc8_shift(crc))));
        i += 1;
    }
    assert(data@.take(i as int) =~= data@);
    crc
}

/// One bit of the CRC-8 register.
fn crc8_shift(c: u8) -> (r: u8)
    ensures
        r == crc8_bit(c),
{
    if c & 0x80 != 0 {
        (c << 1) ^ 0x07
    } else {
        c << 1
    }
}

/// The register step is linear and one to one.
proof fn lemma_crc8_step(a: u8, b: u8)
    ensures
        crc8_step(a ^ b) == crc8_step(a) ^ crc8_step(b),
        crc8_step(a) == crc8_step(b) ==> a == b,
        crc8_step(0) == 0,
{
    assert({
        &&& crc8_step(a ^ b) == crc8_step(a) ^ crc8_step(b)
        &&& crc8_step(a) == crc8_step(b) ==> a == b
        &&& crc8_step(0) == 0
    }) by (bit_vector);
}

/// Two sequences that differ in exactly one byte have different CRCs.
pub proof fn law_crc8_detects_one_byte(a: Seq<u8>, i: int, v: u8)
    requires
        0 <= i < a.len(),
        a[i] != v,
    ensures
        crc8_of(a) != crc8_of(a.update(i, v)),
    decreases a.len(),
{
    let b = a.update(i, v);
    let (p, q) = (a.drop_last(), b.drop_last());
    let (c, d) = (crc8_of(p), crc8_of(q));
    if i == a.len() - 1 {
        assert(p =~= q);
        xor_cancel(c, a.last());
        xor_cancel(c, v);
    } else {
        assert(q =~= p.update(i, v));
        law_crc8_detects_one_byte(p, i, v);
        xor_cancel(c, a.last());
        xor_cancel(d, a.last());
    }
    lemma_crc8_step(c ^ a.last(), d ^ b.last());
}

/// The CRC is additive over sequences of one length.
pub proof fn law_crc8_additive(a: Seq<u8>, b: Seq<u8>)
    requires
        a.len() == b.len(),
    ensures
        crc8_of(Seq::new(a.len(), |i: int| a[i] ^ b[i])) == crc8_of(a) ^ crc8_of(b),
    decreases a.len(),
{
    let c = Seq::new(a.len(), |i: int| a[i] ^ b[i]);
    if a.len() == 0 {
        xor_cancel(0, 0);
    } else {
        let (p, q) = (a.drop_last(), b.drop_last());
        law_crc8_additive(p, q);
        assert(c.drop_last() =~= Seq::new(p.len(), |i: int| p[i] ^ q[i]));
        xor_swap(crc8_of(p), crc8_of(q), a.last(), b.last());
        lemma_crc8_step(crc8_of(p) ^ a.last(), crc8_of(q) ^ b.last());
    }
}

/// A sequence followed by its own CRC has the CRC zero.
pub proof fn law_crc8_residue(a: Seq<u8>)
    ensures
        crc8_of(a.push(crc8_of(a))) == 0,
{
    assert(a.push(crc8_of(a)).drop_last() =~= a);
    xor_cancel(crc8_of(a), crc8_of(a));
    lemma_crc8_step(0, 0);
}

} // verus!
