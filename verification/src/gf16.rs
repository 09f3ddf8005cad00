//! Nibble symbols: the Reed-Solomon codes over GF(16) with the field
//! polynomial `x^4 + x + 1`, and CRC-4. A symbol is the low half of a byte.
use crate::field::{xor_cancel, Gf};
use crate::rs::{decoded, encoded, rs_decode_in, rs_encode_in};
use vstd::prelude::*;

verus! {

/// Systematic Reed-Solomon encoding: the data, then `nsym` parity nibbles.
pub fn rs_encode(data: &[u8], nsym: usize) -> (code: Vec<u8>)
    requires
        data@.len() + nsym + 3 <= usize::MAX,
    ensures
        code@ == encoded(Gf::Nibble, data@, nsym as nat),
        code@.len() == data@.len() + nsym,
{
    rs_encode_in(Gf::Nibble, data, nsym)
}

/// Corrects a received codeword whose nibbles at `erase_pos` are known to be
/// bad; one with more than `max_errors` errors at unknown positions is given
/// up. Returns the data and the whole codeword.
pub fn rs_decode(
    msg_in: &[u8],
    nsym: usize,
    erase_pos: &[usize],
    max_errors: Option<usize>,
) -> (r: Result<(Vec<u8>, Vec<u8>), ()>)
    requires
        nsym <= msg_in@.len(),
        2 * msg_in@.len() + nsym + 3 <= usize::MAX,
        forall|i: int| 0 <= i < erase_pos@.len() ==> #[trigger] erase_pos@[i] < msg_in@.len(),
    ensures
        r matches Ok((data, word)) ==> {
            &&& decoded(Gf::Nibble, msg_in@, nsym as nat, erase_pos@, max_errors) == Some(word@)
            &&& word@.len() == msg_in@.len()
            &&& data@ == word@.take(msg_in@.len() - nsym)
        },
        r is Err ==> decoded(Gf::Nibble, msg_in@, nsym as nat, erase_pos@, max_errors) is None,
{
    match rs_decode_in(Gf::Nibble, msg_in, nsym, erase_pos, max_errors) {
        Some(hit) => Ok(hit),
        None => Err(()),
    }
}

/// One bit of the CRC-4 register: the product with `x` modulo `x^4 + x + 1`.
pub open spec fn crc4_bit(c: u8) -> u8 {
    if c & 0x08 != 0 {
        ((c << 1) & 0x0f) ^ 0x03
    } else {
        (c << 1) & 0x0f
    }
}

/// Four bits of the CRC-4 register.
pub open spec fn crc4_step(c: u8) -> u8 {
    crc4_bit(crc4_bit(crc4_bit(crc4_bit(c))))
}

/// The CRC-4 of a nibble sequence.
pub open spec fn crc4_of(data: Seq<u8>) -> u8
    decreases data.len(),
{
    if data.len() == 0 {
        0
    } else {
        crc4_step(crc4_of(data.drop_last()) ^ data.last())
    }
}

/// CRC-4 with the polynomial `0x3`, initial value zero.
pub fn crc4(data: &[u8]) -> (crc: u8)
    ensures
        crc == crc4_of(data@),
        crc <= 0x0f,
{
    let mut crc: u8 = 0;
    let mut i: usize = 0;
    assert(data@.take(0) =~= seq![]);
    while i < data.len()
        invariant
            i <= data@.len(),
            crc == crc4_of(data@.take(i as int)),
        decreases data.len() - i,
    {
        assert(data@.take(i + 1).drop_last() =~= data@.take(i as int));
        crc = crc ^ data[i];
        crc = crc4_shift(crc4_shift(crc4_shift(crc4_shift(crc))));
        i += 1;
    }
    assert(data@.take(i as int) =~= data@);
    proof {
        lemma_crc4_range(data@);
    }
    crc
}

/// One bit of the CRC-4 register.
fn crc4_shift(c: u8) -> (r: u8)
    ensures
        r == crc4_bit(c),
{
    if c & 0x08 != 0 {
        ((c << 1) & 0x0f) ^ 0x03
    } else {
        (c << 1) & 0x0f
    }
}

/// The register step yields nibbles, and is one to one on them.
proof fn lemma_crc4_step(a: u8, b: u8)
    ensures
        crc4_step(a) <= 0x0f,
        a <= 0x0f && b <= 0x0f && crc4_step(a) == crc4_step(b) ==> a == b,
{
    assert({
        &&& crc4_step(a) <= 0x0f
        &&& a <= 0x0f && b <= 0x0f && crc4_step(a) == crc4_step(b) ==> a == b
    }) by (bit_vector);
}

/// A CRC-4 is a nibble.
pub proof fn lemma_crc4_range(data: Seq<u8>)
    ensures
        crc4_of(data) <= 0x0f,
{
    if data.len() > 0 {
        lemma_crc4_step(crc4_of(data.drop_last()) ^ data.last(), 0);
    }
}

/// Two nibble sequences that differ in exactly one nibble have different CRCs.
pub proof fn law_crc4_detects_one_nibble(a: Seq<u8>, i: int, v: u8)
    requires
        0 <= i < a.len(),
        Gf::Nibble.has_all(a),
        v <= 0x0f,
        a[i] != v,
    ensures
        crc4_of(a) != crc4_of(a.update(i, v)),
    decreases a.len(),
{
    let b = a.update(i, v);
    let (p, q) = (a.drop_last(), b.drop_last());
    let (c, d) = (crc4_of(p), crc4_of(q));
    lemma_crc4_range(p);
    lemma_crc4_range(q);
    assert(Gf::Nibble.has_all(p));
    assert(Gf::Nibble.has(a[a.len() - 1]));
    Gf::Nibble.lemma_has_xor(c, a.last());
    Gf::Nibble.lemma_has_xor(d, b.last());
    if i == a.len() - 1 {
        assert(p =~= q);
        xor_cancel(c, a.last());
        xor_cancel(c, v);
    } else {
        assert(q =~= p.update(i, v));
        law_crc4_detects_one_nibble(p, i, v);
        xor_cancel(c, a.last());
        xor_cancel(d, a.last());
    }
    lemma_crc4_step(c ^ a.last(), d ^ b.last());
}

} // verus!
