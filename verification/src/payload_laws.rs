//! What the payload modes guarantee: whatever is written reads back, and a
//! verified payload is never taken for something that it is not.
use crate::codec::lemma_sizes;
use crate::codec_laws::law_decode_undoes_encode;
use crate::digits::{
    all_digits, digits, lemma_digits_of_value, lemma_digits_shape, lemma_power_monotonic,
    lemma_powers, lemma_value_concat,
    lemma_value_of_digits, power, value,
};
use crate::marker::{
    sim180c88_parameters, sim48c12_parameters, sim48c16_parameters, sim48c8_parameters,
    sim96c32_parameters, MarkerSpec,
};
use crate::payload::{
    geo_refused, header_byte, signed, Meaning, PayloadError, MODE_GEO, MODE_ID, MODE_RAW,
    MODE_TAGGED,
};
use vstd::prelude::*;

verus! {

/// A number that the variant holds reads back.
pub proof fn law_id_reads_back(m: &MarkerSpec, v: nat)
    requires
        m.wf(),
        m.holds_id(v),
    ensures
        m.meaning(m.id_payload(v)) == Ok::<(Seq<char>, Meaning), PayloadError>(
            ("ID"@, Meaning::Int(v)),
        ),
{
    lemma_sizes(m);
    lemma_digits_shape(v, 256, m.body());
    lemma_value_of_digits(v, 256, m.body());
    let p = m.id_payload(v);
    if m.use_header {
        assert(p.skip(1) =~= digits(v, 256, m.body()));
    }
}

/// A place that is in range reads back.
pub proof fn law_geo_reads_back(m: &MarkerSpec, lat: nat, lon: nat, alt_m: int)
    requires
        m.wf(),
        geo_refused(m, lat as int, lon as int, alt_m) is None,
    ensures
        m.meaning(m.geo_payload(lat, lon, alt_m)) == Ok::<(Seq<char>, Meaning), PayloadError>(
            ("GEO"@, Meaning::Geo { lat, lon, alt_m }),
        ),
{
    lemma_sizes(m);
    lemma_powers();
    let u = (alt_m % 65536) as nat;
    lemma_digits_shape(lat, 256, 4);
    lemma_digits_shape(lon, 256, 4);
    lemma_digits_shape(u, 256, 2);
    lemma_value_of_digits(lat, 256, 4);
    lemma_value_of_digits(lon, 256, 4);
    lemma_value_of_digits(u, 256, 2);
    let p = m.geo_payload(lat, lon, alt_m);
    let body = p.skip(1);
    assert(body.subrange(0, 4) =~= digits(lat, 256, 4));
    assert(body.subrange(4, 8) =~= digits(lon, 256, 4));
    assert(body.subrange(8, 10) =~= digits(u, 256, 2));
    assert(signed(u) == alt_m);
}

/// Bytes that fit read back.
pub proof fn law_raw_reads_back(m: &MarkerSpec, data: Seq<u8>)
    requires
        m.wf(),
        m.use_header,
        data.len() < m.body(),
    ensures
        m.meaning(m.raw_payload(data)) == Ok::<(Seq<char>, Meaning), PayloadError>(
            ("RAW"@, Meaning::Bytes(data)),
        ),
{
    lemma_sizes(m);
    let p = m.raw_payload(data);
    let body = p.skip(1);
    assert(body[0] == data.len());
    assert(body.subrange(1, 1 + body[0]) =~= data);
}

/// Where the parts of the payload of a number stand: a header byte of zero, if
/// the variant has headers, and the number, the highest byte first.
pub proof fn law_id_layout(m: &MarkerSpec, v: nat)
    requires
        m.wf(),
        m.holds_id(v),
    ensures
        m.id_payload(v).len() == m.bytes(),
        m.use_header ==> m.id_payload(v)[0] == 0,
        value(m.id_payload(v), 256) == v,
{
    lemma_sizes(m);
    lemma_digits_shape(v, 256, m.body());
    lemma_value_of_digits(v, 256, m.body());
    let p = m.id_payload(v);
    if m.use_header {
        let first = seq![header_byte(MODE_ID)];
        lemma_value_concat(first, digits(v, 256, m.body()), 256);
        assert(first.drop_last() =~= seq![]);
        assert(value(first, 256) == 0) by {
            assert(value(seq![], 256) == 0);
        }
        let w = power(256, m.body());
        assert(0 * w == 0) by (nonlinear_arith);
        assert(p =~= first + digits(v, 256, m.body()));
    }
}

/// Where the parts of the payload of a place stand: a header byte of one, four
/// bytes of latitude, four of longitude, two of altitude in two's complement,
/// each the highest first, and zeros.
pub proof fn law_geo_layout(m: &MarkerSpec, lat: nat, lon: nat, alt_m: int)
    requires
        m.wf(),
        geo_refused(m, lat as int, lon as int, alt_m) is None,
    ensures
        ({
            let p = m.geo_payload(lat, lon, alt_m);
            &&& p.len() == m.bytes() >= 11
            &&& p[0] == 1
            &&& value(p.subrange(1, 5), 256) == lat
            &&& value(p.subrange(5, 9), 256) == lon
            &&& value(p.subrange(9, 11), 256) == if alt_m < 0 {
                alt_m + 65536
            } else {
                alt_m
            }
            &&& forall|i: int| 11 <= i < p.len() ==> #[trigger] p[i] == 0
        }),
{
    lemma_sizes(m);
    lemma_powers();
    let u = (alt_m % 65536) as nat;
    lemma_digits_shape(lat, 256, 4);
    lemma_digits_shape(lon, 256, 4);
    lemma_digits_shape(u, 256, 2);
    lemma_value_of_digits(lat, 256, 4);
    lemma_value_of_digits(lon, 256, 4);
    lemma_value_of_digits(u, 256, 2);
    let p = m.geo_payload(lat, lon, alt_m);
    assert(p.subrange(1, 5) =~= digits(lat, 256, 4));
    assert(p.subrange(5, 9) =~= digits(lon, 256, 4));
    assert(p.subrange(9, 11) =~= digits(u, 256, 2));
}

/// Where the parts of the payload of bytes stand: a header byte of three, the
/// number of bytes, the bytes, and zeros.
pub proof fn law_raw_layout(m: &MarkerSpec, data: Seq<u8>)
    requires
        m.wf(),
        m.use_header,
        data.len() < m.body(),
    ensures
        ({
            let p = m.raw_payload(data);
            &&& p.len() == m.bytes()
            &&& p[0] == 3
            &&& p[1] == data.len()
            &&& p.subrange(2, 2 + data.len() as int) == data
            &&& forall|i: int| 2 + data.len() <= i < p.len() ==> #[trigger] p[i] == 0
        }),
{
    lemma_sizes(m);
    let p = m.raw_payload(data);
    assert(p.subrange(2, 2 + data.len() as int) =~= data);
}

/// Where the parts of the payload of a number within a namespace stand: a header
/// byte of four, the namespace, and the number, the highest byte first.
pub proof fn law_tagged_layout(m: &MarkerSpec, namespace: u8, v: nat)
    requires
        m.wf(),
        m.use_header,
        m.body() >= 2,
        v < power(256, (m.body() - 1) as nat),
    ensures
        ({
            let p = m.tagged_payload(namespace, v);
            &&& p.len() == m.bytes()
            &&& p[0] == 4
            &&& p[1] == namespace
            &&& value(p.skip(2), 256) == v
        }),
{
    lemma_sizes(m);
    let n = (m.body() - 1) as nat;
    lemma_digits_shape(v, 256, n);
    lemma_value_of_digits(v, 256, n);
    assert(m.tagged_payload(namespace, v).skip(2) =~= digits(v, 256, n));
}

/// A number within a namespace reads back. The variant needs a byte for the
/// number.
pub proof fn law_tagged_reads_back(m: &MarkerSpec, namespace: u8, v: nat)
    requires
        m.wf(),
        m.use_header,
        m.body() >= 2,
        v < power(256, (m.body() - 1) as nat),
    ensures
        m.meaning(m.tagged_payload(namespace, v)) == Ok::<(Seq<char>, Meaning), PayloadError>(
            ("TAGGED"@, Meaning::Tagged { namespace, id: v }),
        ),
{
    lemma_sizes(m);
    let n = (m.body() - 1) as nat;
    lemma_digits_shape(v, 256, n);
    lemma_value_of_digits(v, 256, n);
    let body = m.tagged_payload(namespace, v).skip(1);
    assert(body.skip(1) =~= digits(v, 256, n));
}

/// Where payloads are whole bytes, every payload of the right length can be
/// laid out on the grid.
pub proof fn law_whole_bytes_encodable(m: &MarkerSpec, p: Seq<u8>)
    requires
        m.wf(),
        m.bits() % 8 == 0,
        p.len() == m.bytes(),
    ensures
        m.encodable(p),
{
    lemma_sizes(m);
    assert(all_digits(p, 256));
    lemma_digits_of_value(p, 256);
    assert(m.bits() == 8 * m.bytes());
    lemma_bytes_of_bits(m.bytes());
}

/// Eight bits to the byte.
pub proof fn lemma_bytes_of_bits(n: nat)
    ensures
        power(256, n) == power(2, 8 * n),
    decreases n,
{
    if n > 0 {
        lemma_bytes_of_bits((n - 1) as nat);
        reveal_with_fuel(power, 9);
        let q = power(2, 8 * (n - 1) as nat);
        assert(power(2, 8 * n) == q * 2 * 2 * 2 * 2 * 2 * 2 * 2 * 2);
    }
}

/// The numbers that a variant holds can be laid out on the grid.
pub proof fn law_ids_encodable(m: &MarkerSpec, v: nat)
    requires
        m.wf(),
        m.holds_id(v),
    ensures
        m.encodable(m.id_payload(v)),
{
    lemma_sizes(m);
    lemma_digits_shape(v, 256, m.body());
    lemma_value_of_digits(v, 256, m.body());
    if m.use_header {
        let d = digits(v, 256, m.body());
        let p = m.id_payload(v);
        lemma_value_concat(seq![header_byte(MODE_ID)], d, 256);
        assert(value(seq![header_byte(MODE_ID)], 256) == 0) by {
            reveal_with_fuel(value, 2);
        }
        assert(0 * power(256, d.len()) == 0) by (nonlinear_arith);
        assert(value(p, 256) == v);
    }
}

/// The payload bits, from the number of data symbols and their size.
pub proof fn lemma_bits(m: &MarkerSpec, k: int, symbol_bits: int)
    requires
        m.rs_k == k,
        m.crc_bytes == 1,
        m.symbol_bits == symbol_bits,
        k >= 1,
    ensures
        m.bits() == (k - 1) * symbol_bits,
{
    assert((k - 1) * symbol_bits >= 0) by (nonlinear_arith)
        requires
            k >= 1,
            symbol_bits >= 0,
    ;
}

/// How many IDs the variants hold.
pub proof fn law_ids_of_variants(m: &MarkerSpec, v: nat)
    requires
        m.wf(),
    ensures
        m.is(sim48c12_parameters()) ==> (m.holds_id(v) <==> v < 4096),
        m.is(sim48c8_parameters()) ==> (m.holds_id(v) <==> v < 256),
        m.is(sim48c16_parameters()) ==> (m.holds_id(v) <==> v < 65536),
        m.is(sim96c32_parameters()) ==> (m.holds_id(v) <==> v < 0x100_0000),
        m.is(sim180c88_parameters()) ==> (m.holds_id(v) <==> v < power(256, 10)),
{
    assert(power(2, 8) == 256 && power(2, 12) == 4096 && power(2, 16) == 65536) by {
        reveal_with_fuel(power, 17);
    }
    assert(power(256, 1) == 256 && power(256, 2) == 65536 && power(256, 3) == 0x100_0000) by {
        reveal_with_fuel(power, 4);
    }
    if m.is(sim48c12_parameters()) {
        lemma_bits(m, 4, 4);
        assert(m.bits() == 12 && m.body() == 2);
    }
    if m.is(sim48c8_parameters()) {
        lemma_bits(m, 2, 8);
        assert(m.bits() == 8 && m.body() == 1);
    }
    if m.is(sim48c16_parameters()) {
        lemma_bits(m, 5, 4);
        assert(m.bits() == 16 && m.body() == 2);
    }
    if m.is(sim96c32_parameters()) {
        lemma_bits(m, 5, 8);
        assert(m.bits() == 32 && m.body() == 3);
    }
    if m.is(sim180c88_parameters()) {
        lemma_bits(m, 12, 8);
        assert(m.bits() == 88 && m.body() == 10);
    }
    lemma_bytes_of_bits(4);
    lemma_bytes_of_bits(11);
    lemma_power_monotonic(256, 3, 4);
    lemma_power_monotonic(256, 10, 11);
}

/// A payload is reported as what it means or as its own bytes. In the latter
/// case it is in an unknown mode or version, or malformed.
pub proof fn law_reported_is_genuine(m: &MarkerSpec, p: Seq<u8>)
    ensures
        m.meaning(p) matches Ok(x) ==> m.reported(p) == x,
        m.meaning(p) is Err ==> m.reported(p) == ("UNKNOWN"@, Meaning::Bytes(p)),
        p.len() == m.bytes() && m.use_header && p.len() > 0 && p[0] != MODE_ID && p[0] != MODE_GEO
            && p[0] != MODE_RAW && p[0] != MODE_TAGGED ==> m.reported(p) == (
            "UNKNOWN"@,
            Meaning::Bytes(p),
        ),
{
}

/// From a number to a tag and back: the grid of a number, turned in any way,
/// decodes to a payload that means this number.
pub proof fn law_id_through_grid(m: &MarkerSpec, v: nat, turned: int)
    requires
        m.wf(),
        m.has_sync,
        m.sync_unique(),
        m.holds_id(v),
        0 <= turned < m.sector_count,
    ensures
        m.decoded_grid(m.rolled(m.grid_of(m.id_payload(v)), turned), None).0 matches Some(p)
            && m.reported(p) == ("ID"@, Meaning::Int(v)),
{
    lemma_sizes(m);
    let p = m.id_payload(v);
    lemma_digits_shape(v, 256, m.body());
    law_ids_encodable(m, v);
    law_id_reads_back(m, v);
    law_decode_undoes_encode(m, p, turned, None);
}

/// What is not a payload of the variant, of this version, or of a mode that
/// there is, is refused, for the first of these reasons.
pub proof fn law_foreign_payloads_refused(m: &MarkerSpec, p: Seq<u8>)
    requires
        m.wf(),
    ensures
        ({
            let r = m.meaning(p);
            &&& p.len() != m.bytes() <==> r == Err::<(Seq<char>, Meaning), PayloadError>(
                PayloadError::Length,
            )
            &&& p.len() == m.bytes() && m.use_header && p[0] >= 16 ==> r == Err::<
                (Seq<char>, Meaning),
                PayloadError,
            >(PayloadError::Version { version: (p[0] / 16) as u8 })
            &&& p.len() == m.bytes() && m.use_header && (p[0] == 2 || 5 <= p[0] < 16) ==> r == Err::<
                (Seq<char>, Meaning),
                PayloadError,
            >(PayloadError::Mode { mode: p[0] })
            &&& p.len() == m.bytes() && !m.use_header ==> r == Ok::<
                (Seq<char>, Meaning),
                PayloadError,
            >(("ID"@, Meaning::Int(value(p, 256))))
        }),
{
    lemma_sizes(m);
}

/// Every payload of a mode with a body that is long enough is read: a number
/// always, bytes as far as their length goes, and only too long a length is
/// refused.
pub proof fn law_bodies_read(m: &MarkerSpec, p: Seq<u8>)
    requires
        m.wf(),
        m.use_header,
        p.len() == m.bytes(),
        p.len() >= 3,
    ensures
        p[0] == 0 ==> m.meaning(p) == Ok::<(Seq<char>, Meaning), PayloadError>(
            ("ID"@, Meaning::Int(value(p, 256))),
        ),
        p[0] == 1 ==> (m.meaning(p) is Ok <==> p.len() >= 11),
        p[0] == 3 ==> m.meaning(p) == (if p[1] <= p.len() - 2 {
            Ok::<(Seq<char>, Meaning), PayloadError>(
                ("RAW"@, Meaning::Bytes(p.subrange(2, 2 + p[1]))),
            )
        } else {
            Err(
                PayloadError::RawOverrun {
                    length: p[1] as usize,
                    capacity: (p.len() - 2) as usize,
                },
            )
        }),
        p[0] == 4 ==> m.meaning(p) == Ok::<(Seq<char>, Meaning), PayloadError>(
            ("TAGGED"@, Meaning::Tagged { namespace: p[1], id: value(p.skip(2), 256) }),
        ),
{
    lemma_sizes(m);
    let body = p.skip(1);
    if p[0] == 0 {
        let first = seq![0u8];
        assert(p =~= first + body);
        lemma_value_concat(first, body, 256);
        assert(first.drop_last() =~= seq![]);
        assert(value(first, 256) == 0) by {
            assert(value(seq![], 256) == 0);
        }
        let w = power(256, body.len());
        assert(0 * w == 0) by (nonlinear_arith);
    }
    assert(body.skip(1) =~= p.skip(2));
    assert(body[0] == p[1]);
    if p[1] <= p.len() - 2 {
        assert(body.subrange(1, 1 + body[0]) =~= p.subrange(2, 2 + p[1]));
    }
}

/// The variants are named after the number of their cells and of their payload
/// bits.
pub proof fn law_variants_named_after_sizes(m: &MarkerSpec)
    ensures
        m.is(sim48c8_parameters()) ==> m.cells() == 48 && m.bits() == 8,
        m.is(sim48c12_parameters()) ==> m.cells() == 48 && m.bits() == 12,
        m.is(sim48c16_parameters()) ==> m.cells() == 48 && m.bits() == 16,
        m.is(sim96c32_parameters()) ==> m.cells() == 96 && m.bits() == 32,
        m.is(sim180c88_parameters()) ==> m.cells() == 180 && m.bits() == 88,
{
}

} // verus!
