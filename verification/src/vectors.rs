//! Test vectors of the codes: lists of cases in JSON, each with the outcome
//! that is expected.
//!
//! A case that lacks a member, or holds one that is of no use there, fails.
use crate::gf16;
use crate::gf256;
use crate::field::Gf;
use crate::gf16::crc4_of;
use crate::gf256::crc8_of;
use crate::json::{
    integers_at, items_at, json_integers, json_items, json_nothing, json_text, json_whole, json_wholes, nothing_at, text_at,
    texts, whole_at, wholes_at,
};
use crate::pairing::{tally, Outcome};
use crate::rs::{decoded, encoded};
use crate::text::{bytes_of, bytes_to_hex, hex_of, hex_to_bytes, same_text};
use vstd::prelude::*;

verus! {

/// The bytes that a member writes in hexadecimal.
pub open spec fn bytes_in(case: Seq<char>, path: Seq<char>) -> Option<Seq<u8>> {
    match json_text(case, path) {
        Some(s) => bytes_of(s),
        None => None,
    }
}

/// The bytes that a member writes in hexadecimal.
pub(crate) fn bytes_at(case: &str, path: &str) -> (r: Option<Vec<u8>>)
    ensures
        match r {
            Some(b) => bytes_in(case@, path@) == Some(b@),
            None => bytes_in(case@, path@) is None,
        },
{
    match text_at(case, path) {
        Some(s) => hex_to_bytes(s.as_str()),
        None => None,
    }
}

/// The low bytes of numbers.
pub open spec fn low_bytes(v: Seq<u64>) -> Seq<u8> {
    Seq::new(v.len(), |i: int| (v[i] % 256) as u8)
}

/// The symbols that a member lists.
pub open spec fn symbols_in(case: Seq<char>, path: Seq<char>) -> Option<Seq<u8>> {
    match json_wholes(case, path) {
        Some(v) => Some(low_bytes(v)),
        None => None,
    }
}

/// The symbols that a member lists.
fn symbols_at(case: &str, path: &str) -> (r: Option<Vec<u8>>)
    ensures
        match r {
            Some(b) => symbols_in(case@, path@) == Some(b@),
            None => symbols_in(case@, path@) is None,
        },
{
    let v = match wholes_at(case, path) {
        Some(v) => v,
        None => return None,
    };
    let n = v.len();
    let mut b: Vec<u8> = Vec::new();
    let mut i: usize = 0;
    while i < n
        invariant
            n == v@.len(),
            i <= n,
            b@ == low_bytes(v@).take(i as int),
        decreases n - i,
    {
        b.push((v[i] % 256) as u8);
        assert(b@ =~= low_bytes(v@).take(i + 1));
        i += 1;
    }
    assert(low_bytes(v@).take(n as int) =~= low_bytes(v@));
    Some(b)
}

/// Numbers as positions.
pub open spec fn positions(v: Seq<u64>) -> Seq<usize> {
    Seq::new(v.len(), |i: int| v[i] as usize)
}

/// The positions that a member lists, all of them below `len`.
pub open spec fn positions_in(case: Seq<char>, path: Seq<char>, len: int) -> Option<Seq<usize>> {
    match json_wholes(case, path) {
        Some(v) => if forall|i: int| 0 <= i < v.len() ==> #[trigger] v[i] < len {
            Some(positions(v))
        } else {
            None
        },
        None => None,
    }
}

/// The positions that a member lists.
fn positions_at(case: &str, path: &str, len: usize) -> (r: Option<Vec<usize>>)
    ensures
        match r {
            Some(p) => positions_in(case@, path@, len as int) == Some(p@) && (forall|i: int|
                0 <= i < p@.len() ==> #[trigger] p@[i] < len),
            None => positions_in(case@, path@, len as int) is None,
        },
{
    let v = match wholes_at(case, path) {
        Some(v) => v,
        None => return None,
    };
    let n = v.len();
    let mut p: Vec<usize> = Vec::new();
    let mut i: usize = 0;
    while i < n
        invariant
            n == v@.len(),
            i <= n,
            p@.len() == i,
            json_wholes(case@, path@) == Some(v@),
            forall|k: int| 0 <= k < i ==> #[trigger] v@[k] < len,
            forall|k: int| 0 <= k < i ==> #[trigger] p@[k] == v@[k],
        decreases n - i,
    {
        let x = v[i];
        if x >= len as u64 {
            assert(!(v@[i as int] < len));
            return None;
        }
        p.push(x as usize);
        i += 1;
    }
    assert(p@ =~= positions(v@));
    Some(p)
}

/// Whether a member writes the expected bytes in hexadecimal, or nothing where
/// none are expected.
pub open spec fn is_outcome(got: Option<Seq<u8>>, case: Seq<char>, path: Seq<char>) -> bool {
    match got {
        Some(b) => json_text(case, path) == Some(hex_of(b)),
        None => json_nothing(case, path),
    }
}

/// Whether a member writes the bytes in hexadecimal.
pub(crate) fn writes(case: &str, path: &str, b: &[u8]) -> (r: bool)
    ensures
        r == (json_text(case@, path@) == Some(hex_of(b@))),
{
    match text_at(case, path) {
        Some(s) => same_text(s.as_str(), bytes_to_hex(b).as_str()),
        None => false,
    }
}

/// Whether two lists of bytes are the same.
pub(crate) fn same_bytes(a: &[u8], b: &[u8]) -> (r: bool)
    ensures
        r == (a@ == b@),
{
    let n = a.len();
    if n != b.len() {
        return false;
    }
    let mut i: usize = 0;
    while i < n
        invariant
            n == a@.len(),
            n == b@.len(),
            i <= n,
            forall|k: int| 0 <= k < i ==> #[trigger] a@[k] == b@[k],
        decreases n - i,
    {
        if a[i] != b[i] {
            return false;
        }
        i += 1;
    }
    assert(a@ =~= b@);
    true
}

/// Symbols as numbers.
pub open spec fn numbers(b: Seq<u8>) -> Seq<i64> {
    Seq::new(b.len(), |i: int| b[i] as i64)
}

/// Whether numbers are those of symbols.
fn same_numbers(v: &[i64], b: &[u8]) -> (r: bool)
    ensures
        r == (v@ == numbers(b@)),
{
    let n = v.len();
    if n != b.len() {
        assert(v@.len() != numbers(b@).len());
        return false;
    }
    let mut i: usize = 0;
    while i < n
        invariant
            n == v@.len(),
            n == b@.len(),
            i <= n,
            forall|k: int| 0 <= k < i ==> #[trigger] v@[k] == numbers(b@)[k],
        decreases n - i,
    {
        if v[i] != b[i] as i64 {
            assert(v@[i as int] != numbers(b@)[i as int]);
            return false;
        }
        i += 1;
    }
    assert(v@ =~= numbers(b@));
    true
}

/// A list of test vectors.
#[derive(Clone, Copy, Debug, PartialEq, Eq, Structural)]
pub enum List {
    /// 8-bit checksums.
    Crc8,
    /// Codewords of bytes.
    RsEncode,
    /// 4-bit checksums.
    Crc4,
    /// Codewords of 4-bit symbols.
    Rs16Encode,
    /// Decoding of 4-bit symbols.
    Rs16Decode,
    /// Decoding of bytes.
    RsDecode,
}

/// Whether the checksum of the bytes `in` is `out`.
pub open spec fn crc8_holds(case: Seq<char>) -> bool {
    match (bytes_in(case, "/in"@), json_whole(case, "/out"@)) {
        (Some(b), Some(out)) => crc8_of(b) == out,
        _ => false,
    }
}

/// Whether the checksum of the symbols `in` is `out`.
pub open spec fn crc4_holds(case: Seq<char>) -> bool {
    match (symbols_in(case, "/in"@), json_whole(case, "/out"@)) {
        (Some(b), Some(out)) => crc4_of(b) == out,
        _ => false,
    }
}

/// Whether the codeword of the bytes `data` with `nsym` parity symbols is
/// `code`.
pub open spec fn rs_encode_holds(case: Seq<char>) -> bool {
    match (bytes_in(case, "/data"@), json_whole(case, "/nsym"@)) {
        (Some(b), Some(n)) => b.len() + n + 3 <= usize::MAX && json_text(case, "/code"@) == Some(
            hex_of(encoded(Gf::Byte, b, n as nat)),
        ),
        _ => false,
    }
}

/// Whether the codeword of the symbols `data` with `nsym` parity symbols is
/// `code`.
pub open spec fn rs16_encode_holds(case: Seq<char>) -> bool {
    match (symbols_in(case, "/data"@), json_whole(case, "/nsym"@)) {
        (Some(b), Some(n)) => b.len() + n + 3 <= usize::MAX && symbols_in(case, "/code"@) == Some(
            encoded(Gf::Nibble, b, n as nat),
        ),
        _ => false,
    }
}

/// Whether a word is within the limits of decoding.
pub open spec fn decodable(word: Seq<u8>, nsym: u64) -> bool {
    nsym <= word.len() && 2 * word.len() + nsym + 3 <= usize::MAX
}

/// The data of a word after correction.
pub open spec fn data_of(
    f: Gf,
    word: Seq<u8>,
    nsym: u64,
    erased: Seq<usize>,
    most: Option<usize>,
) -> Option<Seq<u8>> {
    match decoded(f, word, nsym as nat, erased, most) {
        Some(c) => Some(c.take(word.len() - nsym)),
        None => None,
    }
}

/// Whether the word `recv`, with `nsym` parity symbols and the erasures
/// `erase`, is corrected to the bytes `out`, or `out` is nothing and it cannot
/// be corrected.
pub open spec fn rs_decode_holds(case: Seq<char>) -> bool {
    match (bytes_in(case, "/recv"@), json_whole(case, "/nsym"@)) {
        (Some(w), Some(n)) => decodable(w, n) && (positions_in(case, "/erase"@, w.len() as int)
            matches Some(e) && is_outcome(data_of(Gf::Byte, w, n, e, None), case, "/out"@)),
        _ => false,
    }
}

/// The number of errors that may be corrected at most.
pub open spec fn most_errors(case: Seq<char>) -> Option<usize> {
    match json_whole(case, "/max_errors"@) {
        Some(v) => Some(v as usize),
        None => None,
    }
}

/// Whether the word `recv`, with `nsym` parity symbols, the erasures `erase`
/// and at most `max_errors` errors, is corrected to the symbols `out`, or `out`
/// is nothing and it cannot be corrected.
pub open spec fn rs16_decode_holds(case: Seq<char>) -> bool {
    match (symbols_in(case, "/recv"@), json_whole(case, "/nsym"@)) {
        (Some(w), Some(n)) => decodable(w, n) && (positions_in(case, "/erase"@, w.len() as int)
            matches Some(e) && match data_of(Gf::Nibble, w, n, e, most_errors(case)) {
            Some(d) => json_integers(case, "/out"@) == Some(numbers(d)),
            None => json_nothing(case, "/out"@),
        }),
        _ => false,
    }
}

/// Whether a case holds.
pub open spec fn holds(list: List, case: Seq<char>) -> bool {
    match list {
        List::Crc8 => crc8_holds(case),
        List::RsEncode => rs_encode_holds(case),
        List::Crc4 => crc4_holds(case),
        List::Rs16Encode => rs16_encode_holds(case),
        List::Rs16Decode => rs16_decode_holds(case),
        List::RsDecode => rs_decode_holds(case),
    }
}

/// Whether the cases of a list hold.
pub open spec fn verdicts(list: List, cases: Seq<Seq<char>>) -> Seq<bool> {
    Seq::new(cases.len(), |i: int| holds(list, cases[i]))
}

/// Whether the checksum of the bytes `in` is `out`.
fn check_crc8(case: &str) -> (b: bool)
    ensures
        b == crc8_holds(case@),
{
    match (bytes_at(case, "/in"), whole_at(case, "/out")) {
        (Some(b), Some(out)) => gf256::crc8(&b) as u64 == out,
        _ => false,
    }
}

/// Whether the checksum of the symbols `in` is `out`.
fn check_crc4(case: &str) -> (b: bool)
    ensures
        b == crc4_holds(case@),
{
    match (symbols_at(case, "/in"), whole_at(case, "/out")) {
        (Some(b), Some(out)) => gf16::crc4(&b) as u64 == out,
        _ => false,
    }
}

/// Whether a codeword is within the limits of encoding.
fn is_encodable(len: usize, nsym: u64) -> (b: bool)
    ensures
        b == (len + nsym + 3 <= usize::MAX),
{
    let most: usize = usize::MAX;
    len <= most - 3 && nsym <= (most - 3 - len) as u64
}

/// Whether the codeword of the bytes `data` is `code`.
fn check_rs_encode(case: &str) -> (b: bool)
    ensures
        b == rs_encode_holds(case@),
{
    match (bytes_at(case, "/data"), whole_at(case, "/nsym")) {
        (Some(b), Some(n)) => is_encodable(b.len(), n) && writes(
            case,
            "/code",
            &gf256::rs_encode(&b, n as usize),
        ),
        _ => false,
    }
}

/// Whether the codeword of the symbols `data` is `code`.
fn check_rs16_encode(case: &str) -> (b: bool)
    ensures
        b == rs16_encode_holds(case@),
{
    match (symbols_at(case, "/data"), whole_at(case, "/nsym")) {
        (Some(b), Some(n)) => {
            if !is_encodable(b.len(), n) {
                return false;
            }
            let code = gf16::rs_encode(&b, n as usize);
            match symbols_at(case, "/code") {
                Some(want) => same_bytes(&want, &code),
                None => false,
            }
        },
        _ => false,
    }
}

/// Whether a word is within the limits of decoding.
fn is_decodable(word: &[u8], nsym: u64) -> (b: bool)
    ensures
        b == decodable(word@, nsym),
{
    let len = word.len();
    let most: usize = usize::MAX;
    len <= (most - 3) / 2 && nsym <= len as u64 && nsym as usize <= most - 3 - 2 * len
}

/// Whether the word `recv` is corrected to the bytes `out`, or to nothing.
fn check_rs_decode(case: &str) -> (b: bool)
    ensures
        b == rs_decode_holds(case@),
{
    let (word, nsym) = match (bytes_at(case, "/recv"), whole_at(case, "/nsym")) {
        (Some(w), Some(n)) => (w, n),
        _ => return false,
    };
    if !is_decodable(&word, nsym) {
        return false;
    }
    let erased = match positions_at(case, "/erase", word.len()) {
        Some(e) => e,
        None => return false,
    };
    match gf256::rs_decode(&word, nsym as usize, &erased) {
        Ok((data, _)) => writes(case, "/out", &data),
        Err(_) => nothing_at(case, "/out"),
    }
}

/// Whether the word `recv` is corrected to the symbols `out`, or to nothing.
fn check_rs16_decode(case: &str) -> (b: bool)
    ensures
        b == rs16_decode_holds(case@),
{
    let (word, nsym) = match (symbols_at(case, "/recv"), whole_at(case, "/nsym")) {
        (Some(w), Some(n)) => (w, n),
        _ => return false,
    };
    if !is_decodable(&word, nsym) {
        return false;
    }
    let erased = match positions_at(case, "/erase", word.len()) {
        Some(e) => e,
        None => return false,
    };
    let most: Option<usize> = match whole_at(case, "/max_errors") {
        Some(v) => Some(v as usize),
        None => None,
    };
    match gf16::rs_decode(&word, nsym as usize, &erased, most) {
        Ok((data, _)) => match integers_at(case, "/out") {
            Some(want) => same_numbers(&want, &data),
            None => false,
        },
        Err(_) => nothing_at(case, "/out"),
    }
}

/// Whether a case holds.
pub fn check_case(list: List, case: &str) -> (b: bool)
    ensures
        b == holds(list, case@),
{
    match list {
        List::Crc8 => check_crc8(case),
        List::RsEncode => check_rs_encode(case),
        List::Crc4 => check_crc4(case),
        List::Rs16Encode => check_rs16_encode(case),
        List::Rs16Decode => check_rs16_decode(case),
        List::RsDecode => check_rs_decode(case),
    }
}

/// Whether the cases of a list hold.
fn check_cases(list: List, cases: &Vec<String>) -> (ok: Vec<bool>)
    ensures
        ok@ == verdicts(list, texts(cases@)),
{
    let n = cases.len();
    let mut ok: Vec<bool> = Vec::new();
    let mut i: usize = 0;
    while i < n
        invariant
            n == cases@.len(),
            i <= n,
            ok@ == verdicts(list, texts(cases@)).take(i as int),
        decreases n - i,
    {
        ok.push(check_case(list, cases[i].as_str()));
        assert(ok@ =~= verdicts(list, texts(cases@)).take(i + 1));
        i += 1;
    }
    assert(ok@ =~= verdicts(list, texts(cases@)));
    ok
}

/// What the cases of a list come to. None where there is no list.
pub open spec fn comes_to(
    r: Option<Outcome>,
    name: Seq<char>,
    list: List,
    cases: Option<Seq<Seq<char>>>,
) -> bool {
    match cases {
        None => r is None,
        Some(cases) => r matches Some(o) && o.tallies(name, verdicts(list, cases)),
    }
}

/// The test vectors of 8-bit checksums.
pub fn crc8_vectors(text: &str) -> (r: Option<Outcome>)
    ensures
        comes_to(r, "crc8"@, List::Crc8, json_items(text@, "/crc8"@)),
{
    match items_at(text, "/crc8") {
        Some(cases) => Some(tally("crc8", &check_cases(List::Crc8, &cases))),
        None => None,
    }
}

/// The test vectors of codewords of bytes.
pub fn rs_encode_vectors(text: &str) -> (r: Option<Outcome>)
    ensures
        comes_to(r, "rs_encode"@, List::RsEncode, json_items(text@, "/rs_encode"@)),
{
    match items_at(text, "/rs_encode") {
        Some(cases) => Some(tally("rs_encode", &check_cases(List::RsEncode, &cases))),
        None => None,
    }
}

/// The test vectors of 4-bit checksums.
pub fn crc4_vectors(text: &str) -> (r: Option<Outcome>)
    ensures
        comes_to(r, "crc4"@, List::Crc4, json_items(text@, "/crc4"@)),
{
    match items_at(text, "/crc4") {
        Some(cases) => Some(tally("crc4", &check_cases(List::Crc4, &cases))),
        None => None,
    }
}

/// The test vectors of codewords of 4-bit symbols.
pub fn rs16_encode_vectors(text: &str) -> (r: Option<Outcome>)
    ensures
        comes_to(r, "rs16_encode"@, List::Rs16Encode, json_items(text@, "/rs16_encode"@)),
{
    match items_at(text, "/rs16_encode") {
        Some(cases) => Some(tally("rs16_encode", &check_cases(List::Rs16Encode, &cases))),
        None => None,
    }
}

/// The test vectors of decoding 4-bit symbols.
pub fn rs16_decode_vectors(text: &str) -> (r: Option<Outcome>)
    ensures
        comes_to(r, "rs16_decode"@, List::Rs16Decode, json_items(text@, "/rs16_decode"@)),
{
    match items_at(text, "/rs16_decode") {
        Some(cases) => Some(tally("rs16_decode", &check_cases(List::Rs16Decode, &cases))),
        None => None,
    }
}

/// The test vectors of decoding bytes.
pub fn rs_decode_vectors(text: &str) -> (r: Option<Outcome>)
    ensures
        comes_to(r, "rs_decode"@, List::RsDecode, json_items(text@, "/rs_decode"@)),
{
    match items_at(text, "/rs_decode") {
        Some(cases) => Some(tally("rs_decode", &check_cases(List::RsDecode, &cases))),
        None => None,
    }
}

} // verus!
