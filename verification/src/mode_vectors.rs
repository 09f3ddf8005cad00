//! Test vectors of payloads: what is encoded, what is refused, and what is
//! read of them.
use crate::digits::power;
use crate::expect::{meets, value_matches, Place};
use crate::json::{
    items_at, json_items, json_text, json_texts, json_written, text_at, texts, texts_at,
    written_at,
};
use crate::marker::{by_name, parameters_of, MarkerSpec, Parameters};
use crate::pairing::{tally, Outcome};
use crate::payload::{decode, encode_geo, encode_id, encode_raw, encode_tagged, geo_refused};
use crate::payload_laws::lemma_bits;
use crate::text::{bytes_of, hex_of, hex_to_bytes, number_of, parse_number, same_text};
use crate::vectors::{bytes_at, bytes_in, writes};
use vstd::prelude::*;

verus! {

/// The variant with some parameters.
pub open spec fn variant_with(p: Parameters) -> MarkerSpec {
    choose|m: MarkerSpec| m.is(p) && m.wf()
}

/// A place in the units of `encode_geo`, which takes those that are out of
/// range too.
#[derive(Clone, Copy, Debug)]
pub struct Units {
    /// The latitude.
    pub lat: i64,
    /// The longitude.
    pub lon: i64,
    /// The altitude in meters.
    pub alt_m: i64,
}

/// The payload of a number in text.
pub open spec fn id_encoding(m: &MarkerSpec, s: Seq<char>) -> Option<Seq<u8>> {
    match number_of(s) {
        Some(v) => if v <= u128::MAX && m.holds_id(v) {
            Some(m.id_payload(v))
        } else {
            None
        },
        None => None,
    }
}

/// The payload of bytes.
pub open spec fn raw_encoding(m: &MarkerSpec, b: Seq<u8>) -> Option<Seq<u8>> {
    if m.use_header && b.len() < m.body() {
        Some(m.raw_payload(b))
    } else {
        None
    }
}

/// The payload of a number within a namespace, both in text.
pub open spec fn tagged_encoding(m: &MarkerSpec, namespace: Seq<char>, id: Seq<char>) -> Option<
    Seq<u8>,
> {
    match (number_of(namespace), number_of(id)) {
        (Some(n), Some(v)) => if m.use_header && n <= 255 && v <= u128::MAX && v < power(
            256,
            (m.body() - 1) as nat,
        ) {
            Some(m.tagged_payload(n as u8, v))
        } else {
            None
        },
        _ => None,
    }
}

/// The payload of a place.
pub open spec fn geo_encoding(m: &MarkerSpec, units: Option<Units>) -> Option<Seq<u8>> {
    match units {
        Some(u) => if geo_refused(m, u.lat as int, u.lon as int, u.alt_m as int) is None {
            Some(m.geo_payload(u.lat as nat, u.lon as nat, u.alt_m as int))
        } else {
            None
        },
        None => None,
    }
}

/// The payload that the mode `fn` makes of the texts `args`, or nothing where
/// it refuses them. None where the case is not one of encoding. The place is
/// given, for that in the texts is in degrees; it is missing where they are no
/// numbers.
pub open spec fn encoding(m: &MarkerSpec, case: Seq<char>, units: Option<Units>) -> Option<
    Option<Seq<u8>>,
> {
    match (json_text(case, "/fn"@), json_texts(case, "/args"@)) {
        (Some(mode), Some(args)) => if mode == "id"@ && args.len() >= 1 {
            Some(id_encoding(m, args[0]))
        } else if mode == "raw"@ && args.len() >= 1 {
            match bytes_of(args[0]) {
                Some(b) => Some(raw_encoding(m, b)),
                None => None,
            }
        } else if mode == "tagged"@ && args.len() >= 2 {
            Some(tagged_encoding(m, args[0], args[1]))
        } else if mode == "geo"@ && args.len() >= 3 {
            Some(geo_encoding(m, units))
        } else {
            None
        },
        _ => None,
    }
}

/// The variant of a case.
pub open spec fn variant_in(case: Seq<char>) -> Option<Parameters> {
    match json_text(case, "/variant"@) {
        Some(name) => parameters_of(name),
        None => None,
    }
}

/// Whether the payload of a case is `out`.
pub open spec fn encode_holds(case: Seq<char>, units: Option<Units>) -> bool {
    variant_in(case) matches Some(p) && encoding(&variant_with(p), case, units) matches Some(Some(b))
        && json_text(case, "/out"@) == Some(hex_of(b))
}

/// Whether a case is refused.
pub open spec fn guard_holds(case: Seq<char>, units: Option<Units>) -> bool {
    variant_in(case) matches Some(p) && encoding(&variant_with(p), case, units) == Some(
        None::<Seq<u8>>,
    )
}

/// Whether the payload of a case is read in the mode `mode` as `value`.
pub open spec fn decode_holds(case: Seq<char>, place: Place) -> bool {
    match (variant_in(case), bytes_in(case, "/payload"@)) {
        (Some(p), Some(b)) => variant_with(p).meaning(b) matches Ok((mode, v)) && json_text(
            case,
            "/mode"@,
        ) == Some(mode) && (json_written(case, "/value"@) matches Some(want) && meets(
            v,
            want,
            place,
        )),
        _ => false,
    }
}

/// Variants with the same parameters make the same payloads and read them in
/// the same way.
proof fn lemma_same_variant(a: &MarkerSpec, b: &MarkerSpec, p: Parameters)
    requires
        a.is(p),
        b.is(p),
    ensures
        forall|case: Seq<char>, u: Option<Units>| #[trigger]
            encoding(a, case, u) == encoding(b, case, u),
        forall|payload: Seq<u8>| #[trigger] a.meaning(payload) == b.meaning(payload),
{
    assert(a.bits() == b.bits());
    assert(a.body() == b.body());
    assert forall|case: Seq<char>, u: Option<Units>| #[trigger]
        encoding(a, case, u) == encoding(b, case, u) by {
        assert(forall|v: nat| #[trigger] a.id_payload(v) == b.id_payload(v));
        assert(forall|d: Seq<u8>| #[trigger] a.raw_payload(d) == b.raw_payload(d));
        assert(forall|n: u8, v: nat| #[trigger] a.tagged_payload(n, v) == b.tagged_payload(n, v));
        assert(forall|x: nat, y: nat, z: int| #[trigger]
            a.geo_payload(x, y, z) == b.geo_payload(x, y, z));
        assert(forall|x: int, y: int, z: int| #[trigger]
            geo_refused(a, x, y, z) == geo_refused(b, x, y, z));
    }
}

/// A variant that has a header has room behind it.
proof fn lemma_room(m: &MarkerSpec, name: Seq<char>)
    requires
        parameters_of(name) matches Some(p) && m.is(p),
        m.wf(),
    ensures
        m.use_header ==> m.body() >= 1,
{
    if m.use_header {
        if m.rs_k == 5 {
            lemma_bits(m, 5, 8);
        } else {
            lemma_bits(m, 12, 8);
        }
    }
}

/// The payload of a case.
fn encode_case(m: &MarkerSpec, case: &str, units: Option<Units>) -> (r: Option<Option<Vec<u8>>>)
    requires
        m.wf(),
        m.use_header ==> m.body() >= 1,
    ensures
        match encoding(m, case@, units) {
            None => r is None,
            Some(None) => r matches Some(None),
            Some(Some(b)) => r matches Some(Some(v)) && v@ == b,
        },
{
    let (mode, args) = match (text_at(case, "/fn"), texts_at(case, "/args")) {
        (Some(mode), Some(args)) => (mode, args),
        _ => return None,
    };
    let n = args.len();
    assert(texts(args@).len() == n);
    assert(forall|i: int| 0 <= i < n ==> #[trigger] texts(args@)[i] == args@[i]@);
    if same_text(mode.as_str(), "id") && n >= 1 {
        let v = match parse_number(args[0].as_str(), u128::MAX) {
            Some(v) => v,
            None => return Some(None),
        };
        return match encode_id(v, m) {
            Ok(b) => Some(Some(b)),
            Err(_) => Some(None),
        };
    }
    if same_text(mode.as_str(), "raw") && n >= 1 {
        let data = match hex_to_bytes(args[0].as_str()) {
            Some(data) => data,
            None => return None,
        };
        return match encode_raw(&data, m) {
            Ok(b) => Some(Some(b)),
            Err(_) => Some(None),
        };
    }
    if same_text(mode.as_str(), "tagged") && n >= 2 {
        let namespace = match parse_number(args[0].as_str(), 65535) {
            Some(v) => v,
            None => return Some(None),
        };
        let v = match parse_number(args[1].as_str(), u128::MAX) {
            Some(v) => v,
            None => return Some(None),
        };
        return match encode_tagged(namespace as u16, v, m) {
            Ok(b) => Some(Some(b)),
            Err(_) => Some(None),
        };
    }
    if same_text(mode.as_str(), "geo") && n >= 3 {
        return match units {
            Some(u) => match encode_geo(u.lat, u.lon, u.alt_m, m) {
                Ok(b) => Some(Some(b)),
                Err(_) => Some(None),
            },
            None => Some(None),
        };
    }
    None
}

/// The variant of a case.
fn variant_at(case: &str) -> (r: Option<MarkerSpec>)
    ensures
        match variant_in(case@) {
            Some(p) => r matches Some(m) && m.is(p) && m.wf() && (m.use_header ==> m.body() >= 1),
            None => r is None,
        },
{
    match text_at(case, "/variant") {
        Some(name) => {
            let r = by_name(name.as_str());
            proof {
                if r is Some {
                    lemma_room(&r.unwrap(), name@);
                }
            }
            r
        },
        None => None,
    }
}

/// Whether the payload of a case is `out`.
pub fn check_encode(case: &str, units: Option<Units>) -> (b: bool)
    ensures
        b == encode_holds(case@, units),
{
    let m = match variant_at(case) {
        Some(m) => m,
        None => return false,
    };
    proof {
        let p = variant_in(case@).unwrap();
        assert(m.is(p) && m.wf());
        lemma_same_variant(&m, &variant_with(p), p);
    }
    match encode_case(&m, case, units) {
        Some(Some(b)) => writes(case, "/out", &b),
        _ => false,
    }
}

/// Whether a case is refused.
pub fn check_guard(case: &str, units: Option<Units>) -> (b: bool)
    ensures
        b == guard_holds(case@, units),
{
    let m = match variant_at(case) {
        Some(m) => m,
        None => return false,
    };
    proof {
        let p = variant_in(case@).unwrap();
        assert(m.is(p) && m.wf());
        lemma_same_variant(&m, &variant_with(p), p);
    }
    match encode_case(&m, case, units) {
        Some(None) => true,
        _ => false,
    }
}

/// Whether the payload of a case is read as it should be.
pub fn check_decode(case: &str, place: &Place) -> (b: bool)
    ensures
        b == decode_holds(case@, *place),
{
    let (m, payload) = match (variant_at(case), bytes_at(case, "/payload")) {
        (Some(m), Some(b)) => (m, b),
        _ => return false,
    };
    proof {
        let p = variant_in(case@).unwrap();
        assert(m.is(p) && m.wf());
        lemma_same_variant(&m, &variant_with(p), p);
    }
    let (mode, value) = match decode(&payload, &m) {
        Ok(r) => r,
        Err(_) => return false,
    };
    let same = match text_at(case, "/mode") {
        Some(s) => same_text(s.as_str(), mode),
        None => false,
    };
    match written_at(case, "/value") {
        Some(want) => same && value_matches(&value, want.as_str(), place),
        None => false,
    }
}

/// The place of a case, where one is given.
pub open spec fn units_of(places: Seq<Option<Units>>, i: int) -> Option<Units> {
    if i < places.len() {
        places[i]
    } else {
        None
    }
}

/// Whether cases are encoded as they should be, or are refused.
pub open spec fn encode_verdicts(
    cases: Seq<Seq<char>>,
    places: Seq<Option<Units>>,
    refused: bool,
) -> Seq<bool> {
    Seq::new(
        cases.len(),
        |i: int|
            if refused {
                guard_holds(cases[i], units_of(places, i))
            } else {
                encode_holds(cases[i], units_of(places, i))
            },
    )
}

/// Whether cases are encoded as they should be, or are refused.
fn check_encodes(cases: &Vec<String>, places: &[Option<Units>], refused: bool) -> (ok: Vec<bool>)
    ensures
        ok@ == encode_verdicts(texts(cases@), places@, refused),
{
    let n = cases.len();
    let mut ok: Vec<bool> = Vec::new();
    let mut i: usize = 0;
    let ghost all = encode_verdicts(texts(cases@), places@, refused);
    while i < n
        invariant
            n == cases@.len(),
            i <= n,
            all == encode_verdicts(texts(cases@), places@, refused),
            ok@ == all.take(i as int),
        decreases n - i,
    {
        let units = if i < places.len() {
            places[i]
        } else {
            None
        };
        let b = if refused {
            check_guard(cases[i].as_str(), units)
        } else {
            check_encode(cases[i].as_str(), units)
        };
        ok.push(b);
        assert(all[i as int] == b);
        assert(ok@ =~= all.take(i + 1));
        i += 1;
    }
    assert(all.take(n as int) =~= all);
    ok
}

/// The test vectors of encoding. The places of the cases are given, for those
/// in the text are in degrees.
pub fn mode_encode_vectors(text: &str, places: &[Option<Units>]) -> (r: Option<Outcome>)
    ensures
        match json_items(text@, "/mode_encode"@) {
            None => r is None,
            Some(cases) => r matches Some(o) && o.tallies(
                "mode_encode"@,
                encode_verdicts(cases, places@, false),
            ),
        },
{
    match items_at(text, "/mode_encode") {
        Some(cases) => Some(tally("mode_encode", &check_encodes(&cases, places, false))),
        None => None,
    }
}

/// The test vectors of what is refused. The places of the cases are given, for
/// those in the text are in degrees.
pub fn mode_guards_vectors(text: &str, places: &[Option<Units>]) -> (r: Option<Outcome>)
    ensures
        match json_items(text@, "/mode_guards"@) {
            None => r is None,
            Some(cases) => r matches Some(o) && o.tallies(
                "mode_guards"@,
                encode_verdicts(cases, places@, true),
            ),
        },
{
    match items_at(text, "/mode_guards") {
        Some(cases) => Some(tally("mode_guards", &check_encodes(&cases, places, true))),
        None => None,
    }
}

/// No place.
pub open spec fn nowhere() -> Place {
    Place { lat: None, lon: None, alt_m: 0 }
}

/// Whether cases are read as they should be.
pub open spec fn decode_verdicts(cases: Seq<Seq<char>>, places: Seq<Place>) -> Seq<bool> {
    Seq::new(
        cases.len(),
        |i: int|
            decode_holds(
                cases[i],
                if i < places.len() {
                    places[i]
                } else {
                    nowhere()
                },
            ),
    )
}

/// The test vectors of decoding. The places of the cases are given, for those
/// in the text are in degrees.
pub fn mode_decode_vectors(text: &str, places: &[Place]) -> (r: Option<Outcome>)
    ensures
        match json_items(text@, "/mode_decode"@) {
            None => r is None,
            Some(cases) => r matches Some(o) && o.tallies(
                "mode_decode"@,
                decode_verdicts(cases, places@),
            ),
        },
{
    let cases = match items_at(text, "/mode_decode") {
        Some(cases) => cases,
        None => return None,
    };
    let n = cases.len();
    let mut ok: Vec<bool> = Vec::new();
    let mut i: usize = 0;
    let ghost all = decode_verdicts(texts(cases@), places@);
    while i < n
        invariant
            n == cases@.len(),
            i <= n,
            all == decode_verdicts(texts(cases@), places@),
            ok@ == all.take(i as int),
        decreases n - i,
    {
        let place = if i < places.len() {
            places[i]
        } else {
            Place { lat: None, lon: None, alt_m: 0 }
        };
        let b = check_decode(cases[i].as_str(), &place);
        ok.push(b);
        assert(all[i as int] == b);
        assert(ok@ =~= all.take(i + 1));
        i += 1;
    }
    assert(all.take(n as int) =~= all);
    Some(tally("mode_decode", &ok))
}

} // verus!
