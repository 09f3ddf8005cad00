//! Test vectors in JSON.
use simittag::codec::encode;
use simittag::contours::{find_contours, Contour};
use simittag::expect::Place;
use simittag::frame_vectors::{frame_variants, tag_matches, Tag};
use simittag::grid_vectors::{check_ranked_trip, grid_vectors};
use simittag::image::{adaptive_block, Gray};
use simittag::marker::{sim48c12, sim48c8, sim96c32};
use simittag::mode_vectors::{
    check_decode, mode_decode_vectors, mode_encode_vectors, mode_guards_vectors, Units,
};
use simittag::pairing::{tally, Outcome};
use simittag::payload::{encode_geo, encode_id, encode_raw, encode_tagged, Value};
use simittag::stage_vectors::{block_holds, contour_vectors, spec_vectors};
use simittag::text::{bytes_to_hex, grid_to_rows};
use simittag::vectors::{
    crc4_vectors, crc8_vectors, rs16_decode_vectors, rs16_encode_vectors, rs_decode_vectors,
    rs_encode_vectors,
};
use simittag::{gf16, gf256};

/// Passes, failures and which failures are shown.
fn counts(o: Option<Outcome>) -> (usize, usize, Vec<usize>) {
    let o = o.unwrap();
    (o.gate.pass, o.gate.fail, o.shown)
}

const NOWHERE: Place = Place { lat: None, lon: None, alt_m: 0 };

#[test]
fn tallies() {
    let o = tally("some", &[true, false, true, false]);
    assert_eq!((o.gate.name, o.gate.pass, o.gate.fail, o.shown), ("some", 2, 2, vec![1, 3]));
    let o = tally("many", &[false; 15]);
    assert_eq!((o.gate.pass, o.gate.fail, o.shown.len()), (0, 15, 10));
    assert!(tally("none", &[]).gate.passed());
}

#[test]
fn checksums_as_listed() {
    let crc = gf256::crc8(&[1, 2, 0xff]);
    let text = format!(
        "{{\"crc8\":[{{\"in\":\"0102ff\",\"out\":{}}},{{\"in\":\"0102ff\",\"out\":{}}},{{\"out\":0}},{{\"in\":\"\",\"out\":{}}}]}}",
        crc,
        crc ^ 1,
        gf256::crc8(&[])
    );
    assert_eq!(counts(crc8_vectors(&text)), (2, 2, vec![1, 2]));
    assert!(crc4_vectors(&text).is_none());
    assert!(crc8_vectors("no JSON").is_none());
    let text = format!(
        "{{\"crc4\":[{{\"in\":[1,2,15],\"out\":{}}},{{\"in\":[1,2,14],\"out\":{}}},{{\"in\":[\"1\"],\"out\":0}}]}}",
        gf16::crc4(&[1, 2, 15]),
        gf16::crc4(&[1, 2, 15])
    );
    assert_eq!(counts(crc4_vectors(&text)), (1, 2, vec![1, 2]));
}

#[test]
fn codewords_as_listed() {
    let code = bytes_to_hex(&gf256::rs_encode(&[1, 2, 3], 4));
    let text = format!(
        "{{\"rs_encode\":[{{\"data\":\"010203\",\"nsym\":4,\"code\":\"{}\"}},{{\"data\":\"010203\",\"nsym\":3,\"code\":\"{}\"}}]}}",
        code, code
    );
    assert_eq!(counts(rs_encode_vectors(&text)), (1, 1, vec![1]));
    let code = gf16::rs_encode(&[1, 2, 3], 3);
    let text = format!(
        "{{\"rs16_encode\":[{{\"data\":[1,2,3],\"nsym\":3,\"code\":{:?}}},{{\"data\":[1,2,4],\"nsym\":3,\"code\":{:?}}}]}}",
        code, code
    );
    assert_eq!(counts(rs16_encode_vectors(&text)), (1, 1, vec![1]));
}

#[test]
fn corrections_as_listed() {
    let mut word = gf256::rs_encode(&[1, 2, 3], 4);
    word[0] ^= 9;
    word[4] ^= 5;
    let hex = bytes_to_hex(&word);
    let noise = bytes_to_hex(&[1, 2, 3, 4, 5, 6, 7]);
    assert!(gf256::rs_decode(&[1, 2, 3, 4, 5, 6, 7], 4, &[]).is_err());
    let case = |recv: &str, erase: &str, out: &str| {
        format!("{{\"recv\":\"{}\",\"nsym\":4,\"erase\":{},\"out\":{}}}", recv, erase, out)
    };
    let text = format!(
        "{{\"rs_decode\":[{},{},{},{},{},{}]}}",
        case(&hex, "[]", "\"010203\""),
        case(&hex, "[0,4]", "\"010203\""),
        case(&noise, "[]", "null"),
        case(&hex, "[]", "null"),
        case(&noise, "[]", "\"010203\""),
        case(&hex, "[7]", "\"010203\"")
    );
    assert_eq!(counts(rs_decode_vectors(&text)), (3, 3, vec![3, 4, 5]));

    let mut word = gf16::rs_encode(&[1, 2, 3], 4);
    word[1] ^= 7;
    let case = |most: &str, out: &str| {
        format!(
            "{{\"recv\":{:?},\"nsym\":4,\"erase\":[],\"max_errors\":{},\"out\":{}}}",
            word, most, out
        )
    };
    let text = format!(
        "{{\"rs16_decode\":[{},{},{},{},{}]}}",
        case("null", "[1,2,3]"),
        case("0", "null"),
        case("1", "null"),
        case("null", "[1,2,4]"),
        case("null", "[257,2,3]")
    );
    assert_eq!(counts(rs16_decode_vectors(&text)), (2, 3, vec![2, 3, 4]));
}

#[test]
fn grids_as_listed() {
    let m = sim48c12();
    let payload = encode_id(0x5a5, &m).unwrap();
    let hex = bytes_to_hex(&payload);
    let rows = format!("{:?}", grid_to_rows(&encode(&payload, &m).unwrap(), m.sector_count));
    let trip = |shift: usize, flips: &str, out: &str, out_shift: usize| {
        format!(
            "{{\"shift\":{},\"flips\":{},\"erasures\":[[2,3]],\"out\":{},\"out_shift\":{}}}",
            shift, flips, out, out_shift
        )
    };
    let whole = format!("\"{}\"", hex);
    let text = format!(
        "{{\"grids\":{{\"sim48c12\":[{{\"payload\":\"{}\",\"grid\":{},\"cases\":[{},{},{},{},{}]}},{{\"payload\":\"{}\",\"grid\":[],\"cases\":[]}}]}}}}",
        hex,
        rows,
        trip(3, "[]", &whole, 3),
        trip(19, "[[1,0]]", &whole, 3),
        trip(3, "[]", "null", 3),
        trip(3, "[]", &whole, 4),
        trip(3, "[[3,0]]", &whole, 3),
        hex
    );
    assert_eq!(counts(grid_vectors(&text, &vec![sim48c12()])), (3, 4, vec![3, 4, 5, 6]));
    assert!(grid_vectors(&text, &vec![sim48c12(), sim48c8()]).is_none());

    // the cell after the last of a ring is the first of the next
    let beyond = |cell: &str| {
        let text = trip(3, cell, &whole, 3);
        format!(
            "{{\"grids\":{{\"sim48c12\":[{{\"payload\":\"{}\",\"grid\":{},\"cases\":[{}]}}]}}}}",
            hex, rows, text
        )
    };
    let passes = |cell: &str| counts(grid_vectors(&beyond(cell), &vec![sim48c12()])).0;
    assert_eq!(passes("[[1,16],[2,0]]"), 2);
    assert_eq!(passes("[[2,16]]"), 1);
    assert_eq!(passes("[[0,47],[2,15]]"), 2);

    let conf = vec![1.0f32.to_bits(); m.ring_count * m.sector_count];
    let low = 0.25f32.to_bits();
    assert!(check_ranked_trip(&m, &payload, &trip(5, "[[2,1]]", &whole, 5), &conf, low));
    assert!(!check_ranked_trip(&m, &payload, &trip(5, "[[2,1]]", "null", 5), &conf, low));
    assert!(!check_ranked_trip(&m, &payload, &trip(5, "[]", &whole, 4), &conf, low));
}

#[test]
fn payloads_as_listed() {
    let m = sim96c32();
    let case = |f: &str, args: &str, out: &[u8]| {
        format!(
            "{{\"variant\":\"sim96c32\",\"fn\":\"{}\",\"args\":{},\"out\":\"{}\"}}",
            f,
            args,
            bytes_to_hex(out)
        )
    };
    let id = encode_id(77, &m).unwrap();
    let raw = encode_raw(&[0xab], &m).unwrap();
    let tagged = encode_tagged(7, 300, &m).unwrap();
    let text = format!(
        "{{\"mode_encode\":[{},{},{},{},{},{}]}}",
        case("id", "[\"77\"]", &id),
        case("raw", "[\"ab\"]", &raw),
        case("tagged", "[\"7\",\"300\"]", &tagged),
        case("id", "[\"78\"]", &id),
        case("id", "[\"-1\"]", &id),
        case("other", "[\"77\"]", &id)
    );
    assert_eq!(counts(mode_encode_vectors(&text, &[])), (3, 3, vec![3, 4, 5]));

    let d = simittag::marker::sim180c88();
    let units = Units { lat: 1_000_000_000, lon: 2_000_000_000, alt_m: -3 };
    let geo = encode_geo(units.lat, units.lon, units.alt_m, &d).unwrap();
    let place = format!(
        "{{\"mode_encode\":[{{\"variant\":\"D\",\"fn\":\"geo\",\"args\":[\"10\",\"20\",\"-3\"],\"out\":\"{}\"}}]}}",
        bytes_to_hex(&geo)
    );
    assert_eq!(counts(mode_encode_vectors(&place, &[Some(units)])), (1, 0, vec![]));
    assert_eq!(counts(mode_encode_vectors(&place, &[None])), (0, 1, vec![0]));

    let guard = |variant: &str, f: &str, args: &str| {
        format!("{{\"variant\":\"{}\",\"fn\":\"{}\",\"args\":{}}}", variant, f, args)
    };
    let text = format!(
        "{{\"mode_guards\":[{},{},{},{},{},{}]}}",
        guard("s4k", "id", "[\"4096\"]"),
        guard("s4k", "raw", "[\"00\"]"),
        guard("s16m", "tagged", "[\"256\",\"1\"]"),
        guard("s16m", "id", "[\"x\"]"),
        guard("s4k", "id", "[\"4095\"]"),
        guard("s9", "id", "[\"4096\"]")
    );
    assert_eq!(counts(mode_guards_vectors(&text, &[])), (4, 2, vec![4, 5]));
}

#[test]
fn payloads_read_as_listed() {
    let m = sim96c32();
    let case = |payload: &[u8], mode: &str, value: &str| {
        format!(
            "{{\"variant\":\"sim96c32\",\"payload\":\"{}\",\"mode\":\"{}\",\"value\":{}}}",
            bytes_to_hex(payload),
            mode,
            value
        )
    };
    let id = encode_id(77, &m).unwrap();
    let raw = encode_raw(&[0xab], &m).unwrap();
    let tagged = encode_tagged(7, 300, &m).unwrap();
    let text = format!(
        "{{\"mode_decode\":[{},{},{},{},{}]}}",
        case(&id, "ID", "{\"int\":77}"),
        case(&raw, "RAW", "{\"hex\":\"ab\"}"),
        case(&tagged, "TAGGED", "{\"list\":[7,300]}"),
        case(&id, "RAW", "{\"int\":77}"),
        case(&id, "ID", "{\"int\":78}")
    );
    assert_eq!(counts(mode_decode_vectors(&text, &[])), (3, 2, vec![3, 4]));
    assert!(!check_decode("{}", &NOWHERE));
}

#[test]
fn parameters_as_listed() {
    let text = |alias: &str, k: usize| {
        format!(
            "{{\"sim48c8\":{{\"RING_COUNT\":3,\"SECTOR_COUNT\":16,\"RS_K\":{},\"RS_NSYM\":2,\"HAS_SYNC\":true,\"USE_HEADER\":false,\"ALIAS\":\"{}\",\"SYMBOL_BITS\":8,\"payload_bits\":8,\"MAX_ERRORS\":null,\"SYNC\":[1,1,0,0,0,0,1,1,0,0,1,1,0,1,1,1],\"data_ring_count\":2,\"first_data_ring\":1,\"payload_bytes\":1}}}}",
            k, alias
        )
    };
    let m = sim48c8();
    let (layout, sizes) = spec_vectors(&text("s256", 2), &m).unwrap();
    assert_eq!(layout, [true; 6]);
    assert_eq!(sizes, [true; 7]);
    let (layout, _) = spec_vectors(&text("s255", 3), &m).unwrap();
    assert_eq!(layout, [true, true, false, true, true, false]);
    // the low bytes of the pattern count
    let signed = text("s256", 2).replace("[1,1,0,0", "[-255,257,0,-256");
    assert_eq!(spec_vectors(&signed, &m).unwrap().1, [true; 7]);
    assert!(spec_vectors(&text("s256", 2), &sim48c12()).is_none());
    let (layout, sizes) = spec_vectors("{\"sim48c8\":{}}", &m).unwrap();
    assert_eq!(layout, [false; 6]);
    assert_eq!(sizes, [false, false, true, false, false, false, false]);
}

/// The contours of a square ring with a dot in it.
fn ring() -> Vec<Contour> {
    let mut px = vec![0u8; 49];
    for i in 0..7 {
        for j in 0..7 {
            let edge = i == 0 || i == 6 || j == 0 || j == 6;
            if edge || (i == 3 && j == 3) {
                px[i * 7 + j] = 255;
            }
        }
    }
    find_contours(&Gray { w: 7, h: 7, px })
}

/// Contours in text, the points of each in reverse order.
fn written(contours: &[Contour]) -> String {
    let items: Vec<String> = contours
        .iter()
        .map(|c| {
            let flat: Vec<String> =
                c.pts.iter().rev().map(|(x, y)| format!("{},{}", x, y)).collect();
            format!("{{\"pts\":[{}],\"hier\":[-1,-1,-1,{}]}}", flat.join(","), c.parent)
        })
        .collect();
    format!("{{\"block\":11,\"contours\":[{}]}}", items.join(","))
}

#[test]
fn contours_as_listed() {
    let contours = ring();
    assert_eq!(contours.len(), 3);
    let text = written(&contours);
    let a = contour_vectors(&text, &contours).unwrap();
    assert_eq!(a.partner, Some(vec![0, 1, 2]));
    assert!(a.nested);
    let a = contour_vectors(&text.replace("-1,1}", "-1,0}").replace("-1,1]", "-1,0]"), &contours);
    let a = a.unwrap();
    assert!(a.partner.is_some() && !a.nested);
    let a = contour_vectors(&text.replace("[3,3]", "[3,4]"), &contours).unwrap();
    assert!(a.partner.is_none() && !a.nested);
    let a = contour_vectors(&written(&contours[..2]), &contours).unwrap();
    assert!(a.partner.is_none());
    let a = contour_vectors("{\"contours\":[{}]}", &contours).unwrap();
    assert!(a.partner.is_none() && !a.nested);
    assert!(contour_vectors("{\"contours\":[{},{},{}]}", &contours).is_none());
    assert!(contour_vectors(&text.replace("hier", "other"), &contours).is_none());
    // the low bits of coordinates count
    let wide = text.replace("[3,3]", "[4294967299,-4294967293]");
    assert_eq!(contour_vectors(&wide, &contours).unwrap().partner, Some(vec![0, 1, 2]));
    assert!(contour_vectors("{}", &contours).is_none());
    assert_eq!(adaptive_block(7, 7), 11);
    assert!(block_holds(&text, 7, 7));
    assert!(!block_holds("{\"block\":13}", 7, 7));
    assert!(!block_holds("{}", 7, 7));
}

#[test]
fn frames_as_listed() {
    let names = |entry: &str| {
        frame_variants(entry).map(|v| v.iter().map(|m| m.name).collect::<Vec<_>>())
    };
    assert_eq!(names("{\"versions\":\"M\"}"), Some(vec!["sim96c32"]));
    assert_eq!(names("{\"versions\":[\"s4k\",\"D\"]}"), Some(vec!["sim48c12", "sim180c88"]));
    assert_eq!(names("{\"versions\":[\"s4k\",\"none\"]}"), None);
    assert_eq!(names("{\"versions\":[4]}"), None);
    assert_eq!(names("{\"versions\":null}").unwrap().len(), 3);

    let value = Value::Int(5);
    let tag = |inverted| Some(Tag { variant: "sim48c12", mode: "ID", value: &value, inverted });
    let want = "{\"decoded\":true,\"variant\":\"sim48c12\",\"mode\":\"ID\",\"value\":{\"int\":5},\"inverted\":false}";
    assert!(tag_matches(tag(false), want, false, &NOWHERE));
    assert!(tag_matches(tag(true), want, false, &NOWHERE));
    assert!(!tag_matches(tag(true), want, true, &NOWHERE));
    assert!(!tag_matches(None, want, false, &NOWHERE));
    assert!(tag_matches(None, "{\"decoded\":false}", false, &NOWHERE));
    assert!(!tag_matches(tag(false), "{\"decoded\":false}", false, &NOWHERE));
    assert!(!tag_matches(tag(false), &want.replace("5", "6"), false, &NOWHERE));
}
