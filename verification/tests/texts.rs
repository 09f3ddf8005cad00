//! Text: names, numbers, labels.
use simittag::expect::{value_matches, Place};
use simittag::payload::Value;
use simittag::registry::{
    pinned_or_default, variants_all_named, variants_named, variants_or_default,
};
use simittag::text::{
    bytes_to_hex, format_value, grid_to_rows, hex_to_bytes, number_text, parse_number, same_text,
    sanitize_frame, split_commas, value_members,
};

#[test]
fn hexadecimal() {
    assert_eq!(bytes_to_hex(&[0, 0x0f, 0xa5, 255]), "000fa5ff");
    assert_eq!(bytes_to_hex(&[]), "");
    assert_eq!(hex_to_bytes("000fa5ff"), Some(vec![0, 0x0f, 0xa5, 255]));
    assert_eq!(hex_to_bytes("C0ffEE"), Some(vec![0xc0, 0xff, 0xee]));
    assert_eq!(hex_to_bytes(""), Some(vec![]));
    assert_eq!(hex_to_bytes("abc"), None);
    assert_eq!(hex_to_bytes("zz"), None);
    let all: Vec<u8> = (0..=255).collect();
    assert_eq!(hex_to_bytes(&bytes_to_hex(&all)), Some(all));
}

#[test]
fn numbers_in_text() {
    for v in [0u128, 9, 10, 255, 4096, u128::MAX] {
        assert_eq!(number_text(v, 10), v.to_string());
        assert_eq!(number_text(v, 16), format!("{:x}", v));
    }
}

#[test]
fn commas() {
    assert_eq!(split_commas("a,bc,,d"), ["a", "bc", "", "d"]);
    assert_eq!(split_commas(""), [""]);
    assert!(same_text("abc", "abc"));
    assert!(!same_text("abc", "abd"));
    assert!(!same_text("abc", "ab"));
}

#[test]
fn labels() {
    assert_eq!(format_value("sim96c32", &Value::Int(0x2a), ""), "sim96c32:id:0x2a");
    assert_eq!(
        format_value(
            "sim180c88",
            &Value::Geo { lat: 0, lon: 0, alt_m: 330 },
            "48.858370,2.294481,+330"
        ),
        "sim180c88:geo:48.858370,2.294481,+330"
    );
    assert_eq!(
        format_value("sim96c32", &Value::Tagged { namespace: 12, id: 0x1f4 }, ""),
        "sim96c32:tag:12:0x1f4"
    );
    assert_eq!(
        format_value("sim180c88", &Value::Bytes(vec![0xc0, 0xff, 0xee]), ""),
        "sim180c88:raw:c0ffee"
    );
}

#[test]
fn frame_names() {
    assert_eq!(sanitize_frame("sim96c32:id:0x2a"), "sim96c32_id_0x2a");
    assert_eq!(sanitize_frame("a.b-c d\u{e9}Z9"), "a.b-c_d_Z9");
    assert_eq!(sanitize_frame(""), "");
}

#[test]
fn rows_of_cells() {
    assert_eq!(grid_to_rows(&[0, 1, 1, 0, 1], 2), ["01", "10", "1"]);
    assert!(grid_to_rows(&[], 3).is_empty());
}

fn names(list: &str) -> Vec<&'static str> {
    variants_named(list).iter().map(|m| m.name).collect()
}

#[test]
fn lists_of_variants() {
    assert_eq!(names("s16m,T,nonsense,sim48c12"), ["sim96c32", "sim48c8", "sim48c12"]);
    assert!(names("nonsense").is_empty());
    let or_default = |l: &str| variants_or_default(l).iter().map(|m| m.name).collect::<Vec<_>>();
    assert_eq!(or_default("sdata"), ["sim180c88"]);
    let default = ["sim48c12", "sim96c32", "sim180c88"];
    assert_eq!(or_default(""), default);
    assert_eq!(or_default("auto"), default);
    assert_eq!(or_default("nonsense"), default);
}

#[test]
fn lists_of_known_variants() {
    let all = |l: &str| {
        variants_all_named(l).map(|v| v.iter().map(|m| m.name).collect::<Vec<&str>>())
    };
    assert_eq!(all("M,s4k"), Some(vec!["sim96c32", "sim48c12"]));
    assert_eq!(all("M,nonsense"), None);
    assert_eq!(all(""), None);
}

#[test]
fn pinned_variants() {
    let pinned = |n: &str| {
        let (v, unknown) = pinned_or_default(n);
        (v.iter().map(|m| m.name).collect::<Vec<&str>>(), unknown)
    };
    let default = vec!["sim48c12", "sim96c32", "sim180c88"];
    assert_eq!(pinned("s64k"), (vec!["sim48c16"], false));
    assert_eq!(pinned("auto"), (default.clone(), false));
    assert_eq!(pinned(""), (default.clone(), false));
    assert_eq!(pinned("s4k,s64k"), (default, true));
}

#[test]
fn expected_values() {
    let at = |lat, lon, alt_m| Place { lat, lon, alt_m };
    let none = at(None, None, 0);
    let int = |v: Value, digits: &str| value_matches(&v, &format!("{{\"int\":{}}}", digits), &none);
    assert!(int(Value::Int(1 << 80), "1208925819614629174706176"));
    assert!(!int(Value::Int(1), "10"));
    assert!(!int(Value::Tagged { namespace: 3, id: 44 }, "44"));
    let hex = |digits: &str| {
        value_matches(&Value::Bytes(vec![0xab]), &format!("{{\"hex\":\"{}\"}}", digits), &none)
    };
    assert!(hex("ab"));
    assert!(!hex("AB"));
    let place = Value::Geo { lat: 5, lon: 6, alt_m: -7 };
    let three = "{\"list\":[1.5,2.5,-7]}";
    assert!(value_matches(&place, three, &at(Some(5), Some(6), -7)));
    assert!(!value_matches(&place, three, &at(Some(6), Some(6), -7)));
    assert!(!value_matches(&place, three, &at(None, Some(6), -7)));
    assert!(!value_matches(&place, three, &at(Some(5), Some(6), 7)));
    assert!(!value_matches(&place, "{\"list\":[1.5,2.5]}", &at(Some(5), Some(6), -7)));
    let tagged = Value::Tagged { namespace: 3, id: 44 };
    assert!(value_matches(&tagged, "{\"list\":[3,44]}", &none));
    assert!(!value_matches(&tagged, "{\"list\":[-3,44]}", &none));
    assert!(!value_matches(&tagged, "{\"list\":[3,45]}", &none));
    assert!(!value_matches(&tagged, "{\"list\":[3,44,5]}", &none));
    assert!(!value_matches(&tagged, "{}", &none));
}

#[test]
fn numbers_read_from_text() {
    assert_eq!(parse_number("0", 10), Some(0));
    assert_eq!(parse_number("+007", 10), Some(7));
    assert_eq!(parse_number("10", 10), Some(10));
    assert_eq!(parse_number("11", 10), None);
    assert_eq!(parse_number("5", 3), None);
    assert_eq!(parse_number("", 10), None);
    assert_eq!(parse_number("+", 10), None);
    assert_eq!(parse_number("-1", 10), None);
    assert_eq!(parse_number("1 ", 10), None);
    let most = u128::MAX;
    assert_eq!(parse_number("340282366920938463463374607431768211455", most), Some(most));
    assert_eq!(parse_number("340282366920938463463374607431768211456", most), None);
}

#[test]
fn values_as_members() {
    assert_eq!(value_members(&Value::Int(42), "", false), ",\"value\":42");
    assert_eq!(value_members(&Value::Bytes(vec![1, 0xff]), "", true), ",\"value_hex\":\"01ff\"");
    let place = Value::Geo { lat: 5, lon: 6, alt_m: -7 };
    assert_eq!(value_members(&place, "[1,2,-7]", false), ",\"geo\":[1,2,-7]");
    let tagged = Value::Tagged { namespace: 3, id: 44 };
    assert_eq!(value_members(&tagged, "", false), ",\"tagged\":[3,44]");
    assert_eq!(value_members(&tagged, "", true), ",\"tagged\":{\"ns\":3,\"id\":44}");
}
