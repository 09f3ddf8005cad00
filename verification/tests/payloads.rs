//! What payloads say.
use simittag::codec;
use simittag::marker::{sim180c88, sim48c12, sim48c8, sim96c32, variants};
use simittag::payload::{
    decode, encode_geo, encode_id, encode_raw, encode_tagged, interpret, PayloadError, Value,
    MAX_LAT, MAX_LON,
};

/// Degrees as units from the south pole.
fn lat_units(deg: f64) -> i64 {
    ((deg + 90.0) * 1e7).round() as i64
}

/// Degrees as units from the antimeridian.
fn lon_units(deg: f64) -> i64 {
    ((deg + 180.0) * 1e7).round() as i64
}

#[test]
fn geo_roundtrip_exact() {
    let p = encode_geo(lat_units(48.858370), lon_units(2.294481), 330, &sim180c88()).unwrap();
    match decode(&p, &sim180c88()).unwrap() {
        ("GEO", Value::Geo { lat, lon, alt_m }) => {
            let lat = lat as f64 / 1e7 - 90.0;
            let lon = lon as f64 / 1e7 - 180.0;
            assert!((lat - 48.858370).abs() < 5.1e-8);
            assert!((lon - 2.294481).abs() < 5.1e-8);
            assert_eq!(alt_m, 330);
        }
        other => panic!("{:?}", other),
    }
}

#[test]
fn guards() {
    assert!(encode_geo(lat_units(0.0), lon_units(0.0), 0, &sim96c32()).is_err()); // too small
    assert!(encode_geo(lat_units(91.0), lon_units(0.0), 0, &sim180c88()).is_err());
    assert!(encode_tagged(256, 0, &sim180c88()).is_err());
    assert!(encode_tagged(0, 1 << 16, &sim96c32()).is_err());
    assert!(encode_raw(&[0], &sim48c8()).is_err()); // no header
    assert!(decode(&[0x01, 0, 0, 0], &sim96c32()).is_err()); // a place needs more bytes
    assert!(decode(&[0x13, 0, 0, 0], &sim96c32()).is_err()); // another version
    assert!(decode(&[0x03, 3, 0, 0], &sim96c32()).is_err()); // length over capacity
}

#[test]
fn numbers() {
    assert_eq!(encode_id(42, &sim48c8()), Ok(vec![42]));
    assert_eq!(encode_id(256, &sim48c8()), Err(PayloadError::IdTooBig));
    assert_eq!(encode_id(0x123, &sim48c12()), Ok(vec![1, 0x23]));
    assert_eq!(encode_id(0xabcdef, &sim96c32()), Ok(vec![0, 0xab, 0xcd, 0xef]));
    assert_eq!(encode_id(1 << 24, &sim96c32()), Err(PayloadError::IdTooBig));
    for m in [sim48c8(), sim96c32(), sim180c88()] {
        let p = encode_id(200, &m).unwrap();
        assert_eq!(p.len(), m.payload_bytes());
        assert_eq!(decode(&p, &m), Ok(("ID", Value::Int(200))));
    }
    assert_eq!(
        decode(&[0, 255, 255, 255, 255, 255, 255, 255, 255, 255, 255], &sim180c88()),
        Ok(("ID", Value::Int((1u128 << 80) - 1)))
    );
}

#[test]
fn places() {
    let m = sim180c88();
    let p = encode_geo(0, 1, -2, &m).unwrap();
    assert_eq!(p, [1, 0, 0, 0, 0, 0, 0, 0, 1, 0xff, 0xfe]);
    assert_eq!(decode(&p, &m), Ok(("GEO", Value::Geo { lat: 0, lon: 1, alt_m: -2 })));
    let (a, b) = (MAX_LAT as i64, MAX_LON as i64);
    let p = encode_geo(a, b, 32767, &m).unwrap();
    assert_eq!(
        decode(&p, &m),
        Ok(("GEO", Value::Geo { lat: MAX_LAT, lon: MAX_LON, alt_m: 32767 }))
    );
    assert_eq!(encode_geo(a + 1, 0, 0, &m), Err(PayloadError::Latitude));
    assert_eq!(encode_geo(-1, 0, 0, &m), Err(PayloadError::Latitude));
    assert_eq!(encode_geo(0, b + 1, 0, &m), Err(PayloadError::Longitude));
    assert_eq!(encode_geo(0, -1, 0, &m), Err(PayloadError::Longitude));
    assert_eq!(encode_geo(0, 0, 32768, &m), Err(PayloadError::Altitude));
    assert_eq!(encode_geo(0, 0, -32769, &m), Err(PayloadError::Altitude));
    assert_eq!(encode_geo(0, 0, 0, &sim96c32()), Err(PayloadError::GeoTooSmall));
    assert_eq!(encode_geo(0, 0, 0, &sim48c8()), Err(PayloadError::IdOnly));
}

#[test]
fn raw_bytes() {
    let m = sim96c32();
    assert_eq!(encode_raw(&[0xc0, 0xff], &m), Ok(vec![3, 2, 0xc0, 0xff]));
    assert_eq!(encode_raw(&[], &m), Ok(vec![3, 0, 0, 0]));
    assert_eq!(
        encode_raw(&[1, 2, 3], &m),
        Err(PayloadError::RawTooLong { len: 3, max: 2 })
    );
    assert_eq!(encode_raw(&[], &sim48c12()), Err(PayloadError::IdOnly));
    assert_eq!(decode(&[3, 1, 0xc0, 0], &m), Ok(("RAW", Value::Bytes(vec![0xc0]))));
    assert_eq!(
        decode(&[3, 3, 0, 0], &m),
        Err(PayloadError::RawOverrun { length: 3, capacity: 2 })
    );
}

#[test]
fn numbers_in_namespaces() {
    let m = sim96c32();
    assert_eq!(encode_tagged(12, 0x1f4, &m), Ok(vec![4, 12, 1, 0xf4]));
    assert_eq!(
        decode(&[4, 12, 1, 0xf4], &m),
        Ok(("TAGGED", Value::Tagged { namespace: 12, id: 500 }))
    );
    assert_eq!(encode_tagged(256, 0, &m), Err(PayloadError::Namespace));
    assert_eq!(encode_tagged(0, 1 << 16, &m), Err(PayloadError::TaggedTooBig));
    assert_eq!(encode_tagged(0, 0, &sim48c8()), Err(PayloadError::IdOnly));
}

#[test]
fn payloads_that_cannot_be_read() {
    let m = sim96c32();
    assert_eq!(decode(&[0, 0], &m), Err(PayloadError::Length));
    assert_eq!(decode(&[0x10, 0, 0, 0], &m), Err(PayloadError::Version { version: 1 }));
    assert_eq!(decode(&[0x02, 0, 0, 0], &m), Err(PayloadError::Mode { mode: 2 }));
    assert_eq!(decode(&[0x01, 0, 0, 0], &m), Err(PayloadError::GeoTruncated { len: 3 }));
    // what cannot be read is reported as bytes
    assert_eq!(
        interpret(vec![0x0f, 1, 2, 3], &m),
        ("UNKNOWN", Value::Bytes(vec![0x0f, 1, 2, 3]))
    );
    assert_eq!(interpret(vec![0, 0, 0, 7], &m), ("ID", Value::Int(7)));
}

#[test]
fn short_bodies_cannot_be_read() {
    // variants of the caller's own with one and two payload bytes
    let mut m = sim48c8();
    m.use_header = true;
    assert_eq!(decode(&[3], &m), Err(PayloadError::RawEmpty));
    assert_eq!(decode(&[4], &m), Err(PayloadError::TaggedTruncated));
}

#[test]
fn values_are_copied() {
    let v = Value::Bytes(vec![1, 2]);
    assert_eq!(v.clone(), v);
    let g = Value::Geo { lat: 1, lon: 2, alt_m: 3 };
    assert_eq!(g.clone(), g);
}

#[test]
fn from_a_number_to_a_tag_and_back() {
    for m in &variants() {
        for v in [0u128, 1, 77, 200] {
            let payload = encode_id(v, m).unwrap();
            let grid = codec::encode(&payload, m).unwrap();
            for turned in 0..m.sector_count {
                let seen = codec::roll_grid(&grid, m, turned);
                let (read, _) = codec::decode(&seen, m, None);
                assert_eq!(interpret(read.unwrap(), m), ("ID", Value::Int(v)));
            }
        }
    }
}

#[test]
fn numbers_beyond_the_payload_bits() {
    // two bytes would hold more than twelve bits do
    let m = sim48c12();
    let fits = encode_id(0xfff, &m).unwrap();
    assert!(codec::encode(&fits, &m).is_ok());
    assert_eq!(encode_id(0x1000, &m), Err(PayloadError::IdTooBig));
    assert_eq!(encode_id(0xffff, &m), Err(PayloadError::IdTooBig));
}

#[test]
fn payload_errors_in_words() {
    let words = |e: PayloadError| e.text("sim48c12");
    assert_eq!(words(PayloadError::IdTooBig), "ID too big for variant sim48c12");
    assert_eq!(words(PayloadError::IdOnly), "variant sim48c12 is ID-only");
    assert_eq!(
        words(PayloadError::GeoTooSmall),
        "GEO needs 10 body bytes; use sim180c88, not sim48c12"
    );
    assert_eq!(words(PayloadError::Latitude), "lat out of range [-90, 90]");
    assert_eq!(words(PayloadError::Longitude), "lon out of range [-180, 180)");
    assert_eq!(words(PayloadError::Altitude), "altitude out of range [-32768, 32767] m");
    assert_eq!(
        words(PayloadError::RawTooLong { len: 12, max: 2 }),
        "RAW too long: 12 > 2 bytes"
    );
    assert_eq!(words(PayloadError::Namespace), "namespace out of range [0, 255]");
    assert_eq!(words(PayloadError::TaggedTooBig), "TAGGED id too big for variant sim48c12");
    assert_eq!(words(PayloadError::Length), "wrong payload length");
    assert_eq!(
        words(PayloadError::Version { version: 3 }),
        "payload version 3 is not supported (current 0)"
    );
    assert_eq!(
        words(PayloadError::GeoTruncated { len: 3 }),
        "GEO body is truncated: 3 < 10 bytes"
    );
    assert_eq!(words(PayloadError::RawEmpty), "RAW body has no length byte");
    assert_eq!(
        words(PayloadError::RawOverrun { length: 9, capacity: 2 }),
        "RAW length 9 exceeds body capacity 2"
    );
    assert_eq!(words(PayloadError::TaggedTruncated), "TAGGED body needs a namespace and ID");
    assert_eq!(words(PayloadError::Mode { mode: 12 }), "mode 12 not implemented in v0");
}
