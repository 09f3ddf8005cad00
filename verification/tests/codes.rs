//! The finite fields, checksums and Reed-Solomon codes.
use simittag::field::Gf;
use simittag::gf16;
use simittag::gf256::{
    build_tables, crc8, gdiv, ginv, gmul, gpow, rs_decode, rs_decode_capped, rs_encode, GEN, PRIM,
};
use simittag::poly::{poly_add, poly_div, poly_mul};

#[test]
fn roundtrip_with_errors_and_erasures() {
    let data = b"\x12\x34\x56\x78\x9a";
    let code = rs_encode(data, 4);
    assert_eq!(&code[..5], data);
    // two errors at unknown positions
    let mut c = code.clone();
    c[1] ^= 0x5c;
    c[7] ^= 0x11;
    let (d, _) = rs_decode(&c, 4, &[]).unwrap();
    assert_eq!(d, data);
    // three erasures
    let mut c = code.clone();
    c[0] ^= 0xff;
    c[4] ^= 0x33;
    c[8] ^= 0x77;
    let (d, _) = rs_decode(&c, 4, &[0, 4, 8]).unwrap();
    assert_eq!(d, data);
    // three errors at unknown positions are too many
    let mut c = code.clone();
    c[0] ^= 1;
    c[3] ^= 2;
    c[6] ^= 3;
    assert!(rs_decode(&c, 4, &[]).is_err() || rs_decode(&c, 4, &[]).unwrap().0 != data);
}

#[test]
fn field_products() {
    assert_eq!(PRIM, 0x11d);
    assert_eq!(GEN, 2);
    assert_eq!(gmul(0x53, 0xca), 0x8f);
    assert_eq!(gmul(3, 7), 9);
    assert_eq!(gmul(0x80, 2), 0x1d);
    assert_eq!(gmul(0, 9), 0);
    assert_eq!(ginv(3), 244);
    assert_eq!(ginv(0), 1);
    assert_eq!(gdiv(0, 7), 0);
    assert_eq!(gdiv(0x8f, 0xca), 0x53);
    for a in 1..=255u8 {
        assert_eq!(gmul(a, ginv(a)), 1);
        assert_eq!(gdiv(gmul(a, 0x35), 0x35), a);
    }
}

#[test]
fn field_powers() {
    assert_eq!(gpow(2, 8), 29);
    assert_eq!(gpow(2, 254), 142);
    assert_eq!(gpow(2, 255), 1);
    assert_eq!(gpow(2, -1), 142);
    assert_eq!(gpow(3, 0), 1);
    assert_eq!(gpow(0, 5), 1);
    assert_eq!(gpow(7, -3), ginv(gpow(7, 3)));
    assert_eq!(Gf::Nibble.product(8, 2), 3);
    assert_eq!(Gf::Nibble.power(2, 15), 1);
    assert_eq!(Gf::Nibble.inverse(2), 9);
}

#[test]
fn tables_hold_powers_and_logarithms() {
    let (exp, log) = build_tables();
    assert_eq!(exp[0], 1);
    assert_eq!(exp[8], 29);
    assert_eq!(exp[254], 142);
    assert_eq!(exp[255], 1);
    assert_eq!(exp[511], exp[1]);
    assert_eq!(log[29], 8);
    assert_eq!(log[0], 0);
    for i in 0..255usize {
        assert_eq!(log[exp[i] as usize] as usize, i);
    }
}

#[test]
fn parity_symbols() {
    assert_eq!(
        rs_encode(b"\x12\x34\x56\x78\x9a", 4),
        [0x12, 0x34, 0x56, 0x78, 0x9a, 0x38, 0x3a, 0x7d, 0xed]
    );
    assert_eq!(gf16::rs_encode(&[1, 2, 3, 4], 4), [1, 2, 3, 4, 4, 9, 8, 1]);
    assert_eq!(gf16::rs_encode(&[5, 10, 0, 15, 7], 3), [5, 10, 0, 15, 7, 9, 1, 15]);
    assert_eq!(rs_encode(&[], 2), [0, 0]);
    assert_eq!(rs_encode(&[7, 8], 0), [7, 8]);
}

#[test]
fn checksums() {
    assert_eq!(crc8(b"123456789"), 0xf4);
    assert_eq!(crc8(b""), 0);
    assert_eq!(gf16::crc4(&[1, 2, 3]), 0);
    assert_eq!(gf16::crc4(&[0xa, 0xb, 0xc, 0xd]), 9);
}

#[test]
fn checksums_detect_one_symbol() {
    let data = [0x10u8, 0x20, 0x30];
    for i in 0..3 {
        for e in 1..=255u8 {
            let mut d = data;
            d[i] ^= e;
            assert_ne!(crc8(&d), crc8(&data));
        }
    }
    for e in 1..16u8 {
        assert_ne!(gf16::crc4(&[1, 2 ^ e, 3]), gf16::crc4(&[1, 2, 3]));
    }
}

#[test]
fn checksums_add_up() {
    let (a, b) = ([1u8, 2, 3, 4], [9u8, 200, 7, 255]);
    let sum: Vec<u8> = a.iter().zip(&b).map(|(x, y)| x ^ y).collect();
    assert_eq!(crc8(&sum), crc8(&a) ^ crc8(&b));
    let mut closed = a.to_vec();
    closed.push(crc8(&a));
    assert_eq!(crc8(&closed), 0);
}

#[test]
fn nibble_code_corrects() {
    let code = gf16::rs_encode(&[1, 2, 3, 4], 4);
    let mut c = code.clone();
    c[2] ^= 5;
    c[6] ^= 15;
    assert_eq!(gf16::rs_decode(&c, 4, &[], None), Ok((vec![1, 2, 3, 4], code.clone())));
    // one erasure and one error
    let mut c = code.clone();
    c[0] ^= 7;
    c[5] ^= 1;
    assert_eq!(gf16::rs_decode(&c, 4, &[0], None), Ok((vec![1, 2, 3, 4], code.clone())));
    // four erasures
    let mut c = code.clone();
    c[0] ^= 1;
    c[1] ^= 2;
    c[2] ^= 3;
    c[3] ^= 4;
    assert_eq!(gf16::rs_decode(&c, 4, &[0, 1, 2, 3], None), Ok((vec![1, 2, 3, 4], code)));
}

#[test]
fn cap_on_errors() {
    let code = rs_encode(&[9, 8, 7, 6, 5], 4);
    let mut c = code.clone();
    c[1] ^= 0x5c;
    c[7] ^= 0x11;
    assert!(rs_decode_capped(&c, 4, &[], Some(1)).is_err());
    assert_eq!(rs_decode_capped(&c, 4, &[], Some(2)).unwrap().1, code);
    // erasures do not count towards the cap
    assert_eq!(rs_decode_capped(&c, 4, &[1, 7], Some(0)).unwrap().1, code);
    let mut n = gf16::rs_encode(&[1, 2, 3, 4], 4);
    n[0] ^= 1;
    assert!(gf16::rs_decode(&n, 4, &[], Some(0)).is_err());
}

#[test]
fn decoded_word_is_a_codeword() {
    // whatever is received, a decoder's answer encodes its own data
    for seed in 0..200u32 {
        let mut x = seed.wrapping_mul(2654435761).wrapping_add(12345);
        let mut word = Vec::new();
        for _ in 0..9 {
            x = x.wrapping_mul(1664525).wrapping_add(1013904223);
            word.push((x >> 24) as u8);
        }
        if let Ok((data, fixed)) = rs_decode(&word, 4, &[0, 3]) {
            assert_eq!(rs_encode(&data, 4), fixed);
        }
    }
}

#[test]
fn clean_words_come_back() {
    let code = rs_encode(&[0, 0, 0], 4);
    assert_eq!(code, [0; 7]);
    assert_eq!(rs_decode(&code, 4, &[]), Ok((vec![0, 0, 0], code.clone())));
    let code = rs_encode(&[1, 0, 255], 4);
    assert_eq!(rs_decode(&code, 4, &[2]), Ok((vec![1, 0, 255], code)));
}

#[test]
fn too_many_erasures() {
    let code = rs_encode(&[1, 2, 3], 2);
    assert_eq!(rs_decode(&code, 2, &[0, 1, 2]), Err(()));
}

#[test]
fn division_undoes_multiplication() {
    let divisor = [1u8, 15, 54, 120, 64];
    let dividend = [7u8, 0, 255, 3, 9, 0, 77, 130];
    let (q, r) = poly_div(Gf::Byte, &dividend, &divisor);
    assert_eq!((q.len(), r.len()), (4, 4));
    assert_eq!(q[0], 7);
    assert_eq!(poly_add(&poly_mul(Gf::Byte, &q, &divisor), &r), dividend);
    let (q, r) = poly_div(Gf::Nibble, &[1, 2, 3], &[1, 2, 3]);
    assert_eq!((q, r), (vec![1], vec![0, 0]));
}

#[test]
fn values_of_erased_symbols_do_not_matter() {
    let code = rs_encode(&[1, 2, 3, 4], 4);
    let mut seen = code.clone();
    seen[5] ^= 9;
    let expected = rs_decode(&seen, 4, &[0, 3]);
    assert_eq!(expected, Ok((vec![1, 2, 3, 4], code)));
    for v in [0u8, 77, 255] {
        seen[0] = v;
        seen[3] = v ^ 31;
        assert_eq!(rs_decode(&seen, 4, &[0, 3]), expected);
    }
}
