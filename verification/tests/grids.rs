//! Payloads as grids of cells, and back.
use simittag::codec::{decode, decode_conf, encode, find_rotation, roll_grid, CodecError, RsStats};
use simittag::marker::{
    by_name, default_variants, sim180c88, sim48c12, sim48c16, sim48c8, sim96c32, variants, CONF_040,
};
use simittag::text::grid_to_rows;

#[test]
fn roundtrip_all_variants_with_rotation() {
    for sp in &variants() {
        let payload: Vec<u8> = (0..sp.payload_bytes()).map(|i| (i * 37 + 5) as u8).collect();
        let grid = encode(&payload, sp).unwrap();
        let (got, sh) = decode(&grid, sp, None);
        assert_eq!(got.as_deref(), Some(&payload[..]), "{} clean", sp.name);
        assert_eq!(sh, 0);
        // turned by 5 sectors
        let rot = roll_grid(&grid, sp, sp.sector_count - 5);
        let (got, sh) = decode(&rot, sp, None);
        assert_eq!(got.as_deref(), Some(&payload[..]), "{} rotated", sp.name);
        assert_eq!(sh, sp.sector_count - (sp.sector_count - 5));
    }
}

#[test]
fn exact_grids() {
    let grid = encode(&[0x2a], &sim48c8()).unwrap();
    assert_eq!(
        grid_to_rows(&grid, 16),
        ["1100001100110111", "0111100111000010", "0000111001011011"]
    );
    let grid = encode(&[0x01, 0x23], &sim48c12()).unwrap();
    assert_eq!(
        grid_to_rows(&grid, 16),
        ["1001000110001010", "0001010010001000", "0100010011111010"]
    );
    let grid = encode(&[0, 0, 0, 0x2a], &sim96c32()).unwrap();
    assert_eq!(
        grid_to_rows(&grid, 24),
        [
            "111010110010110100010010",
            "000000000011001010111110",
            "000000000100110111000101",
            "000000001011110111011010",
        ]
    );
}

#[test]
fn encoding_errors() {
    assert_eq!(
        encode(&[1, 2], &sim48c8()),
        Err(CodecError::Length { expected: 1, got: 2 })
    );
    assert_eq!(
        encode(&[], &sim180c88()),
        Err(CodecError::Length { expected: 11, got: 0 })
    );
    assert_eq!(encode(&[0x10, 0], &sim48c12()), Err(CodecError::TooBig { bits: 12 }));
    assert!(encode(&[0x0f, 0xff], &sim48c12()).is_ok());
    assert!(encode(&[0xff, 0xff], &sim48c16()).is_ok());
}

#[test]
fn sizes_of_variants() {
    let want = [
        ("sim48c8", "s256", 1usize, 8usize),
        ("sim96c32", "s16m", 4, 32),
        ("sim180c88", "sdata", 11, 88),
        ("sim48c16", "s64k", 2, 16),
        ("sim48c12", "s4k", 2, 12),
    ];
    let all = variants();
    assert_eq!(all.len(), 5);
    for (m, w) in all.iter().zip(&want) {
        assert_eq!((m.name, m.alias, m.payload_bytes(), m.payload_bits()), *w);
        assert_eq!(m.first_data_ring(), 1);
        assert_eq!(m.data_ring_count(), m.ring_count - 1);
        assert_eq!(m.sync.len(), m.sector_count);
        assert_eq!((m.r_bullseye, m.r_data_in, m.r_data_out, m.r_ring_in), (22, 30, 78, 86));
    }
    let names: Vec<&str> = default_variants().iter().map(|m| m.name).collect();
    assert_eq!(names, ["sim48c12", "sim96c32", "sim180c88"]);
    assert_eq!(f32::from_bits(CONF_040), 0.40);
    assert_eq!(sim48c8().conf_erasure, Some(0));
    assert_eq!(sim48c8().verify_min.map(f64::from_bits), Some(0.76));
    assert_eq!(sim48c16().verify_min.map(f64::from_bits), Some(0.78));
    assert_eq!(sim96c32().verify_min, None);
}

#[test]
fn names_and_aliases() {
    for (name, want) in [
        ("T", "sim48c8"),
        ("M", "sim96c32"),
        ("D", "sim180c88"),
        ("s256", "sim48c8"),
        ("s16m", "sim96c32"),
        ("sdata", "sim180c88"),
        ("s64k", "sim48c16"),
        ("s4k", "sim48c12"),
        ("sim48c12", "sim48c12"),
    ] {
        assert_eq!(by_name(name).unwrap().name, want);
    }
    assert!(by_name("t").is_none());
    assert!(by_name("").is_none());
    assert!(by_name("sim48").is_none());
}

#[test]
fn rotation_is_found() {
    let m = sim48c16();
    let n = m.sector_count;
    for s in 0..n {
        let ring: Vec<u8> = (0..n).map(|i| m.sync[(i + n - s) % n]).collect();
        let (shift, scores) = find_rotation(&ring, &m);
        assert_eq!(shift, s);
        assert_eq!(scores.len(), n);
        assert_eq!(scores[s], n as i32);
    }
    // all cells set: every rotation agrees equally, and the first counts
    let (shift, scores) = find_rotation(&[1; 16], &m);
    assert_eq!(shift, 0);
    assert!(scores.iter().all(|&v| v == scores[0]));
}

#[test]
fn damaged_symbols_are_corrected() {
    // two symbols of four and four parity symbols
    let m = sim96c32();
    let payload = [0, 1, 2, 3];
    let clean = encode(&payload, &m).unwrap();
    let dr = m.data_ring_count();
    let cell = |k: usize| (m.first_data_ring() + k % dr) * m.sector_count + k / dr;
    let mut g = clean.clone();
    for k in [0, 3, 7, 40, 41] {
        g[cell(k)] ^= 1;
    }
    assert_eq!(decode(&g, &m, None), (Some(payload.to_vec()), 0));
    // a third symbol is too much, unless symbols are known to be bad
    g[cell(16)] ^= 1;
    assert_ne!(decode(&g, &m, None).0, Some(payload.to_vec()));
    let mut marks = vec![false; g.len()];
    marks[cell(1)] = true;
    marks[cell(45)] = true;
    assert_eq!(decode(&g, &m, Some(&marks)), (Some(payload.to_vec()), 0));
}

#[test]
fn at_most_all_but_one_parity_symbol_is_erased() {
    // everything marked: only the first symbols are given up, so that an empty
    // grid with the sync ring does not pass for number zero by itself
    let m = sim48c12();
    let mut g = encode(&[0x0a, 0xbc], &m).unwrap();
    let marks = vec![true; g.len()];
    let dr = m.data_ring_count();
    let cell = |k: usize| (m.first_data_ring() + k % dr) * m.sector_count + k / dr;
    g[cell(0)] ^= 1;
    g[cell(5)] ^= 1;
    g[cell(9)] ^= 1;
    assert_eq!(decode(&g, &m, Some(&marks)), (Some(vec![0x0a, 0xbc]), 0));
}

#[test]
fn weakest_symbols_are_erased() {
    let m = sim48c12();
    let payload = vec![0x0a, 0xbc];
    let clean = encode(&payload, &m).unwrap();
    let dr = m.data_ring_count();
    let cell = |k: usize| (m.first_data_ring() + k % dr) * m.sector_count + k / dr;
    let mut g = clean.clone();
    let mut conf = vec![0.9f32.to_bits(); g.len()];
    // three bad symbols with little confidence
    for (k, c) in [(0usize, 0.1f32), (13, 0.05), (30, 0.2)] {
        g[cell(k)] ^= 1;
        conf[cell(k)] = c.to_bits();
    }
    let (hit, shift) = decode_conf(&g, &m, &conf, 0.40f32.to_bits());
    assert_eq!(shift, 0);
    assert_eq!(hit, Some((payload.clone(), RsStats { erasures: 3, corrected: 3 })));
    // with a threshold of zero nothing is erased, and three errors are too many
    let (hit, _) = decode_conf(&g, &m, &conf, 0);
    assert_ne!(hit.map(|h| h.0), Some(payload.clone()));
    // confident cells are not erased
    let conf = vec![0.9f32.to_bits(); g.len()];
    let (hit, _) = decode_conf(&clean, &m, &conf, 0.40f32.to_bits());
    assert_eq!(hit, Some((payload, RsStats { erasures: 0, corrected: 0 })));
}

#[test]
fn ranked_decoding_is_rotated_too() {
    let m = sim96c32();
    let payload = vec![0, 9, 8, 7];
    let grid = encode(&payload, &m).unwrap();
    let rot = roll_grid(&grid, &m, 7);
    let conf = vec![1.0f32.to_bits(); grid.len()];
    let (hit, shift) = decode_conf(&rot, &m, &conf, 0.25f32.to_bits());
    assert_eq!(hit.unwrap().0, payload);
    assert_eq!(shift, m.sector_count - 7);
}

#[test]
fn what_is_read_encodes_to_what_was_meant() {
    // whatever cells are read, an answer has a grid of its own
    let m = sim48c16();
    let mut x = 77u32;
    let mut hits = 0;
    for _ in 0..20000 {
        let mut g = m.sync.clone();
        for _ in 0..32 {
            x = x.wrapping_mul(1664525).wrapping_add(1013904223);
            g.push((x >> 31) as u8);
        }
        if let (Some(p), shift) = decode(&g, &m, None) {
            hits += 1;
            assert_eq!(shift, 0);
            let back = encode(&p, &m).unwrap();
            assert_eq!(decode(&back, &m, None).0, Some(p));
        }
    }
    assert!(hits > 0);
}

#[test]
fn default_stats() {
    assert_eq!(RsStats::default(), RsStats { erasures: 0, corrected: 0 });
}

#[test]
fn damage_that_each_variant_withstands() {
    // wrong symbols, and wrong symbols that are marked
    let budgets = [
        (sim48c12(), 2, 3),
        (sim48c8(), 1, 1),
        (sim48c16(), 1, 2),
        (sim96c32(), 2, 3),
        (sim180c88(), 3, 5),
    ];
    for (m, errors, erasures) in &budgets {
        let mut payload = vec![0u8; m.payload_bytes()];
        payload[m.payload_bytes() - 1] = 0xa7;
        let clean = encode(&payload, m).unwrap();
        let dr = m.data_ring_count();
        let cell = |k: usize| (m.first_data_ring() + k % dr) * m.sector_count + k / dr;
        let symbols = m.rs_k + m.rs_nsym;
        for first in 0..symbols {
            let mut g = clean.clone();
            for e in 0..*errors {
                let s = (first + 2 * e) % symbols;
                g[cell(s * m.symbol_bits + first % m.symbol_bits)] ^= 1;
                g[cell(s * m.symbol_bits + 1)] ^= 1;
            }
            assert_eq!(decode(&g, m, None), (Some(payload.clone()), 0), "{}", m.name);
            let mut g = clean.clone();
            let mut marks = vec![false; g.len()];
            for e in 0..*erasures {
                let s = (first + e) % symbols;
                g[cell(s * m.symbol_bits)] ^= 1;
                marks[cell(s * m.symbol_bits + 3)] = true;
            }
            assert_eq!(decode(&g, m, Some(&marks)), (Some(payload.clone()), 0), "{}", m.name);
        }
    }
}

#[test]
fn what_is_read_with_confidences_encodes() {
    let m = sim48c12();
    let mut x = 5u32;
    let mut hits = 0;
    for _ in 0..2000 {
        let mut g = m.sync.clone();
        let mut conf = vec![0.9f32.to_bits(); 16];
        for _ in 0..32 {
            x = x.wrapping_mul(1664525).wrapping_add(1013904223);
            g.push((x >> 31) as u8);
            conf.push((((x >> 8) & 0xff) as f32 / 255.0).to_bits());
        }
        if let (Some((p, stats)), _) = decode_conf(&g, &m, &conf, 0.40f32.to_bits()) {
            hits += 1;
            assert!(encode(&p, &m).is_ok());
            assert!(stats.erasures <= 3);
        }
    }
    assert!(hits > 0);
}

#[test]
fn cells_beyond_the_grid_do_not_matter() {
    let m = sim48c12();
    let payload = vec![5u8, 0xa5];
    let grid = encode(&payload, &m).unwrap();
    let mut long = grid.clone();
    long.extend([1, 0, 1, 1, 7]);
    assert_eq!(decode(&long, &m, None), decode(&grid, &m, None));
    assert_eq!(decode(&long, &m, None).0, Some(payload));
    assert_eq!(roll_grid(&long, &m, 3), roll_grid(&grid, &m, 3));
    let conf = vec![1.0f32.to_bits(); long.len()];
    let low = 0.25f32.to_bits();
    assert_eq!(
        decode_conf(&long, &m, &conf, low),
        decode_conf(&grid, &m, &conf[..grid.len()], low)
    );
}

#[test]
fn codec_errors_in_words() {
    let e = encode(&[1, 2], &sim48c8()).unwrap_err();
    assert_eq!(e.text(), "payload must be 1 bytes, got 2");
    let e = encode(&[0x10, 0], &sim48c12()).unwrap_err();
    assert_eq!(e.text(), "payload exceeds 12 bits");
}
