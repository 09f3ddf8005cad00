//! The decisions of the detector.
use simittag::codec::{encode, roll_grid, RsStats};
use simittag::detector::{
    accept, attempt, dedup, erasure_threshold, first_path, is_smeared, next_path, passes_floor,
    prospect, read_grid, reports, sync_gate, tries_coarse, verify_floor, Path, Prospect,
    DECONV_MAX_PX, PHASES, REFINED_ALONE_PX, SCALES, SMEAR_COHERENCE, VERIFY_MIN,
};
use simittag::marker::{sim180c88, sim48c12, sim48c16, sim48c8, sim96c32};
use simittag::payload::{encode_id, Value};

#[test]
fn floors_of_variants() {
    assert_eq!(f64::from_bits(VERIFY_MIN), 0.73);
    assert_eq!(f64::from_bits(verify_floor(&sim96c32())), 0.73);
    assert_eq!(f64::from_bits(verify_floor(&sim180c88())), 0.73);
    assert_eq!(f64::from_bits(verify_floor(&sim48c8())), 0.76);
    assert_eq!(f64::from_bits(verify_floor(&sim48c12())), 0.78);
    assert_eq!(f64::from_bits(verify_floor(&sim48c16())), 0.78);
}

#[test]
fn thresholds_of_variants() {
    let common = 0.25f32.to_bits();
    assert_eq!(erasure_threshold(&sim96c32(), common), common);
    assert_eq!(erasure_threshold(&sim48c8(), common), 0);
    assert_eq!(erasure_threshold(&sim48c12(), common), 0.40f32.to_bits());
}

#[test]
fn sync_gate_requires_seven_tenths() {
    let m = sim48c12();
    let mut ring = m.sync.clone();
    assert_eq!(sync_gate(&ring, &m), Some(16));
    ring[0] ^= 1;
    ring[5] ^= 1;
    assert_eq!(sync_gate(&ring, &m), Some(12));
    ring[9] ^= 1;
    assert_eq!(sync_gate(&ring, &m), None);
    // turned rings pass too
    let turned: Vec<u8> = (0..16).map(|i| m.sync[(i + 3) % 16]).collect();
    assert_eq!(sync_gate(&turned, &m), Some(16));
}

#[test]
fn sync_patterns_of_other_variants_are_rejected() {
    let ms = [sim48c8(), sim48c12(), sim48c16()];
    for a in &ms {
        for b in &ms {
            for s in 0..16 {
                for flip in 0..2u8 {
                    let ring: Vec<u8> = (0..16).map(|i| b.sync[(i + s) % 16] ^ flip).collect();
                    let passes = sync_gate(&ring, a).is_some();
                    assert_eq!(passes, a.name == b.name && flip == 0, "{} {}", a.name, b.name);
                }
            }
        }
    }
}

#[test]
fn grids_are_read_and_accepted() {
    let m = sim96c32();
    let payload = encode_id(0xabcdef, &m).unwrap();
    let clean = encode(&payload, &m).unwrap();
    let turned = roll_grid(&clean, &m, 4);
    let conf = vec![0.8f32.to_bits(); turned.len()];
    let reading = read_grid(&turned, &conf, &m, 0.25f32.to_bits()).unwrap();
    assert_eq!(reading.payload, payload);
    assert_eq!(reading.reference, clean);
    assert_eq!(reading.shift, m.sector_count - 4);
    assert_eq!(reading.stats, RsStats { erasures: 0, corrected: 0 });
    let tag = accept(reading, &m);
    assert_eq!((tag.variant, tag.mode, tag.value), ("sim96c32", "ID", Value::Int(0xabcdef)));
}

#[test]
fn noise_is_not_read() {
    let m = sim96c32();
    let mut grid = vec![0u8; 96];
    for (i, c) in grid.iter_mut().enumerate() {
        *c = (i * i / 3 % 2) as u8;
    }
    let conf = vec![1.0f32.to_bits(); 96];
    assert!(read_grid(&grid, &conf, &m, 0.25f32.to_bits()).is_none());
}

#[test]
fn unknown_modes_are_reported_as_bytes() {
    let m = sim96c32();
    let grid = encode(&[0x0f, 1, 2, 3], &m).unwrap();
    let conf = vec![1.0f32.to_bits(); grid.len()];
    let tag = accept(read_grid(&grid, &conf, &m, 0).unwrap(), &m);
    assert_eq!((tag.mode, tag.value), ("UNKNOWN", Value::Bytes(vec![0x0f, 1, 2, 3])));
}

#[test]
fn attempts_in_order() {
    assert_eq!((SCALES, PHASES), (4, 6));
    let mut at = 0;
    for h in 0..3 {
        for scale in 0..SCALES {
            for phase in 0..PHASES {
                assert_eq!(attempt(at), (h, scale, phase));
                at += 1;
            }
        }
    }
}

fn ladder(p: Prospect) -> Vec<&'static str> {
    let mut names = Vec::new();
    let mut next = first_path(p);
    while let Some(path) = next {
        names.push(path.name());
        next = next_path(p, path);
    }
    names
}

#[test]
fn retry_ladder() {
    let all = Prospect { has_alt: true, bullseye_only: false, deblurs: true, smeared: true };
    assert_eq!(ladder(all), ["direct", "sticker", "bullseye", "deconv", "motion", "shadow"]);
    let plain = Prospect { has_alt: false, bullseye_only: false, deblurs: false, smeared: false };
    assert_eq!(ladder(plain), ["direct", "bullseye", "shadow"]);
    let small = Prospect { deblurs: true, ..plain };
    assert_eq!(ladder(small), ["direct", "bullseye", "deconv", "shadow"]);
    let moved = Prospect { smeared: true, ..plain };
    assert_eq!(ladder(moved), ["direct", "bullseye", "motion", "shadow"]);
    let disk = Prospect { has_alt: false, bullseye_only: true, deblurs: true, smeared: true };
    assert_eq!(ladder(disk), ["bullseye"]);
    assert_eq!(first_path(all), Some(Path::Direct));
}

#[test]
fn what_is_reported() {
    assert!(reports(true, false, false));
    assert!(reports(false, true, true));
    assert!(!reports(false, true, false));
    assert!(!reports(false, false, true));
}

#[test]
fn tags_come_first() {
    let size = |v: f64| v.to_bits();
    let found = [(false, size(100.0)), (true, size(20.0)), (true, size(50.0)), (false, size(10.0))];
    let n = found.len();
    let none = vec![false; n * n];
    assert_eq!(dedup(&found, &none), [2, 1, 0, 3]);
    // the large candidate without a tag is close to the tag
    let mut clash = vec![false; n * n];
    clash[1] = true;
    clash[n + 2] = true;
    assert_eq!(dedup(&found, &clash), [2, 0, 3]);
    assert!(dedup(&[], &[]).is_empty());
}

#[test]
fn readings_that_pass_the_floor() {
    let key = |v: f64| v.to_bits();
    assert!(passes_floor(&sim96c32(), key(0.73)));
    assert!(!passes_floor(&sim96c32(), key(0.7299999999)));
    assert!(!passes_floor(&sim48c8(), key(0.75)));
    assert!(passes_floor(&sim48c8(), key(0.76)));
    assert!(!passes_floor(&sim48c12(), key(0.77)));
    assert!(passes_floor(&sim48c12(), key(0.78)));
    assert!(!passes_floor(&sim48c12(), 0));
}

#[test]
fn sizes_that_deblur() {
    let deblurs = |px: f64| prospect(false, false, px.to_bits()).deblurs;
    assert!(deblurs(160.0));
    assert!(deblurs(12.5));
    assert!(!deblurs(160.0001));
    assert_eq!(f64::from_bits(DECONV_MAX_PX), 160.0);
    assert!(tries_coarse(true, 99.9f64.to_bits()));
    assert!(!tries_coarse(true, 100.0f64.to_bits()));
    assert!(!tries_coarse(false, 50.0f64.to_bits()));
    assert_eq!(f64::from_bits(REFINED_ALONE_PX), 100.0);
    let p = prospect(true, true, 0);
    assert!(p.has_alt && p.bullseye_only && !p.smeared);
    assert!(is_smeared(0.25f64.to_bits()));
    assert!(!is_smeared(0.2499f64.to_bits()));
    assert_eq!(f64::from_bits(SMEAR_COHERENCE), 0.25);
}
