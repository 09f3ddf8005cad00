//! Round trips through damaged grids.
use simittag::codec::CodecError;
use simittag::marker::{sim48c12, sim48c8, sim96c32, variants};
use simittag::scenario::{damage, flip_cells, mark_cells, random_case, replay, turn_grid, XorShift};

#[test]
fn generator() {
    let mut rng = XorShift(0x5eed_cafe_f00d_1234);
    assert_eq!(rng.next(), 0x07d0_2908_a6cf_0510);
    assert_eq!(rng.next(), 0xbda1_1669_5ad5_df1a);
    let mut rng = XorShift(0x5eed_cafe_f00d_1234);
    assert_eq!(rng.below(1000), (0x07d0_2908_a6cf_0510u64 % 1000) as usize);
    assert_eq!(XorShift(0).next(), 0);
}

#[test]
fn turning_flipping_marking() {
    let m = sim48c8();
    let grid: Vec<u8> = (0..48).map(|i| (i % 2) as u8).collect();
    let turned = turn_grid(&grid, &m, 5);
    for r in 0..3 {
        for i in 0..16 {
            assert_eq!(turned[r * 16 + (i + 5) % 16], grid[r * 16 + i]);
        }
    }
    let mut g = grid.clone();
    flip_cells(&mut g, &m, &[(0, 0), (2, 15), (1, 3), (1, 3)]);
    assert_eq!(g[0], 1);
    assert_eq!(g[47], 0);
    assert_eq!(g[19], grid[19]);
    flip_cells(&mut g, &m, &[(0, 0), (2, 15)]);
    assert_eq!(g, grid);
    let marks = mark_cells(&m, &[(1, 2)]);
    assert_eq!(marks.len(), 48);
    assert_eq!(marks.iter().filter(|&&b| b).count(), 1);
    assert!(marks[18]);
}

#[test]
fn replayed_cases() {
    let m = sim96c32();
    let p = [0, 1, 2, 3];
    assert_eq!(replay(&p, &m, 0, &[], &[]), Ok((Some(p.to_vec()), 0)));
    assert_eq!(replay(&p, &m, 7, &[(1, 0), (2, 0)], &[]), Ok((Some(p.to_vec()), 7)));
    assert_eq!(replay(&p, &m, 23, &[(3, 9)], &[(1, 9), (2, 9)]), Ok((Some(p.to_vec()), 23)));
    assert_eq!(
        replay(&[1], &m, 0, &[], &[]),
        Err(CodecError::Length { expected: 4, got: 1 })
    );
    assert_eq!(damage(&[0xff, 0], &sim48c12(), 0, &[]), Err(CodecError::TooBig { bits: 12 }));
}

#[test]
fn random_round_trips() {
    let mut rng = XorShift(0x5eed_cafe_f00d_1234);
    let all = variants();
    let mut recovered = 0;
    for i in 0..60 {
        let m = &all[i % 3];
        let case = random_case(&mut rng, m);
        assert_eq!(case.payload.len(), m.payload_bytes());
        assert!(case.shift < m.sector_count);
        assert!(case.flips.len() < m.rs_nsym + 2);
        assert!(case.erasures.windows(2).all(|w| w[0] < w[1]));
        let again = replay(&case.payload, m, case.shift, &case.flips, &case.erasures).unwrap();
        assert_eq!(again, (case.out.clone(), case.out_shift));
        if case.flips.is_empty() && case.erasures.is_empty() {
            assert_eq!((case.out.clone(), case.out_shift), (Some(case.payload.clone()), case.shift));
        }
        if case.out == Some(case.payload) {
            recovered += 1;
        }
    }
    assert!(recovered > 20);
}

#[test]
fn generator_does_not_merge_states() {
    let mut seen: Vec<u64> = (1..2000u64).map(|x| XorShift(x).next()).collect();
    assert!(seen.iter().all(|&v| v != 0));
    seen.sort();
    seen.dedup();
    assert_eq!(seen.len(), 1999);
}
