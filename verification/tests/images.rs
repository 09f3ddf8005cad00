//! Images and their filters.
use simittag::image::{
    adaptive_block, adaptive_threshold_inv, gaussian_blur_u8_fixed, invert, median3, median_row,
    remap, Gray,
};

fn image(w: usize, h: usize, px: &[u8]) -> Gray {
    Gray { w, h, px: px.to_vec() }
}

#[test]
fn new_images_are_black() {
    let g = Gray::new(3, 2);
    assert_eq!((g.w, g.h, g.px.clone()), (3, 2, vec![0; 6]));
    assert_eq!(Gray::new(0, 5).px.len(), 0);
    assert_eq!(g.clone().px, g.px);
}

#[test]
fn pixels_by_column_and_row() {
    let g = image(3, 2, &[1, 2, 3, 4, 5, 6]);
    assert_eq!(g.at(0, 0), 1);
    assert_eq!(g.at(2, 0), 3);
    assert_eq!(g.at(1, 1), 5);
}

#[test]
fn block_sizes() {
    assert_eq!(adaptive_block(640, 480), 51);
    assert_eq!(adaptive_block(160, 480), 21);
    assert_eq!(adaptive_block(80, 80), 11);
    assert_eq!(adaptive_block(8, 8), 11);
    assert_eq!(adaptive_block(0, 100), 11);
    assert_eq!(adaptive_block(200, 200), 25);
    assert_eq!(adaptive_block(208, 208), 27);
}

#[test]
fn threshold_against_the_mean() {
    let src = image(4, 1, &[100, 93, 94, 0]);
    let mean = image(4, 1, &[100, 100, 100, 6]);
    assert_eq!(adaptive_threshold_inv(&src, &mean, 7).px, [0, 255, 0, 0]);
    assert_eq!(adaptive_threshold_inv(&src, &mean, 0).px, [255, 255, 255, 255]);
    assert_eq!(adaptive_threshold_inv(&src, &mean, -1).px, [255, 255, 255, 255]);
    let mut before = adaptive_threshold_inv(&src, &mean, -300).px;
    for c in -299..300 {
        let px = adaptive_threshold_inv(&src, &mean, c).px;
        assert!(px.iter().zip(&before).all(|(a, b)| a <= b && (*a == 0 || *a == 255)));
        before = px;
    }
    assert_eq!(before, [0; 4]);
}

#[test]
fn medians() {
    // a lone bright pixel disappears
    let mut px = vec![10u8; 25];
    px[12] = 200;
    assert_eq!(median3(&image(5, 5, &px)).px, vec![10; 25]);
    // the middle of nine
    let g = image(3, 3, &[9, 1, 8, 2, 7, 3, 6, 4, 5]);
    assert_eq!(median3(&g).at(1, 1), 5);
    // at the corner the nearest pixels are repeated: 9 9 1 9 9 1 2 2 7
    assert_eq!(median3(&g).at(0, 0), 7);
    assert_eq!(median_row(&g, 0)[0], 7);
    assert_eq!(median3(&image(1, 1, &[42])).px, [42]);
    assert_eq!(median3(&image(0, 0, &[])).px.len(), 0);
}

#[test]
fn median_agrees_with_sorting() {
    let mut x = 1u32;
    let mut px = Vec::new();
    for _ in 0..16 * 12 {
        x = x.wrapping_mul(1664525).wrapping_add(1013904223);
        px.push((x >> 24) as u8);
    }
    let g = image(16, 12, &px);
    let m = median3(&g);
    for y in 0..12i32 {
        for x in 0..16i32 {
            let mut v = Vec::new();
            for dy in -1..=1 {
                for dx in -1..=1 {
                    let (xx, yy) = ((x + dx).clamp(0, 15), (y + dy).clamp(0, 11));
                    v.push(g.at(xx as usize, yy as usize));
                }
            }
            v.sort();
            assert_eq!(m.at(x as usize, y as usize), v[4]);
        }
    }
}

#[test]
fn inverting_twice() {
    let g = image(2, 2, &[0, 1, 200, 255]);
    assert_eq!(invert(&g).px, [255, 254, 55, 0]);
    assert_eq!(invert(&invert(&g)).px, g.px);
}

#[test]
fn blur_with_a_kernel() {
    // a flat image stays flat when the weights sum to 256
    let flat = image(4, 3, &[90; 12]);
    let k = [1, 14, 62, 102, 62, 14, 1];
    assert_eq!(gaussian_blur_u8_fixed(&flat, &k).px, vec![90; 12]);
    // one bright pixel spreads by the products of the weights
    let mut px = vec![0u8; 49];
    px[24] = 255;
    let out = gaussian_blur_u8_fixed(&image(7, 7, &px), &[64, 128, 64]);
    assert_eq!(out.at(3, 3), 64);
    assert_eq!(out.at(2, 3), 32);
    assert_eq!(out.at(2, 2), 16);
    assert_eq!(out.at(1, 3), 0);
}

#[test]
fn blur_reflects_at_the_border() {
    let g = image(2, 2, &[100, 0, 0, 0]);
    let out = gaussian_blur_u8_fixed(&g, &[64, 128, 64]);
    // across the corner the neighbor is counted from both sides
    assert_eq!(out.px, [25, 25, 25, 25]);
    assert_eq!(gaussian_blur_u8_fixed(&g, &[256]).px, g.px);
}

#[test]
fn remapping() {
    let g = image(2, 2, &[10, 20, 30, 40]);
    // whole pixels
    let same: Vec<(i64, i64)> = vec![(0, 0), (32, 0), (0, 32), (32, 32)];
    assert_eq!(remap(&g, &same).px, g.px);
    // halfway between all four, then between two, then out of the image
    let map = vec![(16, 16), (16, 0), (-32, 0), (48, 32)];
    assert_eq!(remap(&g, &map).px, [25, 15, 0, 20]);
    assert_eq!(remap(&g, &[(i64::MAX, i64::MIN); 4]).px, [0; 4]);
}
