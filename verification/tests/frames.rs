//! Camera frames.
use simittag::frame::{
    colored, draw_dot, img_diff, maybe_downscale, motion_blur, pixel_format, to_gray, PixelFormat,
};
use simittag::image::Gray;

#[test]
fn encodings() {
    assert_eq!(pixel_format("mono8"), Some(PixelFormat::Mono));
    assert_eq!(pixel_format("8UC1"), Some(PixelFormat::Mono));
    assert_eq!(pixel_format("rgb8"), Some(PixelFormat::Rgb));
    assert_eq!(pixel_format("bgr8"), Some(PixelFormat::Bgr));
    assert_eq!(pixel_format("yuv422"), None);
}

#[test]
fn luma() {
    let rgb = [255, 0, 0, 0, 255, 0, 0, 0, 255, 255, 255, 255];
    assert_eq!(to_gray(4, 1, 12, PixelFormat::Rgb, &rgb).px, [77, 149, 29, 255]);
    assert_eq!(to_gray(4, 1, 12, PixelFormat::Bgr, &rgb).px, [29, 149, 77, 255]);
    for v in 0..=255u8 {
        assert_eq!(to_gray(1, 1, 3, PixelFormat::Rgb, &[v, v, v]).px, [v]);
    }
    // rows may be padded
    let mono = [1, 2, 99, 3, 4, 99];
    let g = to_gray(2, 2, 3, PixelFormat::Mono, &mono);
    assert_eq!((g.w, g.h, g.px), (2, 2, vec![1, 2, 3, 4]));
}

#[test]
fn downscaling() {
    let g = Gray { w: 5, h: 3, px: (0..15).map(|v| v * 10).collect() };
    let (same, f) = maybe_downscale(g.clone(), 5);
    assert_eq!((same.px, f), (g.px.clone(), 1));
    let (same, f) = maybe_downscale(g.clone(), 0);
    assert_eq!((same.px, f), (g.px.clone(), 1));
    // two by two blocks: 0 10 50 60 and 20 30 70 80
    let (small, f) = maybe_downscale(g, 3);
    assert_eq!((small.w, small.h, small.px, f), (2, 1, vec![30, 50], 2));
}

#[test]
fn motion() {
    let g = Gray { w: 8, h: 1, px: vec![0, 0, 0, 120, 0, 0, 0, 0] };
    assert_eq!(motion_blur(&g, 2).px, [0, 0, 0, 60, 60, 0, 0, 0]);
    assert_eq!(motion_blur(&g, 3).px, [0, 0, 40, 40, 40, 0, 0, 0]);
    // no longer than half the row
    assert_eq!(motion_blur(&g, 100).px, motion_blur(&g, 4).px);
    assert_eq!(motion_blur(&g, 4).px, [0, 0, 30, 30, 30, 30, 0, 0]);
    let flat = Gray { w: 6, h: 2, px: vec![7; 12] };
    assert_eq!(motion_blur(&flat, 3).px, vec![7; 12]);
}

#[test]
fn drawing() {
    let g = Gray { w: 3, h: 3, px: (0..9).collect() };
    let mut img = colored(&g);
    assert_eq!(&img[..9], [0, 0, 0, 1, 1, 1, 2, 2, 2]);
    draw_dot(&mut img, 3, 3, 0, 0, (9, 8, 7));
    assert_eq!(&img[..9], [9, 8, 7, 9, 8, 7, 2, 2, 2]);
    assert_eq!(&img[9..18], [9, 8, 7, 9, 8, 7, 5, 5, 5]);
    assert_eq!(&img[18..], [6, 6, 6, 7, 7, 7, 8, 8, 8]);
    let before = img.clone();
    draw_dot(&mut img, 3, 3, -5, 1, (1, 1, 1));
    draw_dot(&mut img, 3, 3, i64::MAX, i64::MIN, (1, 1, 1));
    assert_eq!(img, before);
}

#[test]
fn differences() {
    let a = Gray { w: 2, h: 2, px: vec![1, 2, 3, 4] };
    let b = Gray { w: 2, h: 2, px: vec![1, 9, 3, 8] };
    assert_eq!(img_diff(&a, &b), 2);
    assert_eq!(img_diff(&a, &a), 0);
}
