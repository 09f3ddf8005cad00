//! Pictures and headers from outside.
use simittag::header::{parse_header, requested_variants};
use simittag::picture::{frame_picture, read_png, usable_size, PictureError, GRAYSCALE};

fn png(w: u32, h: u32, color: png::ColorType, depth: png::BitDepth, data: &[u8]) -> Vec<u8> {
    let mut out = Vec::new();
    let mut e = png::Encoder::new(&mut out, w, h);
    e.set_color(color);
    e.set_depth(depth);
    let mut writer = e.write_header().unwrap();
    writer.write_image_data(data).unwrap();
    writer.finish().unwrap();
    out
}

#[test]
fn pictures() {
    let px = [0u8, 50, 100, 150, 200, 250];
    let file = png(3, 2, png::ColorType::Grayscale, png::BitDepth::Eight, &px);
    let g = read_png(&file).unwrap();
    assert_eq!((g.w, g.h, &g.px[..]), (3, 2, &px[..]));
}

#[test]
fn pictures_that_cannot_be_used() {
    let rgb = png(1, 2, png::ColorType::Rgb, png::BitDepth::Eight, &[1, 2, 3, 4, 5, 6]);
    assert_eq!(read_png(&rgb).err(), Some(PictureError::Unsupported));
    let deep = png(1, 2, png::ColorType::Grayscale, png::BitDepth::Sixteen, &[1, 2, 3, 4]);
    assert_eq!(read_png(&deep).err(), Some(PictureError::Unsupported));
    assert_eq!(read_png(b"not a picture").err(), Some(PictureError::Unreadable));
    let mut cut = png(8, 8, png::ColorType::Grayscale, png::BitDepth::Eight, &[77; 64]);
    cut.truncate(45);
    assert_eq!(read_png(&cut).err(), Some(PictureError::Unreadable));
}

#[test]
fn frames_at_the_start_of_a_buffer() {
    let g = frame_picture(Some((2, 1, vec![5, 6, 0, 0]))).unwrap();
    assert_eq!((g.w, g.h, g.px), (2, 1, vec![5, 6]));
    let over = frame_picture(Some((2, 3, vec![1, 2, 3, 4, 5])));
    assert_eq!(over.err(), Some(PictureError::Unreadable));
    assert_eq!(frame_picture(None).err(), Some(PictureError::Unreadable));
    let huge = frame_picture(Some((u32::MAX, u32::MAX, vec![])));
    assert_eq!(huge.err(), Some(PictureError::Unreadable));
}

#[test]
fn picture_sizes() {
    assert_eq!(GRAYSCALE, png::ColorType::Grayscale as u8);
    assert_eq!(usable_size(Some((640, 480, 0, 8))), Ok((640, 480)));
    assert_eq!(usable_size(Some((640, 480, 2, 8))), Err(PictureError::Unsupported));
    assert_eq!(usable_size(Some((640, 480, 0, 1))), Err(PictureError::Unsupported));
    assert_eq!(usable_size(Some((20000, 20000, 0, 8))), Ok((20000, 20000)));
    let over = usable_size(Some((u32::MAX, u32::MAX, 0, 8)));
    assert_eq!(over, Err(PictureError::TooLarge));
    assert_eq!(usable_size(None), Err(PictureError::Unreadable));
}

fn names(line: &str) -> Vec<&'static str> {
    parse_header(line).unwrap().variants.iter().map(|m| m.name).collect()
}

#[test]
fn headers() {
    let h = parse_header(
        "{\"w\":640,\"h\":480,\"fx\":1.5,\"versions\":\"M\",\"mode\":\"markers\",\"pose_only\":false}\n",
    )
    .unwrap();
    assert_eq!((h.w, h.h, h.markers, h.pose_only), (640, 480, true, false));
    assert_eq!(h.variants.len(), 1);
    assert_eq!(h.variants[0].name, "sim96c32");
    let h = parse_header("{\"w\":2,\"h\":1,\"mode\":\"detect\"}").unwrap();
    assert_eq!((h.w, h.h, h.markers, h.pose_only), (2, 1, false, true));
}

#[test]
fn requested_by_headers() {
    let default = ["sim48c12", "sim96c32", "sim180c88"];
    assert_eq!(names("{\"w\":1,\"h\":1}"), default);
    assert_eq!(names("{\"w\":1,\"h\":1,\"versions\":null}"), default);
    assert_eq!(names("{\"w\":1,\"h\":1,\"versions\":\"\"}"), default);
    assert_eq!(names("{\"w\":1,\"h\":1,\"versions\":\"auto\"}"), default);
    assert_eq!(names("{\"w\":1,\"h\":1,\"versions\":7}"), default);
    assert_eq!(names("{\"w\":1,\"h\":1,\"versions\":\"s4k,D\"}"), ["sim48c12", "sim180c88"]);
    assert_eq!(
        names("{\"w\":1,\"h\":1,\"versions\":[\"s64k\",3,\"none\",\"T\"]}"),
        ["sim48c16", "sim48c8"]
    );
    assert!(names("{\"w\":1,\"h\":1,\"versions\":[]}").is_empty());
}

#[test]
fn headers_without_a_size() {
    assert!(parse_header("{\"w\":1}").is_none());
    assert!(parse_header("{\"w\":-1,\"h\":1}").is_none());
    assert!(parse_header("{\"w\":1.5,\"h\":1}").is_none());
    assert!(parse_header("{\"w\":\"1\",\"h\":1}").is_none());
    assert!(parse_header("[1,2]").is_none());
    assert!(parse_header("not a header").is_none());
    assert!(parse_header("{\"w\":18446744073709551615,\"h\":2}").is_none());
    let h = parse_header("{\"w\":20000,\"h\":20000}").unwrap();
    assert_eq!((h.w, h.h), (20000, 20000));
}

#[test]
fn variants_of_texts_and_lists() {
    let name = |v: Vec<simittag::marker::MarkerSpec>| v.iter().map(|m| m.name).collect::<Vec<_>>();
    let list = vec![Some("s256".to_string()), None];
    assert_eq!(name(requested_variants(None, Some(&list))), ["sim48c8"]);
    assert_eq!(name(requested_variants(Some("s16m"), Some(&list))), ["sim96c32"]);
    assert_eq!(name(requested_variants(None, None)).len(), 3);
}
