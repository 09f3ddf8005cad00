//! Contours of binary images.
use simittag::contours::{contour_area, find_contours, worth_fitting, Contour};
use simittag::image::Gray;

fn image(rows: &[&str]) -> Gray {
    let px: Vec<u8> = rows
        .iter()
        .flat_map(|r| r.bytes().map(|c| if c == b'#' { 255 } else { 0 }))
        .collect();
    Gray { w: rows[0].len(), h: rows.len(), px }
}

fn shape(c: &Contour) -> (bool, i32, Vec<usize>) {
    (c.is_hole, c.parent, c.children.clone())
}

#[test]
fn nothing_to_trace() {
    assert!(find_contours(&image(&["...", "..."])).is_empty());
    assert!(find_contours(&Gray::new(0, 0)).is_empty());
}

#[test]
fn single_pixel() {
    let c = find_contours(&image(&["...", ".#.", "..."]));
    assert_eq!(c.len(), 1);
    assert_eq!(c[0].pts, [(1, 1)]);
    assert_eq!(shape(&c[0]), (false, -1, vec![]));
}

#[test]
fn square() {
    let c = find_contours(&image(&["###", "###", "###"]));
    assert_eq!(c.len(), 1);
    assert_eq!(
        c[0].pts,
        [(0, 0), (0, 1), (0, 2), (1, 2), (2, 2), (2, 1), (2, 0), (1, 0)]
    );
    assert_eq!(contour_area(&c[0].pts), 8);
}

#[test]
fn spur_is_listed_twice() {
    let c = find_contours(&image(&["###"]));
    assert_eq!(c.len(), 1);
    assert_eq!(c[0].pts, [(0, 0), (1, 0), (2, 0), (1, 0)]);
    assert_eq!(contour_area(&c[0].pts), 0);
}

#[test]
fn rings_nest() {
    let c = find_contours(&image(&[
        ".......", ".#####.", ".#...#.", ".#.#.#.", ".#...#.", ".#####.", ".......",
    ]));
    assert_eq!(c.len(), 3);
    assert_eq!(shape(&c[0]), (false, -1, vec![1]));
    assert_eq!(shape(&c[1]), (true, 0, vec![2]));
    assert_eq!(shape(&c[2]), (false, 1, vec![]));
    assert_eq!(c[0].pts.len(), 16);
    assert_eq!(c[2].pts, [(3, 3)]);
    assert_eq!(contour_area(&c[0].pts), 32);
}

#[test]
fn neighbors_side_by_side() {
    let c = find_contours(&image(&["##.##", "##.##"]));
    assert_eq!(c.len(), 2);
    assert_eq!(shape(&c[0]), (false, -1, vec![]));
    assert_eq!(shape(&c[1]), (false, -1, vec![]));
    // touching by a corner is touching
    assert_eq!(find_contours(&image(&["#.", ".#"])).len(), 1);
}

#[test]
fn consecutive_points_are_neighbors() {
    let c = find_contours(&image(&[
        "..###...#.", ".##.##.##.", ".#...#.#..", ".##.##.###", "..###....#", "#.........",
    ]));
    for c in &c {
        for i in 0..c.pts.len() {
            let (a, b) = (c.pts[i], c.pts[(i + 1) % c.pts.len()]);
            assert!((a.0 - b.0).abs() <= 1 && (a.1 - b.1).abs() <= 1);
        }
    }
    for (i, k) in c.iter().enumerate() {
        for &ch in &k.children {
            assert_eq!(c[ch].parent, i as i32);
        }
        if k.parent >= 0 {
            assert!((k.parent as usize) < i);
            assert_ne!(c[k.parent as usize].is_hole, k.is_hole);
        }
    }
}

#[test]
fn twice_the_area() {
    assert_eq!(contour_area(&[]), 0);
    assert_eq!(contour_area(&[(0, 0), (5, 5)]), 0);
    assert_eq!(contour_area(&[(0, 0), (4, 0), (4, 3)]), 12);
    assert_eq!(contour_area(&[(0, 0), (4, 3), (4, 0)]), 12);
    let far = i32::MAX;
    let s = (far as i128 * 2 + 1) as u128;
    assert_eq!(
        contour_area(&[(i32::MIN, i32::MIN), (far, i32::MIN), (far, far), (i32::MIN, far)]),
        2 * s * s
    );
}

#[test]
fn every_edge_is_on_a_contour() {
    let g = image(&[
        "##....###.", "#.#..#...#", ".#...#.#.#", "#....#...#", "##.#..####", "...#......",
    ]);
    let c = find_contours(&g);
    for y in 0..g.h {
        for x in 0..g.w {
            let at = |dx: i32, dy: i32| {
                let (xx, yy) = (x as i32 + dx, y as i32 + dy);
                xx >= 0
                    && yy >= 0
                    && (xx as usize) < g.w
                    && (yy as usize) < g.h
                    && g.at(xx as usize, yy as usize) != 0
            };
            if at(0, 0) && !(at(1, 0) && at(-1, 0)) {
                assert!(c.iter().any(|c| c.pts.contains(&(x as i32, y as i32))));
            }
        }
    }
}

/// The number of regions of pixels of a kind in an image with a frame around
/// it, without the one of the first pixel where that is of the kind.
fn regions(g: &Gray, light: bool) -> usize {
    let (w, h) = (g.w as i64 + 2, g.h as i64 + 2);
    let is = |x: i64, y: i64| {
        let inner = x >= 1 && y >= 1 && x < w - 1 && y < h - 1;
        inner && g.px[(y as usize - 1) * g.w + x as usize - 1] != 0
    };
    let mut seen = vec![false; (w * h) as usize];
    let mut n = 0;
    for start in 0..w * h {
        if seen[start as usize] || is(start % w, start / w) != light {
            continue;
        }
        if light || start > 0 {
            n += 1;
        }
        seen[start as usize] = true;
        let mut stack = vec![start];
        while let Some(p) = stack.pop() {
            for dy in -1..=1 {
                for dx in -1..=1 {
                    let (x, y) = (p % w + dx, p / w + dy);
                    let beside = dx == 0 || dy == 0;
                    if x < 0 || y < 0 || x >= w || y >= h || !(light || beside) {
                        continue;
                    }
                    let q = y * w + x;
                    if !seen[q as usize] && is(x, y) == light {
                        seen[q as usize] = true;
                        stack.push(q);
                    }
                }
            }
        }
    }
    n
}

/// Images of pixels that are drawn, some sparse and some dense.
fn drawn_images() -> Vec<Gray> {
    let mut x = 88172645463325252u64;
    let mut images = Vec::new();
    for k in 0..60usize {
        let (w, h) = (1 + k % 13, 1 + k % 11);
        let px = (0..w * h)
            .map(|_| {
                x ^= x << 13;
                x ^= x >> 7;
                x ^= x << 17;
                if x % 10 < 2 + k as u64 % 7 {
                    1
                } else {
                    0
                }
            })
            .collect();
        images.push(Gray { w, h, px });
    }
    images
}

#[test]
fn one_contour_per_region() {
    let mut holes = 0;
    for g in drawn_images() {
        let c = find_contours(&g);
        assert_eq!(c.iter().filter(|c| !c.is_hole).count(), regions(&g, true));
        let inner = c.iter().filter(|c| c.is_hole).count();
        assert_eq!(inner, regions(&g, false));
        holes += inner;
    }
    assert!(holes > 0);
}

#[test]
fn contours_are_the_pixels_with_edges() {
    for g in drawn_images() {
        let mut on = vec![false; g.px.len()];
        for c in find_contours(&g) {
            for (x, y) in c.pts {
                on[y as usize * g.w + x as usize] = true;
            }
        }
        let light = |x: i64, y: i64| {
            let inner = x >= 0 && y >= 0 && x < g.w as i64 && y < g.h as i64;
            inner && g.px[y as usize * g.w + x as usize] != 0
        };
        for q in 0..g.px.len() {
            let (x, y) = ((q % g.w) as i64, (q / g.w) as i64);
            let around = [(x + 1, y), (x - 1, y), (x, y + 1), (x, y - 1)];
            let edge = light(x, y) && around.iter().any(|&(u, v)| !light(u, v));
            assert_eq!(on[q], edge);
        }
    }
}

#[test]
fn holes_have_parents() {
    for g in drawn_images() {
        let c = find_contours(&g);
        for (i, one) in c.iter().enumerate() {
            assert!(one.parent < i as i32);
            assert!(!one.is_hole || one.parent >= 0);
            if one.parent >= 0 {
                assert!(c[one.parent as usize].is_hole != one.is_hole);
                assert!(c[one.parent as usize].children.contains(&i));
            }
        }
    }
}

#[test]
fn holes_are_connected_by_sides() {
    // two holes that meet at a corner, and a dark corner that is none
    let c = find_contours(&image(&["####.", "#.###", "##.##", "#####"]));
    assert_eq!(c.iter().filter(|c| c.is_hole).count(), 2);
    assert_eq!(c.iter().filter(|c| !c.is_hole).count(), 1);
}

#[test]
fn contours_worth_fitting() {
    let closed = |pts: Vec<(i32, i32)>| Contour { pts, is_hole: false, parent: -1, children: vec![] };
    let box_of = |w: i32, h: i32| {
        vec![(0, 0), (w, 0), (w, 1), (w, h), (1, h), (0, h)]
    };
    assert!(worth_fitting(&closed(box_of(5, 5))));
    assert!(!worth_fitting(&closed(box_of(6, 4))));
    assert!(!worth_fitting(&closed(vec![(0, 0), (9, 0), (9, 9), (4, 9), (0, 9)])));
}
