//! The nesting of contours: the parent of a contour is the contour right
//! around it.
use crate::border::fg;
use crate::contour_regions::{
    key_pixel, keyed, law_contour_of_one_region, lemma_keyed, lemma_met_traced, lemma_passes_edges,
    lemma_pixel_told, lemma_row_told, lemma_rows_told, lemma_start_keyed, passes_pixel, pixel_told,
    region_start, start_edge, start_pixel, starts_region, told,
};
use crate::contours::{
    area, border_start, borders_of, edges_passed, label_ok, lemma_place, lemma_scan_pixel,
    lemma_scan_row, lemma_scan_rows, parent_of, place, scan_ok, scan_pixel, scan_row, scan_rows,
    starts, traceable, Border, Scan,
};
use crate::edges::{is_edge, lemma_same_border, same_border, Edge};
use crate::image::Gray;
use crate::regions::{
    before, behind, beside, connected, in_hole, is_first, law_border_between_regions,
    law_border_encloses, law_one_border_between, lemma_along, lemma_connected_inside,
    lemma_connected_symmetric, lemma_connected_transitive, lemma_key, lemma_touching,
};
use crate::tracing::lemma_traced_label;
use vstd::prelude::*;

verus! {

/// Whether the label of a pixel names a border of its region and, where the
/// label is negative, the border to the east of it.
spec fn label_named(g: &Gray, st: Scan, x: int, y: int) -> bool {
    let l = st.labels[place(g, x, y)];
    let east = Edge { x, y, d: 0 };
    &&& l >= 2 ==> l - 2 < st.borders.len() && connected(
        g,
        start_pixel(st.borders[l - 2]),
        (x, y),
    )
    &&& l <= -2 ==> -l - 2 < st.borders.len() && connected(
        g,
        start_pixel(st.borders[-l - 2]),
        (x, y),
    ) && is_edge(g, east) && same_border(g, start_edge(st.borders[-l - 2]), east)
}

/// Whether all labels do.
spec fn labels_named(g: &Gray, st: Scan) -> bool {
    forall|x: int, y: int| #[trigger] fg(g, x, y) ==> label_named(g, st, x, y)
}

/// Whether a border has the right parent among the borders: around a hole, the
/// outer border of the region that the hole is in; around a region in a hole,
/// the border of the hole; and otherwise none.
spec fn well_parented(g: &Gray, borders: Seq<Border>, b: int) -> bool {
    let p = borders[b].parent;
    let (x, y) = start_pixel(borders[b]);
    if borders[b].is_hole {
        0 <= p < borders.len() && !borders[p].is_hole && connected(
            g,
            start_pixel(borders[p]),
            (x, y),
        )
    } else if in_hole(g, (x - 1, y)) {
        0 <= p < borders.len() && borders[p].is_hole && connected(
            g,
            region_start(borders[p]),
            (x - 1, y),
        )
    } else {
        p == -1
    }
}

/// Whether all borders do.
spec fn all_parented(g: &Gray, borders: Seq<Border>) -> bool {
    forall|b: int| 0 <= b < borders.len() ==> #[trigger] well_parented(g, borders, b)
}

/// Whether the border met last is one of the region of the pixel scanned last,
/// and at its east edge that of the edge.
spec fn last_right(g: &Gray, st: Scan, x: int, y: int) -> bool {
    if fg(g, x, y) {
        &&& 2 <= st.last < st.borders.len() + 2
        &&& connected(g, start_pixel(st.borders[st.last - 2]), (x, y))
        &&& !fg(g, x + 1, y) ==> connected(
            g,
            behind(start_edge(st.borders[st.last - 2])),
            (x + 1, y),
        )
    } else if st.last < 2 {
        !in_hole(g, (x, y))
    } else {
        st.last < st.borders.len() + 2 && connected(
            g,
            behind(start_edge(st.borders[st.last - 2])),
            (x, y),
        )
    }
}

/// Connected pixels are both in a hole or neither.
proof fn lemma_hole_connected(g: &Gray, p: (int, int), q: (int, int))
    requires
        connected(g, p, q),
    ensures
        in_hole(g, p) == in_hole(g, q),
{
    let e = Edge { x: 0, y: 0, d: 0 };
    lemma_connected_symmetric(g, p, q);
    lemma_connected_inside(g, e, p, q);
    if in_hole(g, p) {
        assert forall|t: (int, int)| #[trigger] connected(g, q, t) implies
            crate::regions::in_image(g, t) by {
            lemma_connected_transitive(g, p, q, t);
        }
    }
    if in_hole(g, q) {
        assert forall|t: (int, int)| #[trigger] connected(g, p, t) implies
            crate::regions::in_image(g, t) by {
            lemma_connected_transitive(g, q, p, t);
        }
    }
}

/// A border that is added changes nothing for the others.
proof fn lemma_parented_push(g: &Gray, borders: Seq<Border>, b: Border)
    requires
        all_parented(g, borders),
        well_parented(g, borders.push(b), borders.len() as int),
    ensures
        all_parented(g, borders.push(b)),
{
    let all = borders.push(b);
    assert forall|c: int| 0 <= c < all.len() implies #[trigger] well_parented(g, all, c) by {
        if c < borders.len() {
            assert(well_parented(g, borders, c));
            assert(all[c] == borders[c]);
            let p = borders[c].parent;
            if 0 <= p < borders.len() {
                assert(all[p] == borders[p]);
            }
        }
    }
}

/// The parent of a new outer border is right, given a border along the
/// background to its left.
proof fn lemma_outer_parent(g: &Gray, st: Scan, x: int, y: int)
    requires
        all_parented(g, st.borders),
        forall|b: int| 0 <= b < st.borders.len() ==> keyed(g, #[trigger] st.borders[b]),
        !fg(g, x - 1, y),
        last_right(g, st, x - 1, y),
    ensures
        ({
            let p = parent_of(st.borders, st.last, false);
            if in_hole(g, (x - 1, y)) {
                0 <= p < st.borders.len() && st.borders[p].is_hole && connected(
                    g,
                    region_start(st.borders[p]),
                    (x - 1, y),
                )
            } else {
                p == -1
            }
        }),
{
    let left = (x - 1, y);
    if st.last >= 2 {
        let i = st.last - 2;
        let b = st.borders[i];
        lemma_keyed(g, b);
        lemma_hole_connected(g, behind(start_edge(b)), left);
        if !b.is_hole {
            assert(well_parented(g, st.borders, i));
            let (u, v) = start_pixel(b);
            assert(behind(start_edge(b)) == (u - 1, v));
            if in_hole(g, left) {
                lemma_connected_transitive(
                    g,
                    region_start(st.borders[b.parent]),
                    (u - 1, v),
                    left,
                );
            }
        } else {
            assert(behind(start_edge(b)) == region_start(b));
        }
    }
}

/// The parent of the border of a new hole is right, given a border of the
/// region that the hole is in.
proof fn lemma_hole_parent(g: &Gray, borders: Seq<Border>, last: int, x: int, y: int)
    requires
        all_parented(g, borders),
        2 <= last < borders.len() + 2,
        connected(g, start_pixel(borders[last - 2]), (x, y)),
    ensures
        ({
            let p = parent_of(borders, last, true);
            0 <= p < borders.len() && !borders[p].is_hole && connected(
                g,
                start_pixel(borders[p]),
                (x, y),
            )
        }),
{
    let b = borders[last - 2];
    if b.is_hole {
        assert(well_parented(g, borders, last - 2));
        lemma_connected_transitive(g, start_pixel(borders[b.parent]), start_pixel(b), (x, y));
    }
}

/// Tracing a new border keeps the labels telling.
proof fn lemma_named_push(g: &Gray, st: Scan, b: Border, after: Scan)
    requires
        labels_named(g, st),
        st.labels.len() == area(g),
        is_edge(g, start_edge(b)),
        st.borders.len() + 2 <= i32::MAX,
        after.borders == st.borders.push(b),
        after.labels == crate::contours::labelled(
            g,
            st.labels,
            start_edge(b).x,
            start_edge(b).y,
            start_edge(b).d,
            (st.borders.len() + 2) as i32,
        ),
    ensures
        labels_named(g, after),
{
    let n = st.borders.len() as int;
    let e = start_edge(b);
    assert forall|x: int, y: int| #[trigger] fg(g, x, y) implies label_named(g, after, x, y) by {
        assert(label_named(g, st, x, y));
        lemma_traced_label(g, st.labels, e, (n + 2) as i32, x, y);
        let (l, m) = (st.labels[place(g, x, y)], after.labels[place(g, x, y)]);
        assert(after.borders[n] == b);
        if m == l {
            if l >= 2 {
                assert(after.borders[l - 2] == st.borders[l - 2]);
            }
            if l <= -2 {
                assert(after.borders[-l - 2] == st.borders[-l - 2]);
            }
        } else {
            assert(connected(g, start_pixel(b), (x, y)));
        }
    }
}

/// At the east edge of a scanned pixel the label is negative.
proof fn lemma_east_told(g: &Gray, st: Scan, x: int, y: int)
    requires
        told(g, st, (x + 1, y)),
        fg(g, x, y),
        !fg(g, x + 1, y),
    ensures
        st.labels[place(g, x, y)] < 0,
{
    let e = Edge { x, y, d: 0 };
    assert(is_edge(g, e));
    assert(pixel_told(g, st, x, y));
    let z = law_border_encloses(g, e);
    assert(starts_region(g, z));
    lemma_key(g, z);
    if fg(g, z.0, z.1) {
        lemma_connected_symmetric(g, (x, y), z);
        assert(!before((x, y), z));
    } else {
        lemma_connected_symmetric(g, behind(e), z);
        assert(behind(e) == (x + 1, y));
        assert(!before(behind(e), z));
    }
    assert(before(key_pixel(g, z), (x + 1, y)));
    lemma_met_traced(g, st.borders, e, z);
}

/// After a foreground pixel the border met last is right.
proof fn lemma_last_light(g: &Gray, st: Scan, x: int, y: int)
    requires
        told(g, st, (x, y)),
        scan_ok(g, st),
        fg(g, x, y),
        st.borders.len() + 2 <= i32::MAX,
        last_right(g, st, x - 1, y),
        labels_named(g, scan_pixel(g, st, x, y)),
        told(g, scan_pixel(g, st, x, y), (x + 1, y)),
        scan_ok(g, scan_pixel(g, st, x, y)),
    ensures
        last_right(g, scan_pixel(g, st, x, y), x, y),
{
    let after = scan_pixel(g, st, x, y);
    let q = place(g, x, y);
    lemma_place(g, x, y);
    assert(label_ok(g, st, q) && label_ok(g, after, q));
    assert(label_named(g, after, x, y));
    let l = after.labels[q];
    if l == 1 {
        let start = starts(g, st.labels, x, y);
        if start is Some {
            lemma_start_keyed(g, st, x, y, start.unwrap());
            let b = after.borders[st.borders.len() as int];
            lemma_keyed(g, b);
            lemma_same_border(g, start_edge(b), start_edge(b), start_edge(b));
            lemma_traced_label(
                g,
                st.labels,
                start_edge(b),
                (st.borders.len() + 2) as i32,
                x,
                y,
            );
            assert(is_edge(g, Edge { x, y, d: start_edge(b).d }));
        }
        assert(fg(g, x - 1, y));
        lemma_touching(g, (x - 1, y), (x, y));
        lemma_connected_transitive(
            g,
            start_pixel(st.borders[st.last - 2]),
            (x - 1, y),
            (x, y),
        );
    }
    if !fg(g, x + 1, y) {
        lemma_east_told(g, after, x, y);
        let b = after.borders[-l - 2];
        assert(keyed(g, b));
        lemma_keyed(g, b);
        law_border_between_regions(g, start_edge(b), Edge { x, y, d: 0 });
    }
}

/// After a background pixel the border met last is right.
proof fn lemma_last_dark(g: &Gray, st: Scan, x: int, y: int)
    requires
        !fg(g, x, y),
        last_right(g, st, x - 1, y),
    ensures
        last_right(g, st, x, y),
{
    if !fg(g, x - 1, y) {
        lemma_touching(g, (x - 1, y), (x, y));
        if st.last < 2 {
            lemma_hole_connected(g, (x - 1, y), (x, y));
        } else {
            lemma_connected_transitive(
                g,
                behind(start_edge(st.borders[st.last - 2])),
                (x - 1, y),
                (x, y),
            );
        }
    }
}

/// A border that starts gets the right parent.
proof fn lemma_start_parented(g: &Gray, st: Scan, x: int, y: int, is_hole: bool)
    requires
        told(g, st, (x, y)),
        scan_ok(g, st),
        fg(g, x, y),
        starts(g, st.labels, x, y) == Some(is_hole),
        st.borders.len() + 2 <= i32::MAX,
        labels_named(g, st),
        all_parented(g, st.borders),
        last_right(g, st, x - 1, y),
    ensures
        labels_named(g, scan_pixel(g, st, x, y)),
        all_parented(g, scan_pixel(g, st, x, y).borders),
{
    let after = scan_pixel(g, st, x, y);
    let l = st.labels[place(g, x, y)];
    let n = st.borders.len() as int;
    lemma_place(g, x, y);
    assert(label_ok(g, st, place(g, x, y)));
    lemma_start_keyed(g, st, x, y, is_hole);
    let b = after.borders[n];
    lemma_keyed(g, b);
    lemma_named_push(g, st, b, after);
    let last = if is_hole && l > 1 {
        l as int
    } else {
        st.last
    };
    assert(b.parent == parent_of(st.borders, last, is_hole));
    if is_hole {
        if l > 1 {
            assert(label_named(g, st, x, y));
        } else {
            assert(fg(g, x - 1, y));
            lemma_touching(g, (x - 1, y), (x, y));
            lemma_connected_transitive(
                g,
                start_pixel(st.borders[st.last - 2]),
                (x - 1, y),
                (x, y),
            );
        }
        lemma_hole_parent(g, st.borders, last, x, y);
    } else {
        lemma_outer_parent(g, st, x, y);
    }
    assert(b.parent >= 0 ==> after.borders[b.parent] == st.borders[b.parent]);
    assert(well_parented(g, after.borders, n));
    lemma_parented_push(g, st.borders, b);
}

/// What the scan of one pixel keeps.
proof fn lemma_pixel_parented(g: &Gray, st: Scan, x: int, y: int)
    requires
        told(g, st, (x, y)),
        scan_ok(g, st),
        1 <= x <= g.w,
        1 <= y <= g.h,
        st.borders.len() + 2 <= i32::MAX,
        labels_named(g, st),
        all_parented(g, st.borders),
        last_right(g, st, x - 1, y),
    ensures
        labels_named(g, scan_pixel(g, st, x, y)),
        all_parented(g, scan_pixel(g, st, x, y).borders),
        last_right(g, scan_pixel(g, st, x, y), x, y),
{
    let after = scan_pixel(g, st, x, y);
    let q = place(g, x, y);
    crate::image::lemma_index(g.w + 2, g.h + 2, x, y);
    assert(label_ok(g, st, q));
    if !fg(g, x, y) {
        assert(after == st);
        lemma_last_dark(g, st, x, y);
    } else {
        lemma_scan_pixel(g, st, x, y);
        lemma_pixel_told(g, st, x, y);
        match starts(g, st.labels, x, y) {
            Some(is_hole) => {
                lemma_start_parented(g, st, x, y, is_hole);
            },
            None => {
                assert(after.borders == st.borders && after.labels == st.labels);
                assert forall|u: int, v: int| #[trigger] fg(g, u, v) implies label_named(
                    g,
                    after,
                    u,
                    v,
                ) by {
                    assert(label_named(g, st, u, v));
                }
            },
        }
        lemma_last_light(g, st, x, y);
    }
}

/// What the scan of a row keeps.
proof fn lemma_row_parented(g: &Gray, st: Scan, y: int, n: nat)
    requires
        traceable(g),
        scan_ok(g, st),
        edges_passed(g, st, y, 0),
        1 <= y <= g.h,
        n <= g.w,
        st.borders.len() <= (y - 1) * g.w,
        told(g, st, (1, y)),
        labels_named(g, st),
        all_parented(g, st.borders),
    ensures
        labels_named(g, scan_row(g, st, y, n)),
        all_parented(g, scan_row(g, st, y, n).borders),
        last_right(g, scan_row(g, st, y, n), n as int, y),
    decreases n,
{
    if n == 0 {
        let after = scan_row(g, st, y, 0);
        lemma_touching(g, (0, y), (0, y));
        assert forall|u: int, v: int| #[trigger] fg(g, u, v) implies label_named(
            g,
            after,
            u,
            v,
        ) by {
            assert(label_named(g, st, u, v));
        }
    } else {
        let m = (n - 1) as nat;
        lemma_row_parented(g, st, y, m);
        lemma_row_told(g, st, y, m);
        lemma_scan_row(g, st, y, m);
        lemma_pixel_parented(g, scan_row(g, st, y, m), n as int, y);
    }
}

/// What the scan of rows keeps.
proof fn lemma_rows_parented(g: &Gray, n: nat)
    requires
        traceable(g),
        n <= g.h,
    ensures
        labels_named(g, scan_rows(g, n)),
        all_parented(g, scan_rows(g, n).borders),
    decreases n,
{
    if n == 0 {
        let st = scan_rows(g, 0);
        assert forall|x: int, y: int| #[trigger] fg(g, x, y) implies label_named(g, st, x, y) by {
            lemma_place(g, x, y);
        }
    } else {
        let m = (n - 1) as nat;
        lemma_rows_parented(g, m);
        lemma_rows_told(g, m);
        lemma_scan_rows(g, m);
        lemma_row_parented(g, scan_rows(g, m), n as int, g.w as nat);
    }
}

/// The parent of the contour of a hole is the outer contour of the region of
/// the foreground around the hole, and no other contour is.
pub proof fn law_parent_of_hole(g: &Gray, b: int, c: int)
    requires
        traceable(g),
        0 <= b < borders_of(g).len(),
        0 <= c < borders_of(g).len(),
        borders_of(g)[b].is_hole,
    ensures
        0 <= borders_of(g)[b].parent < borders_of(g).len(),
        borders_of(g)[b].parent == c <==> !borders_of(g)[c].is_hole && connected(
            g,
            start_pixel(borders_of(g)[c]),
            start_pixel(borders_of(g)[b]),
        ),
{
    lemma_rows_parented(g, g.h as nat);
    let borders = borders_of(g);
    assert(well_parented(g, borders, b));
    let p = borders[b].parent;
    let (u, v) = (start_pixel(borders[p]), start_pixel(borders[c]));
    let s = start_pixel(borders[b]);
    if !borders[c].is_hole && connected(g, v, s) {
        lemma_connected_symmetric(g, v, s);
        lemma_connected_transitive(g, u, s, v);
        law_contour_of_one_region(g, p, c);
    }
}

/// The parent of the outer contour of a region is the contour of the hole that
/// the region lies in, and no other contour is. It has none exactly where the
/// background to its left reaches out of the image.
pub proof fn law_parent_of_region(g: &Gray, b: int, c: int)
    requires
        traceable(g),
        0 <= b < borders_of(g).len(),
        0 <= c < borders_of(g).len(),
        !borders_of(g)[b].is_hole,
    ensures
        ({
            let left = (start_pixel(borders_of(g)[b]).0 - 1, start_pixel(borders_of(g)[b]).1);
            &&& borders_of(g)[b].parent == c <==> borders_of(g)[c].is_hole && connected(
                g,
                region_start(borders_of(g)[c]),
                left,
            )
            &&& -1 <= borders_of(g)[b].parent < borders_of(g).len()
            &&& borders_of(g)[b].parent == -1 <==> !in_hole(g, left)
        }),
{
    lemma_rows_parented(g, g.h as nat);
    let borders = borders_of(g);
    assert(well_parented(g, borders, b));
    let p = borders[b].parent;
    let left = (start_pixel(borders[b]).0 - 1, start_pixel(borders[b]).1);
    let t = region_start(borders[c]);
    law_contour_of_one_region(g, c, c);
    if borders[c].is_hole && connected(g, t, left) {
        lemma_hole_connected(g, t, left);
        lemma_connected_symmetric(g, t, left);
        lemma_connected_transitive(g, region_start(borders[p]), left, t);
        law_contour_of_one_region(g, p, c);
    }
}

/// The background pixel on the other side of where a border starts: in the hole,
/// or to the left of the region.
pub open spec fn beyond(b: Border) -> (int, int) {
    if b.is_hole {
        region_start(b)
    } else {
        (start_pixel(b).0 - 1, start_pixel(b).1)
    }
}

/// Whether a pixel shares a side with a region of the background.
pub open spec fn meets(g: &Gray, x: int, y: int, p: (int, int)) -> bool {
    exists|q: (int, int)| #[trigger] connected(g, p, q) && beside(x, y, q.0, q.1)
}

/// The pixels of a border meet the background on its other side.
proof fn lemma_passed_meets(g: &Gray, c: Border, x: int, y: int)
    requires
        keyed(g, c),
        passes_pixel(c, x, y),
    ensures
        connected(g, start_pixel(c), (x, y)),
        meets(g, x, y, beyond(c)),
{
    lemma_keyed(g, c);
    let f = start_edge(c);
    assert(behind(f) == beyond(c));
    let i = choose|i: int| 0 <= i < c.pts.len() && #[trigger] c.pts[i] == (x - 1, y - 1);
    let e = match border_start(g, f.x, f.y, f.d) {
        None => {
            lemma_touching(g, start_pixel(c), start_pixel(c));
            lemma_touching(g, behind(f), behind(f));
            f
        },
        Some(s) => lemma_along(g, f, s, i as nat),
    };
    assert(connected(g, beyond(c), behind(e)));
    assert(beside(x, y, behind(e).0, behind(e).1));
}

/// A contour passes exactly those pixels of its region that share a side with
/// the background on its other side: what is around the region, or in the hole.
pub proof fn law_contour_passes(g: &Gray, b: int, x: int, y: int)
    requires
        traceable(g),
        0 <= b < borders_of(g).len(),
    ensures
        passes_pixel(borders_of(g)[b], x, y) <==> connected(
            g,
            start_pixel(borders_of(g)[b]),
            (x, y),
        ) && meets(g, x, y, beyond(borders_of(g)[b])),
{
    lemma_rows_told(g, g.h as nat);
    let c = borders_of(g)[b];
    assert(keyed(g, c));
    if passes_pixel(c, x, y) {
        lemma_passed_meets(g, c, x, y);
    }
    if connected(g, start_pixel(c), (x, y)) && meets(g, x, y, beyond(c)) {
        lemma_meets_passed(g, c, x, y);
    }
}

/// The pixels that meet the background on the other side of a border are on
/// the border.
proof fn lemma_meets_passed(g: &Gray, c: Border, x: int, y: int)
    requires
        keyed(g, c),
        connected(g, start_pixel(c), (x, y)),
        meets(g, x, y, beyond(c)),
    ensures
        passes_pixel(c, x, y),
{
    lemma_keyed(g, c);
    let f = start_edge(c);
    assert(behind(f) == beyond(c));
    let q = choose|q: (int, int)| #[trigger]
        connected(g, beyond(c), q) && beside(x, y, q.0, q.1);
    lemma_connected_inside(g, f, start_pixel(c), (x, y));
    lemma_connected_inside(g, f, beyond(c), q);
    let e = Edge {
        x,
        y,
        d: if q.0 > x {
            0
        } else if q.1 < y {
            2
        } else if q.0 < x {
            4
        } else {
            6
        },
    };
    assert(behind(e) == q);
    assert(is_edge(g, e));
    law_one_border_between(g, f, e);
    lemma_passes_edges(g, c, e);
}

/// Contours are listed in the order in which their regions and holes start, row
/// by row, and each starts at the first pixel of its region, or to the left of
/// the first pixel of its hole.
pub proof fn law_contours_in_order(g: &Gray, b: int, c: int)
    requires
        traceable(g),
        0 <= b < c < borders_of(g).len(),
    ensures
        before(start_pixel(borders_of(g)[b]), start_pixel(borders_of(g)[c])),
        is_first(g, region_start(borders_of(g)[b])),
        is_first(g, region_start(borders_of(g)[c])),
{
    lemma_rows_told(g, g.h as nat);
    assert(keyed(g, borders_of(g)[b]) && keyed(g, borders_of(g)[c]));
}

} // verus!
