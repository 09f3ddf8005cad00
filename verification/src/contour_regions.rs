//! Contours and regions: how the scan meets each region once.
use crate::border::{fg, walk};
use crate::codec::{lemma_listed, listed};
use crate::contours::{
    area, border_start, borders_of, edges_passed, label_ok, labelled, lemma_border_start,
    lemma_outline, lemma_place, lemma_scan_pixel, lemma_scan_row, lemma_scan_rows, outline, place,
    scan_ok, scan_pixel, scan_row, scan_rows, starts, traceable, Border, Scan,
};
use crate::edges::{is_edge, lemma_same_border, same_border, Edge};
use crate::image::Gray;
use crate::regions::{
    before, behind, connected, in_hole, is_first, key_edge, law_border_encloses,
    law_border_encloses_one, lemma_along, lemma_connected_inside, lemma_connected_symmetric,
    lemma_connected_transitive, lemma_first, lemma_key, lemma_touching,
};
use crate::tracing::{lemma_first_round, lemma_traced_label};
use vstd::prelude::*;

verus! {

/// The pixel at which a border starts.
pub open spec fn start_pixel(b: Border) -> (int, int) {
    (b.pts[0].0 + 1, b.pts[0].1 + 1)
}

/// The edge at which a border starts: to the left, or to the right where it is
/// that of a hole.
pub open spec fn start_edge(b: Border) -> Edge {
    Edge {
        x: start_pixel(b).0,
        y: start_pixel(b).1,
        d: if b.is_hole {
            0
        } else {
            4
        },
    }
}

/// The first pixel of the region that a border encloses.
pub open spec fn region_start(b: Border) -> (int, int) {
    if b.is_hole {
        (start_pixel(b).0 + 1, start_pixel(b).1)
    } else {
        start_pixel(b)
    }
}

/// Whether a border is that of the region at whose first pixel it starts: a
/// hole, or a region of the foreground.
pub open spec fn keyed(g: &Gray, b: Border) -> bool {
    let z = region_start(b);
    &&& is_first(g, z)
    &&& if b.is_hole {
        in_hole(g, z)
    } else {
        fg(g, z.0, z.1)
    }
    &&& b.pts == outline(g, start_edge(b).x, start_edge(b).y, start_edge(b).d)
}

/// Whether an edge belongs to one of the borders.
pub open spec fn traced(g: &Gray, borders: Seq<Border>, e: Edge) -> bool {
    exists|b: int|
        0 <= b < borders.len() && same_border(g, start_edge(#[trigger] borders[b]), e)
}

/// Whether one of the borders is that of a region.
pub open spec fn met(borders: Seq<Border>, z: (int, int)) -> bool {
    exists|b: int| 0 <= b < borders.len() && region_start(#[trigger] borders[b]) == z
}

/// Whether one of the borders starts in the region of a pixel.
pub open spec fn reached(g: &Gray, borders: Seq<Border>, p: (int, int)) -> bool {
    exists|b: int| 0 <= b < borders.len() && connected(g, start_pixel(#[trigger] borders[b]), p)
}

/// Whether the label of a pixel tells of the borders at it.
pub open spec fn pixel_told(g: &Gray, st: Scan, x: int, y: int) -> bool {
    let l = st.labels[place(g, x, y)];
    let east = Edge { x, y, d: 0 };
    &&& l < 0 <==> is_edge(g, east) && traced(g, st.borders, east)
    &&& forall|d: int|
        #![trigger is_edge(g, Edge { x, y, d })]
        is_edge(g, Edge { x, y, d }) && traced(g, st.borders, Edge { x, y, d }) ==> l != 1
    &&& l != 1 ==> reached(g, st.borders, (x, y))
}

/// Whether a pixel is the first of a region that a border encloses.
pub open spec fn starts_region(g: &Gray, z: (int, int)) -> bool {
    is_first(g, z) && (fg(g, z.0, z.1) || in_hole(g, z))
}

/// The pixel at which the border of a region starts.
pub open spec fn key_pixel(g: &Gray, z: (int, int)) -> (int, int) {
    (key_edge(g, z).x, key_edge(g, z).y)
}

/// What holds when the scan has come to a pixel: the borders are those of the
/// regions that start before it, in their order, and the labels tell of them.
pub open spec fn told(g: &Gray, st: Scan, at: (int, int)) -> bool {
    &&& st.labels.len() == area(g)
    &&& forall|b: int|
        0 <= b < st.borders.len() ==> keyed(g, #[trigger] st.borders[b]) && before(
            start_pixel(st.borders[b]),
            at,
        )
    &&& forall|b: int, c: int|
        0 <= b < c < st.borders.len() ==> before(
            start_pixel(#[trigger] st.borders[b]),
            start_pixel(#[trigger] st.borders[c]),
        )
    &&& forall|z: (int, int)| #[trigger]
        starts_region(g, z) && before(key_pixel(g, z), at) ==> met(st.borders, z)
    &&& forall|x: int, y: int| #[trigger] fg(g, x, y) ==> pixel_told(g, st, x, y)
}

/// The start of the border of a region is the left edge of its first pixel.
pub proof fn lemma_keyed(g: &Gray, b: Border)
    requires
        keyed(g, b),
    ensures
        start_edge(b) == key_edge(g, region_start(b)),
        starts_region(g, region_start(b)),
        is_edge(g, start_edge(b)),
        key_pixel(g, region_start(b)) == start_pixel(b),
{
    lemma_key(g, region_start(b));
}

/// An edge whose border has been met is traced.
pub proof fn lemma_met_traced(g: &Gray, borders: Seq<Border>, e: Edge, z: (int, int))
    requires
        is_edge(g, e),
        starts_region(g, z),
        same_border(g, e, key_edge(g, z)),
        met(borders, z),
        forall|b: int| 0 <= b < borders.len() ==> keyed(g, #[trigger] borders[b]),
    ensures
        traced(g, borders, e),
{
    let b = choose|b: int| 0 <= b < borders.len() && region_start(#[trigger] borders[b]) == z;
    lemma_keyed(g, borders[b]);
    lemma_same_border(g, e, start_edge(borders[b]), e);
    assert(same_border(g, start_edge(borders[b]), e));
}

/// Where an outer border starts, the pixel is the first of its region.
proof fn lemma_outer_first(g: &Gray, st: Scan, x: int, y: int)
    requires
        told(g, st, (x, y)),
        fg(g, x, y),
        st.labels[place(g, x, y)] == 1,
        !fg(g, x - 1, y),
    ensures
        is_first(g, (x, y)),
{
    let e = Edge { x, y, d: 4 };
    assert(is_edge(g, e));
    assert(pixel_told(g, st, x, y));
    let z = law_border_encloses(g, e);
    assert(starts_region(g, z));
    lemma_key(g, z);
    if before(key_pixel(g, z), (x, y)) {
        lemma_met_traced(g, st.borders, e, z);
    }
    if fg(g, z.0, z.1) {
        lemma_connected_symmetric(g, (x, y), z);
        assert(z == (x, y));
    } else {
        lemma_connected_symmetric(g, behind(e), z);
        assert(!before(behind(e), z));
    }
}

/// At the first pixel of a region of the foreground an outer border starts.
proof fn lemma_first_outer(g: &Gray, st: Scan, x: int, y: int)
    requires
        told(g, st, (x, y)),
        fg(g, x, y),
        is_first(g, (x, y)),
    ensures
        st.labels[place(g, x, y)] == 1,
        !fg(g, x - 1, y),
{
    lemma_key(g, (x, y));
    assert(pixel_told(g, st, x, y));
    if st.labels[place(g, x, y)] != 1 {
        let b = choose|b: int|
            0 <= b < st.borders.len() && connected(
                g,
                start_pixel(#[trigger] st.borders[b]),
                (x, y),
            );
        lemma_connected_symmetric(g, start_pixel(st.borders[b]), (x, y));
    }
}

/// Where the border of a hole starts, the pixel to the right is the first of
/// the hole.
proof fn lemma_hole_first(g: &Gray, st: Scan, x: int, y: int)
    requires
        told(g, st, (x, y)),
        fg(g, x, y),
        st.labels[place(g, x, y)] >= 1,
        !(st.labels[place(g, x, y)] == 1 && !fg(g, x - 1, y)),
        !fg(g, x + 1, y),
    ensures
        is_first(g, (x + 1, y)),
        in_hole(g, (x + 1, y)),
{
    let e = Edge { x, y, d: 0 };
    assert(is_edge(g, e));
    assert(pixel_told(g, st, x, y));
    let z = law_border_encloses(g, e);
    assert(starts_region(g, z));
    lemma_key(g, z);
    if before(key_pixel(g, z), (x, y)) {
        lemma_met_traced(g, st.borders, e, z);
    }
    if fg(g, z.0, z.1) {
        lemma_connected_symmetric(g, (x, y), z);
        assert(z == (x, y));
        lemma_first_outer(g, st, x, y);
    } else {
        lemma_connected_symmetric(g, behind(e), z);
        assert(z == (x + 1, y));
    }
}

/// To the left of the first pixel of a hole its border starts.
proof fn lemma_first_hole(g: &Gray, st: Scan, x: int, y: int)
    requires
        told(g, st, (x, y)),
        is_first(g, (x + 1, y)),
        in_hole(g, (x + 1, y)),
        scan_ok(g, st),
    ensures
        fg(g, x, y),
        st.labels[place(g, x, y)] >= 1,
        !(st.labels[place(g, x, y)] == 1 && !fg(g, x - 1, y)),
{
    let z = (x + 1, y);
    lemma_key(g, z);
    assert(pixel_told(g, st, x, y));
    lemma_place(g, x, y);
    assert(label_ok(g, st, place(g, x, y)));
    let l = st.labels[place(g, x, y)];
    if l == 1 && !fg(g, x - 1, y) {
        lemma_outer_first(g, st, x, y);
        lemma_touching(g, (x, y), (x + 1, y - 1));
    }
    if l < 0 {
        let e = Edge { x, y, d: 0 };
        let b = choose|b: int|
            0 <= b < st.borders.len() && same_border(g, start_edge(#[trigger] st.borders[b]), e);
        lemma_keyed(g, st.borders[b]);
        law_border_encloses_one(g, region_start(st.borders[b]), z);
    }
}

/// A new border is one more that is traced.
proof fn lemma_traced_push(g: &Gray, borders: Seq<Border>, b: Border, e: Edge)
    ensures
        traced(g, borders.push(b), e) <==> traced(g, borders, e) || same_border(
            g,
            start_edge(b),
            e,
        ),
{
    let all = borders.push(b);
    if traced(g, borders, e) {
        let c = choose|c: int|
            0 <= c < borders.len() && same_border(g, start_edge(#[trigger] borders[c]), e);
        assert(all[c] == borders[c]);
    }
    if same_border(g, start_edge(b), e) {
        assert(all[borders.len() as int] == b);
    }
    if traced(g, all, e) {
        let c = choose|c: int|
            0 <= c < all.len() && same_border(g, start_edge(#[trigger] all[c]), e);
        if c < borders.len() {
            assert(all[c] == borders[c]);
        }
    }
}

/// The labels tell of a new border.
proof fn lemma_push_told(g: &Gray, st: Scan, b: Border, last: int, x: int, y: int)
    requires
        st.labels.len() == area(g),
        pixel_told(g, st, x, y),
        fg(g, x, y),
        is_edge(g, start_edge(b)),
        st.borders.len() + 2 <= i32::MAX,
    ensures
        ({
            let e = start_edge(b);
            let number = (st.borders.len() + 2) as i32;
            pixel_told(
                g,
                Scan {
                    labels: labelled(g, st.labels, e.x, e.y, e.d, number),
                    last,
                    borders: st.borders.push(b),
                },
                x,
                y,
            )
        }),
{
    let e = start_edge(b);
    let number = (st.borders.len() + 2) as i32;
    let all = st.borders.push(b);
    let labels = labelled(g, st.labels, e.x, e.y, e.d, number);
    lemma_traced_label(g, st.labels, e, number, x, y);
    assert forall|d: int|
        #![trigger is_edge(g, Edge { x, y, d })]
        is_edge(g, Edge { x, y, d }) && traced(g, all, Edge { x, y, d }) implies labels[place(
        g,
        x,
        y,
    )] != 1 by {
        lemma_traced_push(g, st.borders, b, Edge { x, y, d });
    }
    lemma_traced_push(g, st.borders, b, Edge { x, y, d: 0 });
    if labels[place(g, x, y)] != 1 {
        if labels[place(g, x, y)] != st.labels[place(g, x, y)] {
            assert(connected(g, start_pixel(all[st.borders.len() as int]), (x, y)));
        } else {
            let c = choose|c: int|
                0 <= c < st.borders.len() && connected(
                    g,
                    start_pixel(#[trigger] st.borders[c]),
                    (x, y),
                );
            assert(all[c] == st.borders[c]);
        }
    }
}

/// The border that starts at a pixel is that of a region.
pub proof fn lemma_start_keyed(g: &Gray, st: Scan, x: int, y: int, is_hole: bool)
    requires
        told(g, st, (x, y)),
        scan_ok(g, st),
        fg(g, x, y),
        starts(g, st.labels, x, y) == Some(is_hole),
    ensures
        ({
            let b = scan_pixel(g, st, x, y).borders[st.borders.len() as int];
            &&& keyed(g, b)
            &&& b.is_hole == is_hole
            &&& start_pixel(b) == (x, y)
            &&& scan_pixel(g, st, x, y).borders == st.borders.push(b)
            &&& scan_pixel(g, st, x, y).labels == labelled(
                g,
                st.labels,
                start_edge(b).x,
                start_edge(b).y,
                start_edge(b).d,
                (st.borders.len() + 2) as i32,
            )
        }),
{
    let after = scan_pixel(g, st, x, y);
    let b = after.borders[st.borders.len() as int];
    lemma_place(g, x, y);
    assert(label_ok(g, st, place(g, x, y)));
    lemma_outline(g, x, y, 0);
    lemma_outline(g, x, y, 4);
    assert(start_pixel(b) == (x, y));
    if is_hole {
        lemma_hole_first(g, st, x, y);
    } else {
        lemma_outer_first(g, st, x, y);
    }
}

/// The region that starts at a pixel is met there.
proof fn lemma_start_met(g: &Gray, st: Scan, b: Border, x: int, y: int, z: (int, int))
    requires
        told(g, st, (x, y)),
        scan_ok(g, st),
        fg(g, x, y),
        starts(g, st.labels, x, y) == Some(b.is_hole),
        start_pixel(b) == (x, y),
        starts_region(g, z),
        before(key_pixel(g, z), (x + 1, y)),
    ensures
        met(st.borders.push(b), z),
{
    let all = st.borders.push(b);
    let n = st.borders.len();
    if before(key_pixel(g, z), (x, y)) {
        let c = choose|c: int| 0 <= c < n && region_start(#[trigger] st.borders[c]) == z;
        assert(all[c] == st.borders[c]);
    } else {
        assert(key_pixel(g, z) == (x, y));
        lemma_key(g, z);
        if fg(g, z.0, z.1) {
            lemma_first_outer(g, st, x, y);
        } else {
            lemma_first_hole(g, st, x, y);
        }
        assert(region_start(b) == z);
        assert(all[n as int] == b);
    }
}

/// What the scan of a pixel at which a border starts keeps.
proof fn lemma_start_told(g: &Gray, st: Scan, x: int, y: int, is_hole: bool)
    requires
        told(g, st, (x, y)),
        scan_ok(g, st),
        fg(g, x, y),
        starts(g, st.labels, x, y) == Some(is_hole),
        st.borders.len() + 2 <= i32::MAX,
        scan_ok(g, scan_pixel(g, st, x, y)),
    ensures
        told(g, scan_pixel(g, st, x, y), (x + 1, y)),
{
    let after = scan_pixel(g, st, x, y);
    let n = st.borders.len();
    let b = after.borders[n as int];
    lemma_start_keyed(g, st, x, y, is_hole);
    lemma_push_all(g, st, b, after.labels, after.last, x, y);
    assert(after =~= Scan { labels: after.labels, last: after.last, borders: st.borders.push(b) });
}

/// A new border, and the labels that tell of it, are in order.
proof fn lemma_push_all(
    g: &Gray,
    st: Scan,
    b: Border,
    labels: Seq<i32>,
    last: int,
    x: int,
    y: int,
)
    requires
        told(g, st, (x, y)),
        scan_ok(g, st),
        fg(g, x, y),
        starts(g, st.labels, x, y) == Some(b.is_hole),
        st.borders.len() + 2 <= i32::MAX,
        keyed(g, b),
        start_pixel(b) == (x, y),
        labels.len() == area(g),
        labels == labelled(
            g,
            st.labels,
            start_edge(b).x,
            start_edge(b).y,
            start_edge(b).d,
            (st.borders.len() + 2) as i32,
        ),
    ensures
        told(g, Scan { labels, last, borders: st.borders.push(b) }, (x + 1, y)),
{
    let after = Scan { labels, last, borders: st.borders.push(b) };
    let n = st.borders.len();
    lemma_keyed(g, b);
    assert forall|z: (int, int)| #[trigger]
        starts_region(g, z) && before(key_pixel(g, z), (x + 1, y)) implies met(
        after.borders,
        z,
    ) by {
        lemma_start_met(g, st, b, x, y, z);
    }
    assert forall|u: int, v: int| #[trigger] fg(g, u, v) implies pixel_told(g, after, u, v) by {
        assert(pixel_told(g, st, u, v));
        lemma_push_told(g, st, b, last, u, v);
    }
    assert forall|c: int| 0 <= c < after.borders.len() implies keyed(
        g,
        #[trigger] after.borders[c],
    ) && before(start_pixel(after.borders[c]), (x + 1, y)) by {
        if c < n {
            assert(after.borders[c] == st.borders[c]);
        }
    }
    assert forall|c: int, k: int| 0 <= c < k < after.borders.len() implies before(
        start_pixel(#[trigger] after.borders[c]),
        start_pixel(#[trigger] after.borders[k]),
    ) by {
        assert(after.borders[c] == st.borders[c]);
        if k < n {
            assert(after.borders[k] == st.borders[k]);
        }
    }
}

/// What the scan of one pixel keeps.
pub proof fn lemma_pixel_told(g: &Gray, st: Scan, x: int, y: int)
    requires
        told(g, st, (x, y)),
        scan_ok(g, st),
        1 <= x <= g.w,
        1 <= y <= g.h,
        st.borders.len() + 2 <= i32::MAX,
    ensures
        told(g, scan_pixel(g, st, x, y), (x + 1, y)),
{
    let after = scan_pixel(g, st, x, y);
    crate::image::lemma_index(g.w + 2, g.h + 2, x, y);
    assert(label_ok(g, st, place(g, x, y)));
    let start = starts(g, st.labels, x, y);
    if fg(g, x, y) && start is Some {
        lemma_scan_pixel(g, st, x, y);
        lemma_start_told(g, st, x, y, start.unwrap());
    } else {
        assert(after.labels == st.labels && after.borders == st.borders);
        assert forall|z: (int, int)| #[trigger]
            starts_region(g, z) && before(key_pixel(g, z), (x + 1, y)) implies met(
            after.borders,
            z,
        ) by {
            if !before(key_pixel(g, z), (x, y)) {
                assert(key_pixel(g, z) == (x, y));
                lemma_key(g, z);
                if fg(g, z.0, z.1) {
                    lemma_first_outer(g, st, x, y);
                } else {
                    lemma_first_hole(g, st, x, y);
                }
            }
        }
        assert forall|u: int, v: int| #[trigger] fg(g, u, v) implies pixel_told(
            g,
            after,
            u,
            v,
        ) by {
            assert(pixel_told(g, st, u, v));
        }
    }
}

/// What the scan of a row keeps.
pub proof fn lemma_row_told(g: &Gray, st: Scan, y: int, n: nat)
    requires
        traceable(g),
        scan_ok(g, st),
        edges_passed(g, st, y, 0),
        1 <= y <= g.h,
        n <= g.w,
        st.borders.len() <= (y - 1) * g.w,
        told(g, st, (1, y)),
    ensures
        told(g, scan_row(g, st, y, n), (n as int + 1, y)),
    decreases n,
{
    if n == 0 {
        let after = scan_row(g, st, y, 0);
        assert forall|u: int, v: int| #[trigger] fg(g, u, v) implies pixel_told(
            g,
            after,
            u,
            v,
        ) by {
            assert(pixel_told(g, st, u, v));
        }
    } else {
        let m = (n - 1) as nat;
        lemma_row_told(g, st, y, m);
        lemma_scan_row(g, st, y, m);
        lemma_pixel_told(g, scan_row(g, st, y, m), n as int, y);
    }
}

/// When the scan is done with a row, it has come to the next.
proof fn lemma_next_row(g: &Gray, st: Scan, y: int)
    requires
        told(g, st, (g.w + 1, y)),
    ensures
        told(g, st, (1, y + 1)),
{
    assert forall|z: (int, int)| #[trigger]
        starts_region(g, z) && before(key_pixel(g, z), (1, y + 1)) implies met(st.borders, z) by {
        lemma_key(g, z);
        assert(before(key_pixel(g, z), (g.w + 1, y)));
    }
}

/// What holds after some rows.
pub proof fn lemma_rows_told(g: &Gray, n: nat)
    requires
        traceable(g),
        n <= g.h,
    ensures
        told(g, scan_rows(g, n), (1, n as int + 1)),
    decreases n,
{
    if n == 0 {
        let st = scan_rows(g, 0);
        assert forall|z: (int, int)| #[trigger]
            starts_region(g, z) && before(key_pixel(g, z), (1, 1)) implies met(st.borders, z) by {
            lemma_key(g, z);
        }
        assert forall|x: int, y: int| #[trigger] fg(g, x, y) implies pixel_told(g, st, x, y) by {
            lemma_place(g, x, y);
        }
    } else {
        let m = (n - 1) as nat;
        lemma_rows_told(g, m);
        lemma_scan_rows(g, m);
        lemma_row_told(g, scan_rows(g, m), n as int, g.w as nat);
        lemma_next_row(g, scan_rows(g, n), n as int);
    }
}

/// Whether a border passes a pixel.
pub open spec fn passes_pixel(b: Border, x: int, y: int) -> bool {
    exists|i: int| 0 <= i < b.pts.len() && #[trigger] b.pts[i] == (x - 1, y - 1)
}

/// A border passes the pixels of its edges.
pub proof fn lemma_passes_edges(g: &Gray, b: Border, e: Edge)
    requires
        keyed(g, b),
        is_edge(g, e),
        same_border(g, start_edge(b), e),
    ensures
        passes_pixel(b, e.x, e.y),
{
    lemma_keyed(g, b);
    let f = start_edge(b);
    lemma_border_start(g, f.x, f.y, f.d);
    lemma_border_start(g, e.x, e.y, e.d);
    match border_start(g, f.x, f.y, f.d) {
        None => {
            assert(b.pts[0] == (e.x - 1, e.y - 1));
        },
        Some(s) => {
            let t = border_start(g, e.x, e.y, e.d).unwrap();
            let n = choose|n: nat| #[trigger] walk(g, s, n) == t;
            let i = lemma_first_round(g, s, n);
            assert(b.pts[i as int] == (e.x - 1, e.y - 1));
        },
    }
}

/// No edge is missed: every foreground pixel that shares a side with the
/// background lies on a contour.
pub proof fn law_edges_on_contours(g: &Gray, e: Edge) -> (b: int)
    requires
        traceable(g),
        is_edge(g, e),
    ensures
        0 <= b < borders_of(g).len(),
        passes_pixel(borders_of(g)[b], e.x, e.y),
{
    lemma_rows_told(g, g.h as nat);
    let borders = borders_of(g);
    let z = law_border_encloses(g, e);
    lemma_key(g, z);
    assert(starts_region(g, z) && before(key_pixel(g, z), (1, g.h + 1)));
    let b = choose|b: int| 0 <= b < borders.len() && region_start(#[trigger] borders[b]) == z;
    lemma_keyed(g, borders[b]);
    lemma_same_border(g, e, start_edge(borders[b]), e);
    lemma_passes_edges(g, borders[b], e);
    b
}

/// Every pixel of a contour has an edge: it shares a side with the background.
pub proof fn law_contours_on_edges(g: &Gray, b: int, i: int) -> (e: Edge)
    requires
        traceable(g),
        0 <= b < borders_of(g).len(),
        0 <= i < borders_of(g)[b].pts.len(),
    ensures
        is_edge(g, e),
        (e.x - 1, e.y - 1) == borders_of(g)[b].pts[i],
{
    lemma_rows_told(g, g.h as nat);
    let c = borders_of(g)[b];
    lemma_keyed(g, c);
    let f = start_edge(c);
    match border_start(g, f.x, f.y, f.d) {
        None => f,
        Some(s) => lemma_along(g, f, s, i as nat),
    }
}

/// Every region of the foreground has an outer contour, which starts in it.
pub proof fn law_region_has_contour(g: &Gray, p: (int, int)) -> (b: int)
    requires
        traceable(g),
        fg(g, p.0, p.1),
    ensures
        0 <= b < borders_of(g).len(),
        !borders_of(g)[b].is_hole,
        connected(g, p, region_start(borders_of(g)[b])),
{
    lemma_rows_told(g, g.h as nat);
    let borders = borders_of(g);
    let z = lemma_first(g, p);
    lemma_key(g, z);
    assert(starts_region(g, z) && before(key_pixel(g, z), (1, g.h + 1)));
    let b = choose|b: int| 0 <= b < borders.len() && region_start(#[trigger] borders[b]) == z;
    assert(keyed(g, borders[b]));
    b
}

/// Every hole has a contour, and the hole starts to the right of where the
/// contour does.
pub proof fn law_hole_has_contour(g: &Gray, p: (int, int)) -> (b: int)
    requires
        traceable(g),
        in_hole(g, p),
    ensures
        0 <= b < borders_of(g).len(),
        borders_of(g)[b].is_hole,
        connected(g, p, region_start(borders_of(g)[b])),
{
    lemma_rows_told(g, g.h as nat);
    let borders = borders_of(g);
    let z = lemma_first(g, p);
    lemma_key(g, z);
    assert(starts_region(g, z) && before(key_pixel(g, z), (1, g.h + 1)));
    let b = choose|b: int| 0 <= b < borders.len() && region_start(#[trigger] borders[b]) == z;
    assert(keyed(g, borders[b]));
    b
}

/// An outer contour is that of a region of the foreground, and the contour of a
/// hole is that of a hole. No region has two contours.
pub proof fn law_contour_of_one_region(g: &Gray, b: int, c: int)
    requires
        traceable(g),
        0 <= b < borders_of(g).len(),
        0 <= c < borders_of(g).len(),
    ensures
        ({
            let (s, t) = (region_start(borders_of(g)[b]), region_start(borders_of(g)[c]));
            &&& borders_of(g)[b].is_hole ==> in_hole(g, s)
            &&& !borders_of(g)[b].is_hole ==> fg(g, s.0, s.1)
            &&& connected(g, s, t) ==> b == c
        }),
{
    lemma_rows_told(g, g.h as nat);
    let borders = borders_of(g);
    let (s, t) = (region_start(borders[b]), region_start(borders[c]));
    assert(keyed(g, borders[b]) && keyed(g, borders[c]));
    if connected(g, s, t) {
        lemma_connected_symmetric(g, s, t);
        assert(s == t);
        lemma_connected_inside(g, start_edge(borders[b]), s, t);
        assert(start_pixel(borders[b]) == start_pixel(borders[c]));
        if b < c {
            assert(before(start_pixel(borders[b]), start_pixel(borders[c])));
        } else if c < b {
            assert(before(start_pixel(borders[c]), start_pixel(borders[b])));
        }
    }
}

/// The region of a pixel.
pub open spec fn region(g: &Gray, p: (int, int)) -> Set<(int, int)> {
    Set::new(|q: (int, int)| connected(g, p, q))
}

/// The regions of the foreground.
pub open spec fn light_regions(g: &Gray) -> Set<Set<(int, int)>> {
    Set::new(
        |r: Set<(int, int)>|
            exists|p: (int, int)| #[trigger] region(g, p) == r && fg(g, p.0, p.1),
    )
}

/// The holes.
pub open spec fn holes(g: &Gray) -> Set<Set<(int, int)>> {
    Set::new(
        |r: Set<(int, int)>| exists|p: (int, int)| #[trigger] region(g, p) == r && in_hole(g, p),
    )
}

/// Which contours are those of holes, or are not.
pub open spec fn contours_of_kind(g: &Gray, is_hole: bool) -> Seq<usize> {
    listed(|i: int| borders_of(g)[i].is_hole == is_hole, borders_of(g).len())
}

/// Connected pixels have the same region.
proof fn lemma_same_region(g: &Gray, p: (int, int), q: (int, int))
    requires
        connected(g, p, q),
    ensures
        region(g, p) == region(g, q),
{
    lemma_connected_symmetric(g, p, q);
    assert forall|r: (int, int)| connected(g, p, r) <==> connected(g, q, r) by {
        if connected(g, p, r) {
            lemma_connected_transitive(g, q, p, r);
        }
        if connected(g, q, r) {
            lemma_connected_transitive(g, p, q, r);
        }
    }
    assert(region(g, p) =~= region(g, q));
}

/// The regions of the contours of a kind.
spec fn regions_of_kind(g: &Gray, is_hole: bool) -> Seq<Set<(int, int)>> {
    let l = contours_of_kind(g, is_hole);
    Seq::new(l.len(), |k: int| region(g, region_start(borders_of(g)[l[k] as int])))
}

/// The contours of a kind are listed each once.
proof fn lemma_kind(g: &Gray, is_hole: bool)
    requires
        traceable(g),
    ensures
        borders_of(g).len() <= usize::MAX,
        forall|k: int|
            0 <= k < contours_of_kind(g, is_hole).len() ==> {
                let b = #[trigger] contours_of_kind(g, is_hole)[k];
                b < borders_of(g).len() && borders_of(g)[b as int].is_hole == is_hole
            },
        forall|j: int, k: int|
            0 <= j < k < contours_of_kind(g, is_hole).len() ==> (#[trigger] contours_of_kind(
                g,
                is_hole,
            )[j]) < (#[trigger] contours_of_kind(g, is_hole)[k]),
        forall|b: int|
            0 <= b < borders_of(g).len() && (#[trigger] borders_of(g)[b]).is_hole == is_hole
                ==> contours_of_kind(g, is_hole).contains(b as usize),
{
    lemma_scan_rows(g, g.h as nat);
    assert(g.h * g.w <= area(g)) by (nonlinear_arith)
        requires
            area(g) == (g.w + 2) * (g.h + 2),
    ;
    let p = |i: int| borders_of(g)[i].is_hole == is_hole;
    lemma_listed(p, borders_of(g).len());
    assert forall|b: int|
        0 <= b < borders_of(g).len() && (#[trigger] borders_of(g)[b]).is_hole == is_hole implies
        contours_of_kind(g, is_hole).contains(b as usize) by {
        assert(p(b));
    }
    assert forall|k: int| 0 <= k < contours_of_kind(g, is_hole).len() implies ({
        let b = #[trigger] contours_of_kind(g, is_hole)[k];
        b < borders_of(g).len() && borders_of(g)[b as int].is_hole == is_hole
    }) by {
        assert(p(contours_of_kind(g, is_hole)[k] as int));
    }
}

/// The regions of the contours of a kind differ.
proof fn lemma_regions_differ(g: &Gray, is_hole: bool)
    requires
        traceable(g),
    ensures
        regions_of_kind(g, is_hole).no_duplicates(),
{
    let l = contours_of_kind(g, is_hole);
    let r = regions_of_kind(g, is_hole);
    lemma_kind(g, is_hole);
    assert forall|j: int, k: int| 0 <= j < r.len() && 0 <= k < r.len() && j != k implies r[j]
        != r[k] by {
        let (b, c) = (l[j] as int, l[k] as int);
        let (s, t) = (region_start(borders_of(g)[b]), region_start(borders_of(g)[c]));
        if r[j] == r[k] {
            lemma_touching(g, t, t);
            assert(region(g, t).contains(t));
            assert(region(g, s).contains(t));
            law_contour_of_one_region(g, b, c);
        }
    }
}

/// There are as many outer contours as regions of the foreground.
pub proof fn law_outer_contours_count(g: &Gray)
    requires
        traceable(g),
    ensures
        light_regions(g).finite(),
        contours_of_kind(g, false).len() == light_regions(g).len(),
{
    let l = contours_of_kind(g, false);
    let r = regions_of_kind(g, false);
    lemma_kind(g, false);
    lemma_regions_differ(g, false);
    assert forall|t: Set<(int, int)>| r.to_set().contains(t) <==> light_regions(g).contains(t) by {
        if r.to_set().contains(t) {
            let k = choose|k: int| 0 <= k < r.len() && r[k] == t;
            law_contour_of_one_region(g, l[k] as int, l[k] as int);
            assert(region(g, region_start(borders_of(g)[l[k] as int])) == t);
        }
        if light_regions(g).contains(t) {
            let p = choose|p: (int, int)| #[trigger] region(g, p) == t && fg(g, p.0, p.1);
            let b = law_region_has_contour(g, p);
            let k = l.index_of(b as usize);
            assert(l.contains(b as usize));
            assert(l[k] == b as usize);
            lemma_same_region(g, p, region_start(borders_of(g)[b]));
            assert(r[k] == t);
        }
    }
    assert(r.to_set() =~= light_regions(g));
    r.unique_seq_to_set();
}

/// There are as many contours of holes as holes.
pub proof fn law_hole_contours_count(g: &Gray)
    requires
        traceable(g),
    ensures
        holes(g).finite(),
        contours_of_kind(g, true).len() == holes(g).len(),
{
    let l = contours_of_kind(g, true);
    let r = regions_of_kind(g, true);
    lemma_kind(g, true);
    lemma_regions_differ(g, true);
    assert forall|t: Set<(int, int)>| r.to_set().contains(t) <==> holes(g).contains(t) by {
        if r.to_set().contains(t) {
            let k = choose|k: int| 0 <= k < r.len() && r[k] == t;
            law_contour_of_one_region(g, l[k] as int, l[k] as int);
            assert(region(g, region_start(borders_of(g)[l[k] as int])) == t);
        }
        if holes(g).contains(t) {
            let p = choose|p: (int, int)| #[trigger] region(g, p) == t && in_hole(g, p);
            let b = law_hole_has_contour(g, p);
            let k = l.index_of(b as usize);
            assert(l.contains(b as usize));
            assert(l[k] == b as usize);
            lemma_same_region(g, p, region_start(borders_of(g)[b]));
            assert(r[k] == t);
        }
    }
    assert(r.to_set() =~= holes(g));
    r.unique_seq_to_set();
}

} // verus!
