//! What the contours of an image guarantee.
use crate::border::fg;
use crate::codec::{lemma_listed, listed};
use crate::contour_regions::law_region_has_contour;
use crate::contours::{
    area, borders_of, children_of, cross, cross_sum, double_area, edges_passed, framed_w,
    fresh_labels, is_outline, label_ok, lemma_scan_pixel, lemma_scan_row, lemma_scan_rows, place,
    scan_ok, scan_pixel, scan_row, scan_rows, starts, traceable, well_nested, Border, Scan,
};
use crate::image::Gray;
use vstd::prelude::*;

verus! {

/// Every contour is a closed chain of neighboring foreground pixels.
pub proof fn law_contours_closed(g: &Gray, b: int)
    requires
        traceable(g),
        0 <= b < borders_of(g).len(),
    ensures
        is_outline(g, borders_of(g)[b].pts),
{
    lemma_scan_rows(g, g.h as nat);
}

/// The contours form a tree: a parent comes before its children, and of the
/// two one runs around a hole and the other does not.
pub proof fn law_contours_nested(g: &Gray, b: int)
    requires
        traceable(g),
        0 <= b < borders_of(g).len(),
    ensures
        well_nested(borders_of(g), b),
{
    lemma_scan_rows(g, g.h as nat);
}

/// A contour is listed among the children of its parent, and of no other, and
/// the children are listed in order.
pub proof fn law_children_of_parents(g: &Gray, b: int, c: int)
    requires
        traceable(g),
        0 <= b < borders_of(g).len(),
    ensures
        children_of(borders_of(g), c).contains(b as usize) <==> borders_of(g)[b].parent == c,
        forall|t: int, u: int|
            0 <= t < u < children_of(borders_of(g), c).len() ==> (#[trigger] children_of(
                borders_of(g),
                c,
            )[t]) < (#[trigger] children_of(borders_of(g), c)[u]),
{
    lemma_scan_rows(g, g.h as nat);
    let borders = borders_of(g);
    let p = |j: int| borders[j].parent == c;
    assert(g.h * g.w <= area(g)) by (nonlinear_arith)
        requires
            area(g) == (g.w + 2) * (g.h + 2),
    ;
    assert(listed(p, borders.len()) == children_of(borders, c));
    lemma_listed(p, borders.len());
    let l = children_of(borders, c);
    if l.contains(b as usize) {
        let t = choose|t: int| 0 <= t < l.len() && l[t] == b as usize;
        assert(p(l[t] as int));
    }
    if borders[b].parent == c {
        assert(p(b));
    }
}

/// Whether the borders of holes have parents.
pub open spec fn holes_have_parents(borders: Seq<Border>) -> bool {
    forall|b: int|
        0 <= b < borders.len() && (#[trigger] borders[b]).is_hole ==> borders[b].parent >= 0
}

/// What the scan of one pixel keeps: the borders of holes have parents, and on
/// the foreground a border has been met.
proof fn lemma_pixel_parents(g: &Gray, st: Scan, x: int, y: int)
    requires
        scan_ok(g, st),
        1 <= x <= g.w,
        1 <= y <= g.h,
        st.borders.len() + 2 <= i32::MAX,
        holes_have_parents(st.borders),
        fg(g, x - 1, y) ==> st.last >= 2,
    ensures
        holes_have_parents(scan_pixel(g, st, x, y).borders),
        fg(g, x, y) ==> scan_pixel(g, st, x, y).last >= 2,
{
    let q = place(g, x, y);
    let after = scan_pixel(g, st, x, y);
    lemma_scan_pixel(g, st, x, y);
    crate::image::lemma_index(framed_w(g), g.h + 2, x, y);
    assert(label_ok(g, st, q));
    assert(label_ok(g, after, q));
    if st.labels[q] != 0 {
        let n = st.borders.len() as int;
        if let Some(is_hole) = starts(g, st.labels, x, y) {
            let last = if is_hole && st.labels[q] > 1 {
                st.labels[q] as int
            } else {
                st.last
            };
            if is_hole {
                assert(last >= 2);
                assert(after.borders[n].parent >= 0);
            }
            assert forall|b: int|
                0 <= b < after.borders.len() && (#[trigger] after.borders[b]).is_hole implies
                after.borders[b].parent >= 0 by {
                if b < n {
                    assert(after.borders[b] == st.borders[b]);
                }
            }
        }
    }
}

/// What the scan of a row keeps.
proof fn lemma_row_parents(g: &Gray, st: Scan, y: int, n: nat)
    requires
        traceable(g),
        scan_ok(g, st),
        edges_passed(g, st, y, 0),
        1 <= y <= g.h,
        n <= g.w,
        st.borders.len() <= (y - 1) * g.w,
        holes_have_parents(st.borders),
    ensures
        holes_have_parents(scan_row(g, st, y, n).borders),
        fg(g, n as int, y) ==> scan_row(g, st, y, n).last >= 2,
    decreases n,
{
    if n > 0 {
        let m = (n - 1) as nat;
        lemma_row_parents(g, st, y, m);
        lemma_scan_row(g, st, y, m);
        lemma_pixel_parents(g, scan_row(g, st, y, m), n as int, y);
    }
}

/// What the scan of rows keeps.
proof fn lemma_rows_parents(g: &Gray, n: nat)
    requires
        traceable(g),
        n <= g.h,
    ensures
        holes_have_parents(scan_rows(g, n).borders),
    decreases n,
{
    if n > 0 {
        let m = (n - 1) as nat;
        lemma_rows_parents(g, m);
        lemma_scan_rows(g, m);
        lemma_row_parents(g, scan_rows(g, m), n as int, g.w as nat);
    }
}

/// The contour of a hole has a parent: a hole is in some foreground.
pub proof fn law_hole_has_parent(g: &Gray, b: int)
    requires
        traceable(g),
        0 <= b < borders_of(g).len(),
    ensures
        borders_of(g)[b].is_hole ==> borders_of(g)[b].parent >= 0,
{
    lemma_rows_parents(g, g.h as nat);
}

/// An image has contours if and only if it has a foreground.
pub proof fn law_blank_has_no_contours(g: &Gray)
    requires
        traceable(g),
    ensures
        borders_of(g).len() == 0 <==> forall|x: int, y: int| !#[trigger] fg(g, x, y),
{
    if exists|x: int, y: int| #[trigger] fg(g, x, y) {
        let (x, y) = choose|x: int, y: int| #[trigger] fg(g, x, y);
        let b = law_region_has_contour(g, (x, y));
    } else {
        lemma_blank_rows(g, g.h as nat);
    }
}

/// Nothing starts in a blank row.
proof fn lemma_blank_row(g: &Gray, st: Scan, y: int, n: nat)
    requires
        forall|x: int, y: int| !#[trigger] fg(g, x, y),
        st.labels == fresh_labels(g),
        st.borders.len() == 0,
        1 <= y <= g.h,
        n <= g.w,
    ensures
        scan_row(g, st, y, n).labels == fresh_labels(g),
        scan_row(g, st, y, n).borders.len() == 0,
    decreases n,
{
    if n > 0 {
        lemma_blank_row(g, st, y, (n - 1) as nat);
        crate::image::lemma_index(framed_w(g), g.h + 2, n as int, y);
    }
}

/// Nothing starts in a blank image.
proof fn lemma_blank_rows(g: &Gray, n: nat)
    requires
        forall|x: int, y: int| !#[trigger] fg(g, x, y),
        n <= g.h,
    ensures
        scan_rows(g, n).labels == fresh_labels(g),
        scan_rows(g, n).borders.len() == 0,
    decreases n,
{
    if n > 0 {
        lemma_blank_rows(g, (n - 1) as nat);
        lemma_blank_row(g, scan_rows(g, (n - 1) as nat), n as int, g.w as nat);
    }
}

/// Points moved by some columns and rows.
pub open spec fn moved(pts: Seq<(int, int)>, d: (int, int)) -> Seq<(int, int)> {
    Seq::new(pts.len(), |i: int| (pts[i].0 + d.0, pts[i].1 + d.1))
}

/// Points with columns and rows exchanged.
pub open spec fn turned_over(pts: Seq<(int, int)>) -> Seq<(int, int)> {
    Seq::new(pts.len(), |i: int| (pts[i].1, pts[i].0))
}

/// The cross products of points that are moved.
proof fn lemma_cross_moved(pts: Seq<(int, int)>, d: (int, int), n: nat)
    requires
        1 <= n <= pts.len(),
    ensures
        ({
            let (last, p) = (pts[pts.len() - 1], pts[n - 1]);
            cross_sum(moved(pts, d), n) == cross_sum(pts, n) + d.1 * (last.0 - p.0) + d.0 * (p.1
                - last.1)
        }),
    decreases n,
{
    let last = pts[pts.len() - 1];
    let q = pts[n - 1];
    let p = if n == 1 {
        last
    } else {
        pts[n - 2]
    };
    let (u, v) = ((p.0 + d.0, p.1 + d.1), (q.0 + d.0, q.1 + d.1));
    assert(u.0 * v.1 - v.0 * u.1 == p.0 * q.1 - q.0 * p.1 + d.1 * (p.0 - q.0) + d.0 * (q.1 - p.1))
        by (nonlinear_arith)
        requires
            u == (p.0 + d.0, p.1 + d.1),
            v == (q.0 + d.0, q.1 + d.1),
    ;
    if n == 1 {
        assert(cross_sum(pts, 0) == 0 && cross_sum(moved(pts, d), 0) == 0);
    } else {
        lemma_cross_moved(pts, d, (n - 1) as nat);
        assert(d.1 * (last.0 - p.0) + d.1 * (p.0 - q.0) == d.1 * (last.0 - q.0) && d.0 * (p.1
            - last.1) + d.0 * (q.1 - p.1) == d.0 * (q.1 - last.1)) by (nonlinear_arith);
    }
}

/// The area inside a chain of points does not depend on where the chain is.
pub proof fn law_area_moved(pts: Seq<(int, int)>, d: (int, int))
    ensures
        double_area(moved(pts, d)) == double_area(pts),
{
    if pts.len() >= 1 {
        lemma_cross_moved(pts, d, pts.len());
        let last = pts[pts.len() - 1];
        assert(d.1 * (last.0 - last.0) == 0 && d.0 * (last.1 - last.1) == 0) by (nonlinear_arith);
    }
}

/// The cross products of points that are turned over.
proof fn lemma_cross_turned(pts: Seq<(int, int)>, n: nat)
    requires
        n <= pts.len(),
    ensures
        cross_sum(turned_over(pts), n) == -cross_sum(pts, n),
    decreases n,
{
    if n > 0 {
        lemma_cross_turned(pts, (n - 1) as nat);
        let q = pts[n - 1];
        let p = if n == 1 {
            pts[pts.len() - 1]
        } else {
            pts[n - 2]
        };
        assert(p.1 * q.0 - q.1 * p.0 == -(p.0 * q.1 - q.0 * p.1)) by (nonlinear_arith);
    }
}

/// The area is the same with columns and rows exchanged.
pub proof fn law_area_turned_over(pts: Seq<(int, int)>)
    ensures
        double_area(turned_over(pts)) == double_area(pts),
{
    lemma_cross_turned(pts, pts.len());
}

/// The area inside a triangle with a horizontal side is half the product of
/// the side and the height, wherever it is and however it leans.
pub proof fn law_area_of_triangle(x: int, y: int, side: int, lean: int, height: int)
    requires
        side >= 0,
        height >= 0,
    ensures
        double_area(seq![(x, y), (x + side, y), (x + lean, y + height)]) == side * height,
{
    let pts = seq![(0int, 0int), (side, 0int), (lean, height)];
    let at = seq![(x, y), (x + side, y), (x + lean, y + height)];
    assert(moved(pts, (x, y)) =~= at);
    law_area_moved(pts, (x, y));
    reveal_with_fuel(cross_sum, 4);
    assert(cross_sum(pts, 3) == cross(pts[2], pts[0]) + cross(pts[0], pts[1]) + cross(
        pts[1],
        pts[2],
    ));
    assert(lean * 0 - 0 * height == 0 && 0 * 0 - side * 0 == 0 && side * height - lean * 0 == side
        * height && side * height >= 0) by (nonlinear_arith)
        requires
            side >= 0,
            height >= 0,
    ;
}

/// A chain that goes around two chains with a common side encloses the sum of
/// their directed areas: cutting a corner off takes off a triangle.
pub proof fn law_area_cut(pts: Seq<(int, int)>)
    requires
        pts.len() >= 3,
    ensures
        ({
            let n = pts.len();
            let (a, b, c) = (pts[n - 2], pts[n - 1], pts[0]);
            cross_sum(pts, n) == cross_sum(pts.drop_last(), (n - 1) as nat) + cross_sum(
                seq![a, b, c],
                3,
            )
        }),
{
    let n = pts.len();
    let (a, b, c) = (pts[n - 2], pts[n - 1], pts[0]);
    let less = pts.drop_last();
    lemma_cross_prefix(pts, (n - 1) as nat);
    reveal_with_fuel(cross_sum, 4);
    let three = seq![a, b, c];
    assert(cross_sum(three, 3) == cross(c, a) + cross(a, b) + cross(b, c));
    assert(cross(c, a) == -cross(a, c));
    assert(cross_sum(pts, n) == cross_sum(pts, (n - 1) as nat) + cross(a, b));
}

/// The first cross products of a chain and of the chain without its last point.
proof fn lemma_cross_prefix(pts: Seq<(int, int)>, m: nat)
    requires
        pts.len() >= 3,
        1 <= m <= pts.len() - 1,
    ensures
        cross_sum(pts, m) - cross(pts[pts.len() - 1], pts[0]) == cross_sum(pts.drop_last(), m)
            - cross(pts[pts.len() - 2], pts[0]),
    decreases m,
{
    let less = pts.drop_last();
    if m == 1 {
        assert(cross_sum(pts, 0) == 0 && cross_sum(less, 0) == 0);
    } else {
        lemma_cross_prefix(pts, (m - 1) as nat);
        assert(less[m - 2] == pts[m - 2] && less[m - 1] == pts[m - 1]);
    }
}

/// The points of contours are pixels of the image that are not black.
pub proof fn law_points_are_light(g: &Gray, b: int, i: int)
    requires
        traceable(g),
        0 <= b < borders_of(g).len(),
        0 <= i < borders_of(g)[b].pts.len(),
    ensures
        ({
            let (x, y) = borders_of(g)[b].pts[i];
            0 <= x < g.w && 0 <= y < g.h && g.pixel(x, y) > 0
        }),
{
    law_contours_closed(g, b);
    let p = borders_of(g)[b].pts[i];
    assert(fg(g, p.0 + 1, p.1 + 1));
}

/// Every pixel that is not black, however dark, belongs to a region with an
/// outer contour.
pub proof fn law_light_pixels_have_contours(g: &Gray, x: int, y: int) -> (b: int)
    requires
        traceable(g),
        0 <= x < g.w,
        0 <= y < g.h,
        g.pixel(x, y) > 0,
    ensures
        0 <= b < borders_of(g).len(),
        !borders_of(g)[b].is_hole,
        crate::regions::connected(
            g,
            (x + 1, y + 1),
            (borders_of(g)[b].pts[0].0 + 1, borders_of(g)[b].pts[0].1 + 1),
        ),
{
    law_region_has_contour(g, (x + 1, y + 1))
}

} // verus!
