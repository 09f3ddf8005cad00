//! Contours of a binary image with their nesting, by border following in
//! raster order, 8-connected. Pixels outside the image are background. A pixel
//! is listed once per visit, so that spurs can be listed twice.
use crate::border::{
    dx, dy, fg, fg_at, leaves_east, lemma_round_trip, lemma_step_valid, lemma_walk_bound,
    lemma_walk_valid, returns_after, round_trip, step, turns, turns_from, valid, walk, Spot,
};
use crate::codec::listed;
use crate::image::{lemma_index, Gray};
use vstd::prelude::*;

verus! {

/// A contour.
#[derive(Debug)]
pub struct Contour {
    /// The pixels, as column and row.
    pub pts: Vec<(i32, i32)>,
    /// Whether the contour runs around a hole.
    pub is_hole: bool,
    /// The index of the contour around this one, or -1.
    pub parent: i32,
    /// The indices of the contours right inside this one.
    pub children: Vec<usize>,
}

/// A border as contracts speak of it.
pub struct Border {
    pub pts: Seq<(int, int)>,
    pub is_hole: bool,
    pub parent: int,
}

/// The state of the raster scan: the labels of the framed image, the border
/// that was met last, and the borders found.
///
/// A label is 0 in the background, 1 in the foreground as long as no border
/// has passed, and otherwise, but for the sign, the number of a border that
/// has, counted from 2. It is negative where the border leaves the background
/// to the east.
pub struct Scan {
    pub labels: Seq<i32>,
    pub last: int,
    pub borders: Seq<Border>,
}

/// The width of the framed image.
pub open spec fn framed_w(g: &Gray) -> int {
    g.w + 2
}

/// The number of pixels of the framed image.
pub open spec fn area(g: &Gray) -> int {
    (g.w + 2) * (g.h + 2)
}

/// Where a pixel of the framed image stands.
pub open spec fn place(g: &Gray, x: int, y: int) -> int {
    y * framed_w(g) + x
}

/// The labels before the scan.
pub open spec fn fresh_labels(g: &Gray) -> Seq<i32> {
    Seq::new(
        area(g) as nat,
        |q: int|
            if fg(g, q % framed_w(g), q / framed_w(g)) {
                1i32
            } else {
                0i32
            },
    )
}

/// How many directions, clockwise from direction `d` on, lead to the
/// background, when `k` are known to.
pub open spec fn turns_back(g: &Gray, x: int, y: int, d: int, k: int) -> int
    decreases 8 - k,
{
    if k >= 8 || fg_at(g, x, y, (d + 8 - k) % 8) {
        k
    } else {
        turns_back(g, x, y, d, k + 1)
    }
}

/// Where a border starts that is entered at a pixel from direction `d`; a
/// pixel without foreground neighbors has none.
pub open spec fn border_start(g: &Gray, x: int, y: int, d: int) -> Option<Spot> {
    let k = turns_back(g, x, y, d, 0);
    if k < 8 {
        Some(Spot { x, y, d: (d + 8 - k) % 8 })
    } else {
        None
    }
}

/// The pixels of the first `n` steps of a walk.
pub open spec fn trail(g: &Gray, s: Spot, n: nat) -> Seq<(int, int)> {
    Seq::new(n, |i: int| (walk(g, s, i as nat).x - 1, walk(g, s, i as nat).y - 1))
}

/// The pixels of the border that is entered at a pixel from direction `d`.
pub open spec fn outline(g: &Gray, x: int, y: int, d: int) -> Seq<(int, int)> {
    match border_start(g, x, y, d) {
        None => seq![(x - 1, y - 1)],
        Some(s) => trail(g, s, round_trip(g, s)),
    }
}

/// Whether a walk passes a pixel within `n` steps.
pub open spec fn passes(g: &Gray, s: Spot, n: nat, q: int) -> bool {
    exists|i: nat| i < n && place(g, (#[trigger] walk(g, s, i)).x, walk(g, s, i).y) == q
}

/// Whether it does so leaving the background to the east.
pub open spec fn passes_east(g: &Gray, s: Spot, n: nat, q: int) -> bool {
    exists|i: nat|
        i < n && place(g, (#[trigger] walk(g, s, i)).x, walk(g, s, i).y) == q && leaves_east(
            g,
            walk(g, s, i),
        )
}

/// The labels after `n` steps of a walk along border number `number`.
pub open spec fn marked(g: &Gray, labels: Seq<i32>, s: Spot, number: i32, n: nat) -> Seq<i32> {
    Seq::new(
        labels.len(),
        |q: int|
            if passes_east(g, s, n, q) {
                (-number) as i32
            } else if labels[q] == 1 && passes(g, s, n, q) {
                number
            } else {
                labels[q]
            },
    )
}

/// The labels after the border that is entered at a pixel from direction `d`.
pub open spec fn labelled(
    g: &Gray,
    labels: Seq<i32>,
    x: int,
    y: int,
    d: int,
    number: i32,
) -> Seq<i32> {
    match border_start(g, x, y, d) {
        None => labels.update(place(g, x, y), (-number) as i32),
        Some(s) => marked(g, labels, s, number, round_trip(g, s)),
    }
}

/// The parent of a new border, from the border that was met last: that border
/// where one is a hole and the other is not, and its parent otherwise. The
/// number 1 stands for the frame.
pub open spec fn parent_of(borders: Seq<Border>, last: int, is_hole: bool) -> int {
    if last < 2 {
        -1
    } else if is_hole != borders[last - 2].is_hole {
        last - 2
    } else {
        borders[last - 2].parent
    }
}

/// Whether a new border starts at a pixel, and whether it is that of a hole:
/// the border of a hole where the pixel is not the first of an outer border.
pub open spec fn starts(g: &Gray, labels: Seq<i32>, x: int, y: int) -> Option<bool> {
    let l = labels[place(g, x, y)];
    if l == 1 && !fg(g, x - 1, y) {
        Some(false)
    } else if l >= 1 && !fg(g, x + 1, y) {
        Some(true)
    } else {
        None
    }
}

/// The scan of one pixel.
pub open spec fn scan_pixel(g: &Gray, st: Scan, x: int, y: int) -> Scan {
    let q = place(g, x, y);
    if st.labels[q] == 0 {
        st
    } else {
        let (labels, last, borders) = match starts(g, st.labels, x, y) {
            Some(is_hole) => {
                let d: int = if is_hole {
                    0
                } else {
                    4
                };
                let last = if is_hole && st.labels[q] > 1 {
                    st.labels[q] as int
                } else {
                    st.last
                };
                (
                    labelled(g, st.labels, x, y, d, (st.borders.len() + 2) as i32),
                    last,
                    st.borders.push(
                        Border {
                            pts: outline(g, x, y, d),
                            is_hole,
                            parent: parent_of(st.borders, last, is_hole),
                        },
                    ),
                )
            },
            None => (st.labels, st.last, st.borders),
        };
        Scan {
            labels,
            last: if labels[q] == 1 {
                last
            } else if labels[q] < 0 {
                -labels[q]
            } else {
                labels[q] as int
            },
            borders,
        }
    }
}

/// The scan of the first `n` pixels of a row.
pub open spec fn scan_row(g: &Gray, st: Scan, y: int, n: nat) -> Scan
    decreases n,
{
    if n == 0 {
        Scan { labels: st.labels, last: 1, borders: st.borders }
    } else {
        scan_pixel(g, scan_row(g, st, y, (n - 1) as nat), n as int, y)
    }
}

/// The scan of the first `n` rows.
pub open spec fn scan_rows(g: &Gray, n: nat) -> Scan
    decreases n,
{
    if n == 0 {
        Scan { labels: fresh_labels(g), last: 1, borders: seq![] }
    } else {
        scan_row(g, scan_rows(g, (n - 1) as nat), n as int, g.w as nat)
    }
}

/// The borders of an image.
pub open spec fn borders_of(g: &Gray) -> Seq<Border> {
    scan_rows(g, g.h as nat).borders
}

/// The pixels of a contour as numbers.
pub open spec fn points(pts: Seq<(i32, i32)>) -> Seq<(int, int)> {
    Seq::new(pts.len(), |i: int| (pts[i].0 as int, pts[i].1 as int))
}

/// Whether two pixels are neighbors.
pub open spec fn adjacent(p: (int, int), q: (int, int)) -> bool {
    -1 <= p.0 - q.0 <= 1 && -1 <= p.1 - q.1 <= 1 && p != q
}

/// Whether pixels form a closed chain of neighbors in the foreground, or there
/// is only one.
pub open spec fn is_outline(g: &Gray, pts: Seq<(int, int)>) -> bool {
    &&& pts.len() >= 1
    &&& forall|i: int| 0 <= i < pts.len() ==> fg(g, (#[trigger] pts[i]).0 + 1, pts[i].1 + 1)
    &&& forall|i: int| 0 <= i < pts.len() - 1 ==> adjacent(#[trigger] pts[i], pts[i + 1])
    &&& pts.len() > 1 ==> adjacent(pts[pts.len() - 1], pts[0])
}

/// Whether a border is well placed in the nesting: its parent comes before it,
/// and one of the two is that of a hole.
pub open spec fn well_nested(borders: Seq<Border>, b: int) -> bool {
    let p = borders[b].parent;
    -1 <= p < b && (p >= 0 ==> borders[p].is_hole != borders[b].is_hole)
}

/// Whether a border passes a place of the framed image.
pub open spec fn on_border(g: &Gray, border: Border, q: int) -> bool {
    exists|i: int|
        0 <= i < border.pts.len() && place(
            g,
            (#[trigger] border.pts[i]).0 + 1,
            border.pts[i].1 + 1,
        ) == q
}

/// Whether a label fits its pixel.
pub open spec fn label_ok(g: &Gray, st: Scan, q: int) -> bool {
    let l = st.labels[q];
    &&& l != 0 <==> fg(g, q % framed_w(g), q / framed_w(g))
    &&& l != -1
    &&& -(st.borders.len() + 1) <= l <= st.borders.len() + 1
    &&& l >= 2 ==> on_border(g, st.borders[l - 2], q)
    &&& l <= -2 ==> on_border(g, st.borders[-l - 2], q)
}

/// What holds in the course of the scan.
pub open spec fn scan_ok(g: &Gray, st: Scan) -> bool {
    &&& st.labels.len() == area(g)
    &&& 1 <= st.last <= st.borders.len() + 1
    &&& forall|q: int| 0 <= q < area(g) ==> #[trigger] label_ok(g, st, q)
    &&& forall|b: int| 0 <= b < st.borders.len() ==> #[trigger] well_nested(st.borders, b)
    &&& forall|b: int|
        0 <= b < st.borders.len() ==> is_outline(g, (#[trigger] st.borders[b]).pts)
}

/// Whether borders start at a pixel or end at it: its neighbor to the left or
/// to the right is background.
pub open spec fn on_edge(g: &Gray, x: int, y: int) -> bool {
    fg(g, x, y) && (!fg(g, x - 1, y) || !fg(g, x + 1, y))
}

/// Whether a border has passed a pixel.
pub open spec fn passed(g: &Gray, st: Scan, x: int, y: int) -> bool {
    let l = st.labels[place(g, x, y)];
    l >= 2 || l <= -2
}

/// Foreground pixels lie inside the frame.
pub proof fn lemma_place(g: &Gray, x: int, y: int)
    requires
        fg(g, x, y),
    ensures
        0 <= place(g, x, y) < area(g),
        place(g, x, y) % framed_w(g) == x,
        place(g, x, y) / framed_w(g) == y,
        0 <= place(g, x - 1, y) < area(g),
        0 <= place(g, x + 1, y) < area(g),
{
    lemma_index(framed_w(g), g.h + 2, x, y);
}

/// What the backward search finds.
pub proof fn lemma_turns_back(g: &Gray, x: int, y: int, d: int, k: int)
    requires
        0 <= k <= 8,
        0 <= d < 8,
        forall|j: int| 0 <= j < k ==> !#[trigger] fg_at(g, x, y, (d + 8 - j) % 8),
    ensures
        k <= turns_back(g, x, y, d, k) <= 8,
        forall|j: int|
            0 <= j < turns_back(g, x, y, d, k) ==> !#[trigger] fg_at(g, x, y, (d + 8 - j) % 8),
        turns_back(g, x, y, d, k) < 8 ==> fg_at(
            g,
            x,
            y,
            (d + 8 - turns_back(g, x, y, d, k)) % 8,
        ),
    decreases 8 - k,
{
    if k < 8 && !fg_at(g, x, y, (d + 8 - k) % 8) {
        lemma_turns_back(g, x, y, d, k + 1);
    }
}

/// A border starts at a valid place.
pub proof fn lemma_border_start(g: &Gray, x: int, y: int, d: int)
    requires
        fg(g, x, y),
        0 <= d < 8,
    ensures
        border_start(g, x, y, d) matches Some(s) ==> valid(g, s) && s.x == x && s.y == y,
{
    lemma_turns_back(g, x, y, d, 0);
}

/// The pixels of a border form a closed chain.
pub proof fn lemma_outline(g: &Gray, x: int, y: int, d: int)
    requires
        fg(g, x, y),
        0 <= d < 8,
    ensures
        is_outline(g, outline(g, x, y, d)),
        outline(g, x, y, d)[0] == (x - 1, y - 1),
{
    let pts = outline(g, x, y, d);
    lemma_border_start(g, x, y, d);
    if let Some(s) = border_start(g, x, y, d) {
        crate::border::law_walk_returns(g, s);
        let n = round_trip(g, s);
        assert(walk(g, s, 0) == s);
        assert forall|i: int| 0 <= i < pts.len() implies fg(
            g,
            (#[trigger] pts[i]).0 + 1,
            pts[i].1 + 1,
        ) by {
            lemma_walk_valid(g, s, i as nat);
        }
        assert forall|i: int| 0 <= i < pts.len() - 1 implies adjacent(
            #[trigger] pts[i],
            pts[i + 1],
        ) by {
            assert(walk(g, s, (i + 1) as nat) == step(g, walk(g, s, i as nat)));
        }
        let last = (n - 1) as nat;
        assert(walk(g, s, n) == step(g, walk(g, s, last)));
        assert(pts[last as int] == (walk(g, s, last).x - 1, walk(g, s, last).y - 1));
    }
}

/// Labelling along a border keeps the labels in order.
proof fn lemma_labelled(g: &Gray, st: Scan, x: int, y: int, d: int, border: Border)
    requires
        scan_ok(g, st),
        fg(g, x, y),
        0 <= d < 8,
        border.pts == outline(g, x, y, d),
        st.borders.len() + 2 <= i32::MAX,
    ensures
        ({
            let number = (st.borders.len() + 2) as i32;
            let after = Scan {
                labels: labelled(g, st.labels, x, y, d, number),
                last: st.last,
                borders: st.borders.push(border),
            };
            &&& after.labels.len() == area(g)
            &&& forall|q: int| 0 <= q < area(g) ==> #[trigger] label_ok(g, after, q)
            &&& forall|q: int|
                0 <= q < area(g) && (st.labels[q] >= 2 || st.labels[q] <= -2)
                    ==> #[trigger] after.labels[q] >= 2 || after.labels[q] <= -2
            &&& st.labels[place(g, x, y)] == 1 ==> passed(g, after, x, y)
        }),
{
    let number = (st.borders.len() + 2) as i32;
    let labels = labelled(g, st.labels, x, y, d, number);
    let after = Scan { labels, last: st.last, borders: st.borders.push(border) };
    let q0 = place(g, x, y);
    lemma_place(g, x, y);
    lemma_border_start(g, x, y, d);
    lemma_outline(g, x, y, d);
    assert forall|q: int| 0 <= q < area(g) implies #[trigger] label_ok(g, after, q) by {
        assert(label_ok(g, st, q));
        let l = st.labels[q];
        if labels[q] == l {
            if l >= 2 {
                assert(after.borders[l - 2] == st.borders[l - 2]);
            }
            if l <= -2 {
                assert(after.borders[-l - 2] == st.borders[-l - 2]);
            }
        } else {
            assert(after.borders[number - 2] == border);
            match border_start(g, x, y, d) {
                None => {
                    assert(border.pts[0] == (x - 1, y - 1));
                    assert(on_border(g, border, q));
                },
                Some(s) => {
                    let n = round_trip(g, s);
                    let i = if passes_east(g, s, n, q) {
                        choose|i: nat|
                            i < n && place(g, (#[trigger] walk(g, s, i)).x, walk(g, s, i).y) == q
                                && leaves_east(g, walk(g, s, i))
                    } else {
                        choose|i: nat|
                            i < n && place(g, (#[trigger] walk(g, s, i)).x, walk(g, s, i).y) == q
                    };
                    lemma_walk_valid(g, s, i);
                    lemma_place(g, walk(g, s, i).x, walk(g, s, i).y);
                    assert(border.pts[i as int] == (walk(g, s, i).x - 1, walk(g, s, i).y - 1));
                    assert(on_border(g, border, q));
                },
            }
        }
    }
    assert forall|q: int|
        0 <= q < area(g) && (st.labels[q] >= 2 || st.labels[q] <= -2) implies #[trigger] labels[q]
        >= 2 || labels[q] <= -2 by {
        assert(label_ok(g, st, q));
    }
    if st.labels[q0] == 1 {
        if let Some(s) = border_start(g, x, y, d) {
            crate::border::law_walk_returns(g, s);
            assert(walk(g, s, 0) == s);
            assert(passes(g, s, round_trip(g, s), q0));
        }
    }
}

/// What the scan of one pixel keeps and brings about.
pub proof fn lemma_scan_pixel(g: &Gray, st: Scan, x: int, y: int)
    requires
        scan_ok(g, st),
        1 <= x <= g.w,
        1 <= y <= g.h,
        st.borders.len() + 2 <= i32::MAX,
    ensures
        scan_ok(g, scan_pixel(g, st, x, y)),
        st.borders.len() <= scan_pixel(g, st, x, y).borders.len() <= st.borders.len() + 1,
        on_edge(g, x, y) ==> passed(g, scan_pixel(g, st, x, y), x, y),
        forall|q: int|
            0 <= q < area(g) && (st.labels[q] >= 2 || st.labels[q] <= -2) ==> {
                let l = #[trigger] scan_pixel(g, st, x, y).labels[q];
                l >= 2 || l <= -2
            },
{
    let q = place(g, x, y);
    let after = scan_pixel(g, st, x, y);
    lemma_index(framed_w(g), g.h + 2, x, y);
    assert(label_ok(g, st, q));
    if st.labels[q] != 0 {
        lemma_place(g, x, y);
        match starts(g, st.labels, x, y) {
            Some(is_hole) => {
                let d: int = if is_hole {
                    0
                } else {
                    4
                };
                let border = after.borders[st.borders.len() as int];
                lemma_labelled(g, st, x, y, d, border);
                lemma_outline(g, x, y, d);
                let mid = Scan {
                    labels: after.labels,
                    last: st.last,
                    borders: after.borders,
                };
                assert(label_ok(g, mid, q));
                assert forall|p: int| 0 <= p < area(g) implies #[trigger] label_ok(
                    g,
                    after,
                    p,
                ) by {
                    assert(label_ok(g, mid, p));
                }
                assert forall|b: int| 0 <= b < after.borders.len() implies #[trigger] well_nested(
                    after.borders,
                    b,
                ) by {
                    if b < st.borders.len() {
                        assert(well_nested(st.borders, b));
                        let p = st.borders[b].parent;
                        assert(p >= 0 ==> after.borders[p] == st.borders[p]);
                    } else {
                        let last = if is_hole && st.labels[q] > 1 {
                            st.labels[q] as int
                        } else {
                            st.last
                        };
                        if last >= 2 {
                            assert(well_nested(st.borders, last - 2));
                        }
                    }
                }
                assert forall|b: int| 0 <= b < after.borders.len() implies is_outline(
                    g,
                    (#[trigger] after.borders[b]).pts,
                ) by {
                    if b < st.borders.len() {
                        assert(after.borders[b] == st.borders[b]);
                    }
                }
            },
            None => {
                assert forall|p: int| 0 <= p < area(g) implies #[trigger] label_ok(
                    g,
                    after,
                    p,
                ) by {
                    assert(label_ok(g, st, p));
                }
            },
        }
    }
}

/// The neighbor of a pixel in a direction.
fn neighbor(x: usize, y: usize, d: usize) -> (r: (usize, usize))
    requires
        d < 8,
        1 <= x < usize::MAX,
        1 <= y < usize::MAX,
    ensures
        r.0 == x + dx(d as int),
        r.1 == y + dy(d as int),
{
    let nx = if d == 0 || d == 1 || d == 7 {
        x + 1
    } else if d == 3 || d == 4 || d == 5 {
        x - 1
    } else {
        x
    };
    let ny = if d == 1 || d == 2 || d == 3 {
        y - 1
    } else if d == 5 || d == 6 || d == 7 {
        y + 1
    } else {
        y
    };
    (nx, ny)
}

/// Whether labels tell foreground from background.
pub open spec fn labels_ok(g: &Gray, labels: Seq<i32>) -> bool {
    &&& labels.len() == area(g)
    &&& forall|q: int|
        0 <= q < area(g) ==> (#[trigger] labels[q] != 0 <==> fg(
            g,
            q % framed_w(g),
            q / framed_w(g),
        ))
}

/// Whether the image is within the limits of labels and positions. The bound
/// on the area, in which no side counts less than two, bounds the sides.
pub open spec fn traceable(g: &Gray) -> bool {
    g.wf() && g.w <= 0x3fff_8000 && g.h <= 0x3fff_8000 && area(g) <= 0x7fff_0000
}

/// Whether the neighbor of a foreground pixel is in the foreground.
fn is_fg(g: &Gray, labels: &Vec<i32>, x: usize, y: usize, d: usize) -> (b: bool)
    requires
        traceable(g),
        labels_ok(g, labels@),
        fg(g, x as int, y as int),
        d < 8,
    ensures
        b == fg_at(g, x as int, y as int, d as int),
{
    let (nx, ny) = neighbor(x, y, d);
    proof {
        lemma_index(framed_w(g), g.h + 2, nx as int, ny as int);
    }
    labels[ny * (g.w + 2) + nx] != 0
}

/// How many neighbors are passed over on the way to the next border pixel.
fn count_turns(g: &Gray, labels: &Vec<i32>, x: usize, y: usize, d: usize) -> (k: usize)
    requires
        traceable(g),
        labels_ok(g, labels@),
        valid(g, Spot { x: x as int, y: y as int, d: d as int }),
    ensures
        k == turns(g, Spot { x: x as int, y: y as int, d: d as int }),
        k <= 7,
{
    let d1 = (d + 1) % 8;
    let mut k: usize = 0;
    while k < 8 && !is_fg(g, labels, x, y, (d1 + k) % 8)
        invariant
            traceable(g),
            labels_ok(g, labels@),
            fg(g, x as int, y as int),
            d1 < 8,
            k <= 8,
            turns_from(g, x as int, y as int, d1 as int, 0) == turns_from(
                g,
                x as int,
                y as int,
                d1 as int,
                k as int,
            ),
        decreases 8 - k,
    {
        k += 1;
    }
    proof {
        lemma_step_valid(g, Spot { x: x as int, y: y as int, d: d as int });
    }
    k
}

/// Labels of a walk tell foreground from background.
proof fn lemma_marked_ok(g: &Gray, labels: Seq<i32>, s: Spot, number: i32, n: nat)
    requires
        labels_ok(g, labels),
        valid(g, s),
        2 <= number,
    ensures
        labels_ok(g, marked(g, labels, s, number, n)),
{
    let after = marked(g, labels, s, number, n);
    assert forall|q: int| 0 <= q < area(g) implies (#[trigger] after[q] != 0 <==> fg(
        g,
        q % framed_w(g),
        q / framed_w(g),
    )) by {
        assert(labels[q] != 0 <==> fg(g, q % framed_w(g), q / framed_w(g)));
        if passes_east(g, s, n, q) {
            let i = choose|i: nat|
                i < n && place(g, (#[trigger] walk(g, s, i)).x, walk(g, s, i).y) == q
                    && leaves_east(g, walk(g, s, i));
            lemma_walk_valid(g, s, i);
            lemma_place(g, walk(g, s, i).x, walk(g, s, i).y);
        }
    }
}

/// Follows the border that starts at a place, and labels its pixels.
fn follow(g: &Gray, labels: &mut Vec<i32>, x: usize, y: usize, d: usize, number: i32) -> (pts: Vec<
    (i32, i32),
>)
    requires
        traceable(g),
        labels_ok(g, old(labels)@),
        valid(g, Spot { x: x as int, y: y as int, d: d as int }),
        2 <= number,
    ensures
        ({
            let s = Spot { x: x as int, y: y as int, d: d as int };
            &&& final(labels)@ == marked(g, old(labels)@, s, number, round_trip(g, s))
            &&& points(pts@) == trail(g, s, round_trip(g, s))
        }),
        labels_ok(g, final(labels)@),
{
    let ghost s = Spot { x: x as int, y: y as int, d: d as int };
    let ghost before = labels@;
    let mut pts: Vec<(i32, i32)> = Vec::new();
    let (mut cx, mut cy, mut cd) = (x, y, d);
    let mut done = false;
    let ghost mut n: nat = 0;
    assert(marked(g, before, s, number, 0) =~= before);
    assert(points(pts@) =~= trail(g, s, 0));
    while !done
        invariant
            traceable(g),
            labels_ok(g, before),
            s == (Spot { x: x as int, y: y as int, d: d as int }),
            valid(g, s),
            2 <= number,
            labels@ == marked(g, before, s, number, n),
            points(pts@) == trail(g, s, n),
            walk(g, s, n) == (Spot { x: cx as int, y: cy as int, d: cd as int }),
            valid(g, walk(g, s, n)),
            done ==> returns_after(g, s, n),
            !done ==> forall|m: nat| 1 <= m <= n ==> #[trigger] walk(g, s, m) != s,
        decreases
            8 * area(g) - n + (if done {
                0int
            } else {
                1
            }),
    {
        let ghost cur = walk(g, s, n);
        proof {
            lemma_walk_bound(g, s, n);
            lemma_step_valid(g, cur);
            lemma_place(g, cur.x, cur.y);
            lemma_marked_ok(g, before, s, number, n);
            lemma_marked_step(g, before, s, number, n);
        }
        let k = count_turns(g, labels, cx, cy, cd);
        let ghost listed_before = pts@;
        pts.push(((cx - 1) as i32, (cy - 1) as i32));
        proof {
            assert(points(pts@) =~= points(listed_before).push((cur.x - 1, cur.y - 1)));
            assert(points(pts@) =~= trail(g, s, n + 1));
        }
        let here = cy * (g.w + 2) + cx;
        if 7 - cd < k {
            labels.set(here, -number);
        } else if labels[here] == 1 {
            labels.set(here, number);
        }
        let e = (cd + 1 + k) % 8;
        let (nx, ny) = neighbor(cx, cy, e);
        cx = nx;
        cy = ny;
        cd = (e + 4) % 8;
        done = cx == x && cy == y && cd == d;
        proof {
            assert(walk(g, s, (n + 1) as nat) == step(g, cur));
            n = n + 1;
        }
    }
    proof {
        lemma_round_trip(g, s, n);
        lemma_marked_ok(g, before, s, number, n);
    }
    pts
}

/// The labels after one more step of a walk.
proof fn lemma_marked_step(g: &Gray, labels: Seq<i32>, s: Spot, number: i32, n: nat)
    requires
        labels.len() == area(g),
        valid(g, s),
        2 <= number,
    ensures
        ({
            let here = place(g, walk(g, s, n).x, walk(g, s, n).y);
            let held = marked(g, labels, s, number, n);
            marked(g, labels, s, number, n + 1) == if leaves_east(g, walk(g, s, n)) {
                held.update(here, (-number) as i32)
            } else if held[here] == 1 {
                held.update(here, number)
            } else {
                held
            }
        }),
{
    let cur = walk(g, s, n);
    let here = place(g, cur.x, cur.y);
    let held = marked(g, labels, s, number, n);
    let after = marked(g, labels, s, number, n + 1);
    lemma_walk_valid(g, s, n);
    lemma_place(g, cur.x, cur.y);
    let claimed = if leaves_east(g, cur) {
        held.update(here, (-number) as i32)
    } else if held[here] == 1 {
        held.update(here, number)
    } else {
        held
    };
    assert forall|q: int| 0 <= q < area(g) implies after[q] == claimed[q] by {
        if passes(g, s, n, q) {
            let i = choose|i: nat|
                i < n && place(g, (#[trigger] walk(g, s, i)).x, walk(g, s, i).y) == q;
            assert(i < n + 1);
            assert(passes(g, s, n + 1, q));
        }
        if passes_east(g, s, n, q) {
            let i = choose|i: nat|
                i < n && place(g, (#[trigger] walk(g, s, i)).x, walk(g, s, i).y) == q
                    && leaves_east(g, walk(g, s, i));
            assert(i < n + 1);
            assert(passes_east(g, s, n + 1, q));
        }
        if q == here {
            assert(place(g, walk(g, s, n).x, walk(g, s, n).y) == q);
            assert(passes(g, s, n + 1, q));
            if leaves_east(g, cur) {
                assert(passes_east(g, s, n + 1, q));
            }
        }
        if passes(g, s, n + 1, q) {
            let i = choose|i: nat|
                i < n + 1 && place(g, (#[trigger] walk(g, s, i)).x, walk(g, s, i).y) == q;
            if i < n {
                assert(passes(g, s, n, q));
            } else {
                assert(q == here);
            }
        }
        if passes_east(g, s, n + 1, q) {
            let i = choose|i: nat|
                i < n + 1 && place(g, (#[trigger] walk(g, s, i)).x, walk(g, s, i).y) == q
                    && leaves_east(g, walk(g, s, i));
            if i < n {
                assert(passes_east(g, s, n, q));
            } else {
                assert(q == here && leaves_east(g, cur));
            }
        }
    }
    assert(after =~= claimed);
}

/// Follows the border that is entered at a pixel from direction `d`, and
/// labels its pixels.
fn trace(g: &Gray, labels: &mut Vec<i32>, x: usize, y: usize, d: usize, number: i32) -> (pts: Vec<
    (i32, i32),
>)
    requires
        traceable(g),
        labels_ok(g, old(labels)@),
        fg(g, x as int, y as int),
        d < 8,
        2 <= number,
    ensures
        final(labels)@ == labelled(g, old(labels)@, x as int, y as int, d as int, number),
        points(pts@) == outline(g, x as int, y as int, d as int),
{
    let mut k: usize = 0;
    while k < 8 && !is_fg(g, labels, x, y, (d + 8 - k) % 8)
        invariant
            traceable(g),
            labels_ok(g, labels@),
            fg(g, x as int, y as int),
            d < 8,
            k <= 8,
            turns_back(g, x as int, y as int, d as int, 0) == turns_back(
                g,
                x as int,
                y as int,
                d as int,
                k as int,
            ),
        decreases 8 - k,
    {
        k += 1;
    }
    proof {
        lemma_place(g, x as int, y as int);
        lemma_border_start(g, x as int, y as int, d as int);
    }
    if k == 8 {
        labels.set(y * (g.w + 2) + x, -number);
        let mut pts: Vec<(i32, i32)> = Vec::new();
        pts.push(((x - 1) as i32, (y - 1) as i32));
        assert(points(pts@) =~= seq![(x - 1, y - 1)]);
        pts
    } else {
        follow(g, labels, x, y, (d + 8 - k) % 8, number)
    }
}

impl Contour {
    /// Whether this is a given border.
    pub open spec fn traces(&self, b: Border) -> bool {
        points(self.pts@) == b.pts && self.is_hole == b.is_hole && self.parent == b.parent
    }
}

/// Whether these are the given borders.
pub open spec fn trace_all(contours: Seq<Contour>, borders: Seq<Border>) -> bool {
    &&& contours.len() == borders.len()
    &&& forall|i: int| 0 <= i < borders.len() ==> (#[trigger] contours[i]).traces(borders[i])
}

/// The borders right inside border `i`, in order.
pub open spec fn children_of(borders: Seq<Border>, i: int) -> Seq<usize> {
    listed(|j: int| borders[j].parent == i, borders.len())
}

/// The labels before the scan.
fn label_image(g: &Gray) -> (labels: Vec<i32>)
    requires
        traceable(g),
    ensures
        labels@ == fresh_labels(g),
{
    let w = g.w + 2;
    let h = g.h + 2;
    let n = w * h;
    let mut labels: Vec<i32> = Vec::new();
    let mut q: usize = 0;
    while q < n
        invariant
            traceable(g),
            w == framed_w(g),
            h == g.h + 2,
            n == area(g),
            q <= n,
            labels@ == fresh_labels(g).take(q as int),
        decreases n - q,
    {
        let x = q % w;
        let y = q / w;
        proof {
            let (qq, ww) = (q as int, w as int);
            vstd::arithmetic::div_mod::lemma_fundamental_div_mod(qq, ww);
            assert(0 <= x < w && 0 <= y < h) by (nonlinear_arith)
                requires
                    q == w * y + x,
                    x == q % w,
                    0 <= q < w * h,
                    w >= 1,
            ;
            if 1 <= x <= g.w && 1 <= y <= g.h {
                lemma_index(g.w as int, g.h as int, x - 1, y - 1);
            }
        }
        let l: i32 = if 1 <= x && x <= g.w && 1 <= y && y <= g.h && g.at(x - 1, y - 1) != 0 {
            1
        } else {
            0
        };
        labels.push(l);
        q += 1;
        assert(labels@ =~= fresh_labels(g).take(q as int));
    }
    assert(labels@ =~= fresh_labels(g));
    labels
}

/// The scan before its first pixel.
proof fn lemma_scan_start(g: &Gray)
    ensures
        scan_ok(g, scan_rows(g, 0)),
{
    let st = scan_rows(g, 0);
    lemma_index(framed_w(g), g.h + 2, 0, 0);
    assert forall|q: int| 0 <= q < area(g) implies #[trigger] label_ok(g, st, q) by {}
}

/// Labels in order tell foreground from background.
proof fn lemma_labels_ok(g: &Gray, st: Scan)
    requires
        scan_ok(g, st),
    ensures
        labels_ok(g, st.labels),
{
    assert forall|q: int| 0 <= q < area(g) implies (#[trigger] st.labels[q] != 0 <==> fg(
        g,
        q % framed_w(g),
        q / framed_w(g),
    )) by {
        assert(label_ok(g, st, q));
    }
}

/// Scans one pixel: follows a border that starts there, if any, and keeps
/// track of the border that was met last.
fn visit(
    g: &Gray,
    labels: &mut Vec<i32>,
    contours: &mut Vec<Contour>,
    last: i32,
    x: usize,
    y: usize,
    Ghost(st): Ghost<Scan>,
) -> (r: i32)
    requires
        traceable(g),
        scan_ok(g, st),
        old(labels)@ == st.labels,
        last == st.last,
        trace_all(old(contours)@, st.borders),
        forall|i: int|
            0 <= i < old(contours)@.len() ==> (#[trigger] old(contours)@[i]).children@.len() == 0,
        1 <= x <= g.w,
        1 <= y <= g.h,
        st.borders.len() + 2 <= i32::MAX,
    ensures
        ({
            let after = scan_pixel(g, st, x as int, y as int);
            &&& final(labels)@ == after.labels
            &&& r == after.last
            &&& trace_all(final(contours)@, after.borders)
        }),
        forall|i: int|
            0 <= i < final(contours)@.len() ==> (#[trigger] final(contours)@[i]).children@.len()
                == 0,
{
    let ghost after = scan_pixel(g, st, x as int, y as int);
    proof {
        lemma_index(framed_w(g), g.h + 2, x as int, y as int);
    }
    let here = y * (g.w + 2) + x;
    proof {
        lemma_scan_pixel(g, st, x as int, y as int);
        lemma_labels_ok(g, st);
        assert(label_ok(g, st, here as int));
        assert(label_ok(g, after, here as int));
    }
    let l = labels[here];
    if l == 0 {
        return last;
    }
    proof {
        lemma_place(g, x as int, y as int);
        assert(fg_at(g, x as int, y as int, 4) == fg(g, x - 1, y as int));
        assert(fg_at(g, x as int, y as int, 0) == fg(g, x + 1, y as int));
    }
    let outer = l == 1 && !is_fg(g, labels, x, y, 4);
    let hole = l >= 1 && !is_fg(g, labels, x, y, 0);
    let mut met: i32 = last;
    if outer || hole {
        let is_hole = !outer;
        if is_hole && l > 1 {
            met = l;
        }
        let parent: i32 = if met < 2 {
            -1
        } else {
            let b = (met - 2) as usize;
            assert(well_nested(st.borders, b as int));
            if is_hole != contours[b].is_hole {
                met - 2
            } else {
                contours[b].parent
            }
        };
        let d: usize = if is_hole {
            0
        } else {
            4
        };
        let number = contours.len() as i32 + 2;
        let pts = trace(g, labels, x, y, d, number);
        let ghost had = contours@;
        contours.push(Contour { pts, is_hole, parent, children: Vec::new() });
        assert forall|i: int| 0 <= i < after.borders.len() implies (
        #[trigger] contours@[i]).traces(after.borders[i]) by {
            if i < had.len() {
                assert(contours@[i] == had[i]);
                assert(had[i].traces(st.borders[i]));
            }
        }
    }
    let l = labels[here];
    if l == 1 {
        met
    } else if l < 0 {
        -l
    } else {
        l
    }
}

/// Whether all the edges among the first pixels of the raster have been
/// passed by a border: all of the rows before `y`, and `n` pixels of row `y`.
pub open spec fn edges_passed(g: &Gray, st: Scan, y: int, n: int) -> bool {
    forall|i: int, j: int|
        on_edge(g, i, j) && (j < y || (j == y && i <= n)) ==> #[trigger] passed(g, st, i, j)
}

/// What holds after the first pixels of a row, if it holds before the row.
pub proof fn lemma_scan_row(g: &Gray, st: Scan, y: int, n: nat)
    requires
        traceable(g),
        scan_ok(g, st),
        edges_passed(g, st, y, 0),
        1 <= y <= g.h,
        n <= g.w,
        st.borders.len() <= (y - 1) * g.w,
    ensures
        scan_ok(g, scan_row(g, st, y, n)),
        edges_passed(g, scan_row(g, st, y, n), y, n as int),
        scan_row(g, st, y, n).borders.len() <= (y - 1) * g.w + n,
        scan_row(g, st, y, n).borders.len() + 2 <= i32::MAX,
    decreases n,
{
    assert((y - 1) * g.w + g.w <= (g.w + 2) * (g.h + 2)) by (nonlinear_arith)
        requires
            1 <= y <= g.h,
    ;
    if n == 0 {
        let after = scan_row(g, st, y, 0);
        assert forall|q: int| 0 <= q < area(g) implies #[trigger] label_ok(g, after, q) by {
            assert(label_ok(g, st, q));
        }
        assert forall|i: int, j: int|
            on_edge(g, i, j) && (j < y || (j == y && i <= 0)) implies #[trigger] passed(
            g,
            after,
            i,
            j,
        ) by {
            assert(passed(g, st, i, j));
        }
    } else {
        let m = (n - 1) as nat;
        lemma_scan_row(g, st, y, m);
        let before = scan_row(g, st, y, m);
        let after = scan_row(g, st, y, n);
        lemma_scan_pixel(g, before, n as int, y);
        assert forall|i: int, j: int|
            on_edge(g, i, j) && (j < y || (j == y && i <= n)) implies #[trigger] passed(
            g,
            after,
            i,
            j,
        ) by {
            if j < y || i <= m {
                assert(passed(g, before, i, j));
                lemma_place(g, i, j);
            }
        }
    }
}

/// What holds after the first rows.
pub proof fn lemma_scan_rows(g: &Gray, n: nat)
    requires
        traceable(g),
        n <= g.h,
    ensures
        scan_ok(g, scan_rows(g, n)),
        edges_passed(g, scan_rows(g, n), (n + 1) as int, 0),
        scan_rows(g, n).borders.len() <= n * g.w,
    decreases n,
{
    if n == 0 {
        lemma_scan_start(g);
        assert(0 * g.w == 0) by (nonlinear_arith);
    } else {
        let m = (n - 1) as nat;
        lemma_scan_rows(g, m);
        lemma_scan_row(g, scan_rows(g, m), n as int, g.w as nat);
        assert((n - 1) * g.w + g.w == n * g.w) by (nonlinear_arith);
        assert forall|i: int, j: int|
            on_edge(g, i, j) && (j < n + 1 || (j == n + 1 && i <= 0)) implies #[trigger] passed(
            g,
            scan_rows(g, n),
            i,
            j,
        ) by {
            assert(passed(g, scan_row(g, scan_rows(g, m), n as int, g.w as nat), i, j));
        }
    }
}

/// The contours of a binary image, in the order in which the raster meets
/// them, with their nesting.
pub fn find_contours(binary: &Gray) -> (r: Vec<Contour>)
    requires
        traceable(binary),
    ensures
        trace_all(r@, borders_of(binary)),
        r@.len() == borders_of(binary).len(),
        forall|i: int|
            0 <= i < r@.len() ==> {
                let (c, b) = (#[trigger] r@[i], borders_of(binary)[i]);
                &&& c.is_hole == b.is_hole
                &&& c.parent == b.parent
                &&& c.pts@.len() == b.pts.len()
                &&& forall|k: int|
                    0 <= k < b.pts.len() ==> (#[trigger] c.pts@[k]).0 == b.pts[k].0 && c.pts@[k].1
                        == b.pts[k].1
            },
        forall|i: int|
            0 <= i < r@.len() ==> (#[trigger] r@[i]).children@ == children_of(
                borders_of(binary),
                i,
            ),
{
    let g = binary;
    let mut labels = label_image(g);
    let mut contours: Vec<Contour> = Vec::new();
    let mut y: usize = 1;
    proof {
        lemma_scan_start(g);
    }
    while y <= g.h
        invariant
            traceable(g),
            1 <= y <= g.h + 1,
            labels@ == scan_rows(g, (y - 1) as nat).labels,
            trace_all(contours@, scan_rows(g, (y - 1) as nat).borders),
            forall|i: int|
                0 <= i < contours@.len() ==> (#[trigger] contours@[i]).children@.len() == 0,
        decreases g.h + 1 - y,
    {
        let ghost st = scan_rows(g, (y - 1) as nat);
        let mut last: i32 = 1;
        let mut x: usize = 1;
        proof {
            lemma_scan_rows(g, (y - 1) as nat);
        }
        while x <= g.w
            invariant
                traceable(g),
                1 <= y <= g.h,
                1 <= x <= g.w + 1,
                scan_ok(g, st),
                edges_passed(g, st, y as int, 0),
                st.borders.len() <= (y - 1) * g.w,
                labels@ == scan_row(g, st, y as int, (x - 1) as nat).labels,
                last == scan_row(g, st, y as int, (x - 1) as nat).last,
                trace_all(contours@, scan_row(g, st, y as int, (x - 1) as nat).borders),
                forall|i: int|
                    0 <= i < contours@.len() ==> (#[trigger] contours@[i]).children@.len() == 0,
            decreases g.w + 1 - x,
        {
            proof {
                lemma_scan_row(g, st, y as int, (x - 1) as nat);
            }
            last = visit(
                g,
                &mut labels,
                &mut contours,
                last,
                x,
                y,
                Ghost(scan_row(g, st, y as int, (x - 1) as nat)),
            );
            x += 1;
        }
        y += 1;
    }
    let ghost borders = borders_of(g);
    let n = contours.len();
    let mut i: usize = 0;
    proof {
        lemma_scan_rows(g, g.h as nat);
        assert forall|c: int| 0 <= c < n implies (#[trigger] contours@[c]).children@ == listed(
            |j: int| borders[j].parent == c,
            0,
        ) by {
            assert(contours@[c].children@ =~= seq![]);
        }
    }
    while i < n
        invariant
            n == contours@.len(),
            i <= n,
            trace_all(contours@, borders),
            forall|b: int| 0 <= b < borders.len() ==> #[trigger] well_nested(borders, b),
            forall|c: int|
                0 <= c < n ==> (#[trigger] contours@[c]).children@ == listed(
                    |j: int| borders[j].parent == c,
                    i as nat,
                ),
        decreases n - i,
    {
        let p = contours[i].parent;
        assert(contours@[i as int].traces(borders[i as int]));
        assert(well_nested(borders, i as int));
        let ghost had = contours@;
        if p >= 0 {
            contours[p as usize].children.push(i);
        }
        proof {
            assert forall|c: int| 0 <= c < n implies (#[trigger] contours@[c]).children@ == listed(
                |j: int| borders[j].parent == c,
                (i + 1) as nat,
            ) by {
                assert(had[c].children@ == listed(|j: int| borders[j].parent == c, i as nat));
            }
            assert forall|c: int| 0 <= c < borders.len() implies (#[trigger] contours@[c]).traces(
                borders[c],
            ) by {
                assert(had[c].traces(borders[c]));
            }
        }
        i += 1;
    }
    proof {
        assert forall|i: int| 0 <= i < contours@.len() implies ({
            let (c, b) = (#[trigger] contours@[i], borders[i]);
            &&& c.is_hole == b.is_hole
            &&& c.parent == b.parent
            &&& c.pts@.len() == b.pts.len()
            &&& forall|k: int|
                0 <= k < b.pts.len() ==> (#[trigger] c.pts@[k]).0 == b.pts[k].0 && c.pts@[k].1
                    == b.pts[k].1
        }) by {
            let (c, b) = (contours@[i], borders[i]);
            assert(c.traces(b));
            assert forall|k: int| 0 <= k < b.pts.len() implies (#[trigger] c.pts@[k]).0
                == b.pts[k].0 && c.pts@[k].1 == b.pts[k].1 by {
                assert(points(c.pts@)[k] == b.pts[k]);
            }
        }
    }
    contours
}

/// The cross product of two points.
pub open spec fn cross(p: (int, int), q: (int, int)) -> int {
    p.0 * q.1 - q.0 * p.1
}

/// The sum of the cross products of the first `n` points with the points
/// before them, cyclically.
pub open spec fn cross_sum(pts: Seq<(int, int)>, n: nat) -> int
    decreases n,
{
    if n == 0 {
        0
    } else {
        cross_sum(pts, (n - 1) as nat) + cross(
            pts[if n == 1 {
                pts.len() - 1
            } else {
                n - 2
            }],
            pts[n - 1],
        )
    }
}

/// Twice the area that a closed chain of points encloses.
pub open spec fn double_area(pts: Seq<(int, int)>) -> int {
    let a = cross_sum(pts, pts.len());
    if pts.len() < 3 {
        0
    } else if a < 0 {
        -a
    } else {
        a
    }
}

/// Whether an ellipse can be fitted to a contour in a way that tells something:
/// it has six points and encloses 25 pixels.
pub fn worth_fitting(c: &Contour) -> (b: bool)
    ensures
        b == (c.pts@.len() >= 6 && double_area(points(c.pts@)) >= 50),
{
    c.pts.len() >= 6 && contour_area(&c.pts) >= 50
}

/// Twice the area that a contour encloses, by Green's formula.
pub fn contour_area(pts: &[(i32, i32)]) -> (a: u128)
    ensures
        a == double_area(points(pts@)),
{
    let n = pts.len();
    if n < 3 {
        return 0;
    }
    let mut a: i128 = 0;
    let mut prev = pts[n - 1];
    let mut i: usize = 0;
    while i < n
        invariant
            n == pts@.len(),
            3 <= n <= 0xffff_ffff_ffff_ffff,
            i <= n,
            prev == pts@[if i == 0 {
                n - 1
            } else {
                i - 1
            }],
            a == cross_sum(points(pts@), i as nat),
            -(0x8000_0000_0000_0000 * i) <= a <= 0x8000_0000_0000_0000 * i,
        decreases n - i,
    {
        let p = pts[i];
        proof {
            let (u, v, x, y) = (prev.0 as int, prev.1 as int, p.0 as int, p.1 as int);
            assert(-0x4000_0000_0000_0000 <= u * y <= 0x4000_0000_0000_0000 && -0x4000_0000_0000_0000
                <= x * v <= 0x4000_0000_0000_0000) by (nonlinear_arith)
                requires
                    -0x8000_0000 <= u <= 0x7fff_ffff,
                    -0x8000_0000 <= v <= 0x7fff_ffff,
                    -0x8000_0000 <= x <= 0x7fff_ffff,
                    -0x8000_0000 <= y <= 0x7fff_ffff,
            ;
        }
        a = a + ((prev.0 as i128) * (p.1 as i128) - (p.0 as i128) * (prev.1 as i128));
        prev = p;
        i += 1;
    }
    if a < 0 {
        (-a) as u128
    } else {
        a as u128
    }
}

} // verus!
