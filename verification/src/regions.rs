//! The regions of an image: the connected parts of its foreground and of its
//! background, and the borders between them.
//!
//! Foreground pixels are connected to all eight neighbors, background pixels to
//! four. A border separates what is inside from what is outside: crossing it
//! changes sides, and nothing else does.
use crate::border::{dx, dy, fg, fg_at, step, walk, Spot};
use crate::contours::{border_start, lemma_border_start};
use crate::edges::{is_edge, lemma_next_edge, lemma_same_border, next_edge, same_border, Edge};
use crate::image::Gray;
use vstd::prelude::*;

verus! {

/// Whether the border of an edge runs between a pixel and the one to its left.
pub open spec fn crosses(g: &Gray, e: Edge, x: int, y: int) -> bool {
    if fg(g, x - 1, y) && !fg(g, x, y) {
        same_border(g, e, Edge { x: x - 1, y, d: 0 })
    } else if !fg(g, x - 1, y) && fg(g, x, y) {
        same_border(g, e, Edge { x, y, d: 4 })
    } else {
        false
    }
}

/// Whether the border of an edge runs between a pixel and the one above.
pub open spec fn crosses_above(g: &Gray, e: Edge, x: int, y: int) -> bool {
    if fg(g, x, y - 1) && !fg(g, x, y) {
        same_border(g, e, Edge { x, y: y - 1, d: 6 })
    } else if !fg(g, x, y - 1) && fg(g, x, y) {
        same_border(g, e, Edge { x, y, d: 2 })
    } else {
        false
    }
}

/// Whether a pixel is inside a border: the border is crossed an odd number of
/// times on the way to it from the left.
pub open spec fn inside(g: &Gray, e: Edge, x: int, y: int) -> bool
    decreases x,
{
    if x <= 0 {
        false
    } else {
        inside(g, e, x - 1, y) != crosses(g, e, x, y)
    }
}

/// An edge and the one after it belong to the same borders.
proof fn lemma_next_same(g: &Gray, e: Edge, f: Edge)
    requires
        is_edge(g, e),
        is_edge(g, f),
    ensures
        is_edge(g, next_edge(g, f)),
        same_border(g, e, f) == same_border(g, e, next_edge(g, f)),
{
    let n = next_edge(g, f);
    lemma_next_edge(g, f);
    lemma_same_border(g, e, f, n);
    lemma_same_border(g, f, n, e);
    lemma_same_border(g, e, n, f);
}

/// A border that comes to a corner of pixels leaves it.
proof fn lemma_corner(g: &Gray, e: Edge, x: int, y: int)
    requires
        is_edge(g, e),
    ensures
        (crosses(g, e, x, y - 1) != crosses(g, e, x, y)) == (crosses_above(g, e, x - 1, y)
            != crosses_above(g, e, x, y)),
{
    let east = Edge { x: x - 1, y, d: 0 };
    let north = Edge { x, y, d: 2 };
    let west = Edge { x, y: y - 1, d: 4 };
    let south = Edge { x: x - 1, y: y - 1, d: 6 };
    if is_edge(g, east) {
        lemma_next_same(g, e, east);
    }
    if is_edge(g, north) {
        lemma_next_same(g, e, north);
    }
    if is_edge(g, west) {
        lemma_next_same(g, e, west);
    }
    if is_edge(g, south) {
        lemma_next_same(g, e, south);
    }
}

/// Crossing a border upward or downward changes sides, too.
proof fn lemma_above(g: &Gray, e: Edge, x: int, y: int)
    requires
        is_edge(g, e),
    ensures
        (inside(g, e, x, y - 1) != inside(g, e, x, y)) == crosses_above(g, e, x, y),
    decreases x,
{
    if x > 0 {
        lemma_above(g, e, x - 1, y);
        lemma_corner(g, e, x, y);
    }
}

/// Crossing a border changes sides, and crossing another edge does not.
pub proof fn law_border_separates(g: &Gray, e: Edge, f: Edge)
    requires
        is_edge(g, e),
        is_edge(g, f),
    ensures
        (inside(g, e, f.x, f.y) != inside(g, e, f.x + dx(f.d), f.y + dy(f.d))) == same_border(
            g,
            e,
            f,
        ),
{
    if f.d == 2 {
        lemma_above(g, e, f.x, f.y);
    } else if f.d == 6 {
        lemma_above(g, e, f.x, f.y + 1);
    }
}

/// Whether two pixels share a side.
pub open spec fn beside(x: int, y: int, u: int, v: int) -> bool {
    (y == v && (u == x + 1 || u == x - 1)) || (x == u && (v == y + 1 || v == y - 1))
}

/// Pixels of the same kind that share a side are on the same side of a border.
proof fn lemma_beside(g: &Gray, e: Edge, x: int, y: int, u: int, v: int)
    requires
        is_edge(g, e),
        beside(x, y, u, v),
        fg(g, x, y) == fg(g, u, v),
    ensures
        inside(g, e, x, y) == inside(g, e, u, v),
{
    if v == y + 1 {
        lemma_above(g, e, u, v);
    } else if v == y - 1 {
        lemma_above(g, e, x, y);
    }
}

/// Foreground pixels that meet at a corner only are on the same side of a
/// border.
proof fn lemma_corner_pixels(g: &Gray, e: Edge, x: int, y: int, u: int)
    requires
        is_edge(g, e),
        fg(g, x, y),
        fg(g, u, y + 1),
        !fg(g, x, y + 1),
        !fg(g, u, y),
        u == x + 1 || u == x - 1,
    ensures
        inside(g, e, x, y) == inside(g, e, u, y + 1),
{
    if u == x + 1 {
        let south = Edge { x, y, d: 6 };
        lemma_next_same(g, e, south);
        lemma_above(g, e, x, y + 1);
        assert(next_edge(g, south) =~= Edge { x: u, y: y + 1, d: 4 });
    } else {
        let west = Edge { x, y, d: 4 };
        lemma_next_same(g, e, west);
        lemma_above(g, e, u, y + 1);
        assert(next_edge(g, west) =~= Edge { x: u, y: y + 1, d: 2 });
    }
}

/// Neighboring foreground pixels are on the same side of a border.
proof fn lemma_around(g: &Gray, e: Edge, x: int, y: int, u: int, v: int)
    requires
        is_edge(g, e),
        fg(g, x, y),
        fg(g, u, v),
        -1 <= x - u <= 1,
        -1 <= y - v <= 1,
    ensures
        inside(g, e, x, y) == inside(g, e, u, v),
{
    if x == u && y == v {
    } else if x == u || y == v {
        lemma_beside(g, e, x, y, u, v);
    } else if fg(g, u, y) {
        lemma_beside(g, e, x, y, u, y);
        lemma_beside(g, e, u, y, u, v);
    } else if fg(g, x, v) {
        lemma_beside(g, e, x, y, x, v);
        lemma_beside(g, e, x, v, u, v);
    } else if y < v {
        lemma_corner_pixels(g, e, x, y, u);
    } else {
        lemma_corner_pixels(g, e, u, v, x);
    }
}

/// Whether pixels are the same or connected right away: foreground pixels to
/// all neighbors, background pixels to those that share a side.
pub open spec fn touching(light: bool, p: (int, int), q: (int, int)) -> bool {
    if light {
        -1 <= p.0 - q.0 <= 1 && -1 <= p.1 - q.1 <= 1
    } else {
        p == q || beside(p.0, p.1, q.0, q.1)
    }
}

/// Whether pixels of one kind form a chain.
pub open spec fn is_chain(g: &Gray, c: Seq<(int, int)>) -> bool {
    &&& c.len() >= 1
    &&& forall|i: int| 0 <= i < c.len() ==> fg(g, (#[trigger] c[i]).0, c[i].1) == fg(g, c[0].0, c[0].1)
    &&& forall|i: int|
        0 < i < c.len() ==> touching(fg(g, c[0].0, c[0].1), c[i - 1], #[trigger] c[i])
}

/// Whether a chain leads from one pixel to another.
pub open spec fn leads(g: &Gray, c: Seq<(int, int)>, p: (int, int), q: (int, int)) -> bool {
    is_chain(g, c) && c[0] == p && c.last() == q
}

/// Whether two pixels belong to the same region.
pub open spec fn connected(g: &Gray, p: (int, int), q: (int, int)) -> bool {
    exists|c: Seq<(int, int)>| #[trigger] leads(g, c, p, q)
}

/// Pixels of the same kind that touch are connected.
pub proof fn lemma_touching(g: &Gray, p: (int, int), q: (int, int))
    requires
        fg(g, p.0, p.1) == fg(g, q.0, q.1),
        touching(fg(g, p.0, p.1), p, q),
    ensures
        connected(g, p, q),
{
    let c = seq![p, q];
    assert(leads(g, c, p, q));
}

/// Connections can be followed one after the other.
pub proof fn lemma_connected_transitive(g: &Gray, p: (int, int), q: (int, int), r: (int, int))
    requires
        connected(g, p, q),
        connected(g, q, r),
    ensures
        connected(g, p, r),
{
    let a = choose|c: Seq<(int, int)>| #[trigger] leads(g, c, p, q);
    let b = choose|c: Seq<(int, int)>| #[trigger] leads(g, c, q, r);
    let c = a + b;
    assert(fg(g, a[a.len() - 1].0, a[a.len() - 1].1) == fg(g, p.0, p.1));
    assert forall|i: int| 0 <= i < c.len() implies fg(g, (#[trigger] c[i]).0, c[i].1) == fg(
        g,
        c[0].0,
        c[0].1,
    ) by {
        if i < a.len() {
            assert(c[i] == a[i]);
        } else {
            assert(c[i] == b[i - a.len()]);
        }
    }
    assert forall|i: int| 0 < i < c.len() implies touching(
        fg(g, c[0].0, c[0].1),
        c[i - 1],
        #[trigger] c[i],
    ) by {
        if i < a.len() {
            assert(c[i] == a[i]);
        } else if i == a.len() {
            assert(c[i - 1] == q && c[i] == q);
        } else {
            assert(c[i] == b[i - a.len()]);
        }
    }
    assert(leads(g, c, p, r));
}

/// Connections go both ways.
pub proof fn lemma_connected_symmetric(g: &Gray, p: (int, int), q: (int, int))
    requires
        connected(g, p, q),
    ensures
        connected(g, q, p),
{
    let a = choose|c: Seq<(int, int)>| #[trigger] leads(g, c, p, q);
    let n = a.len();
    let c = Seq::new(n, |i: int| a[n - 1 - i]);
    assert(fg(g, a[n - 1].0, a[n - 1].1) == fg(g, a[0].0, a[0].1));
    assert forall|i: int| 0 <= i < c.len() implies fg(g, (#[trigger] c[i]).0, c[i].1) == fg(
        g,
        c[0].0,
        c[0].1,
    ) by {
        assert(c[i] == a[n - 1 - i]);
    }
    assert forall|i: int| 0 < i < c.len() implies touching(
        fg(g, c[0].0, c[0].1),
        c[i - 1],
        #[trigger] c[i],
    ) by {
        assert(touching(fg(g, a[0].0, a[0].1), a[n - i - 1], a[n - i]));
    }
    assert(leads(g, c, q, p));
}

/// Connected pixels are of the same kind and on the same side of a border.
pub proof fn lemma_connected_inside(g: &Gray, e: Edge, p: (int, int), q: (int, int))
    requires
        connected(g, p, q),
    ensures
        fg(g, p.0, p.1) == fg(g, q.0, q.1),
        is_edge(g, e) ==> inside(g, e, p.0, p.1) == inside(g, e, q.0, q.1),
{
    let c = choose|c: Seq<(int, int)>| #[trigger] leads(g, c, p, q);
    assert(c[c.len() - 1] == q);
    if is_edge(g, e) {
        lemma_chain_inside(g, e, c, (c.len() - 1) as nat);
    }
}

/// A chain stays on the same side of a border.
proof fn lemma_chain_inside(g: &Gray, e: Edge, c: Seq<(int, int)>, i: nat)
    requires
        is_edge(g, e),
        is_chain(g, c),
        i < c.len(),
    ensures
        inside(g, e, c[i as int].0, c[i as int].1) == inside(g, e, c[0].0, c[0].1),
    decreases i,
{
    if i > 0 {
        lemma_chain_inside(g, e, c, (i - 1) as nat);
        let (p, q) = (c[i - 1], c[i as int]);
        assert(fg(g, p.0, p.1) == fg(g, q.0, q.1));
        if fg(g, p.0, p.1) {
            lemma_around(g, e, p.0, p.1, q.0, q.1);
        } else if p != q {
            lemma_beside(g, e, p.0, p.1, q.0, q.1);
        }
    }
}

/// The pixel behind an edge.
pub open spec fn behind(e: Edge) -> (int, int) {
    (e.x + dx(e.d), e.y + dy(e.d))
}

/// The pixels in one direction and the next share a side.
proof fn lemma_ring_step(x: int, y: int, a: int)
    requires
        0 <= a < 8,
    ensures
        beside(x + dx(a), y + dy(a), x + dx((a + 1) % 8), y + dy((a + 1) % 8)),
{
}

/// Background pixels around a pixel, one after the other, are connected.
proof fn lemma_ring_pair(g: &Gray, x: int, y: int, a: int)
    requires
        0 <= a < 8,
        !fg_at(g, x, y, a),
        !fg_at(g, x, y, (a + 1) % 8),
    ensures
        connected(
            g,
            (x + dx(a), y + dy(a)),
            (x + dx((a + 1) % 8), y + dy((a + 1) % 8)),
        ),
{
    lemma_ring_step(x, y, a);
    lemma_touching(
        g,
        (x + dx(a), y + dy(a)),
        (x + dx((a + 1) % 8), y + dy((a + 1) % 8)),
    );
}

/// Background pixels around a pixel, up to some direction, are connected.
proof fn lemma_ring(g: &Gray, x: int, y: int, d: int, k: int)
    requires
        0 <= d < 8,
        0 <= k < 8,
        forall|j: int| 0 <= j <= k ==> !#[trigger] fg_at(g, x, y, (d + j) % 8),
    ensures
        connected(
            g,
            (x + dx(d), y + dy(d)),
            (x + dx((d + k) % 8), y + dy((d + k) % 8)),
        ),
    decreases k,
{
    if k == 0 {
        assert(!fg_at(g, x, y, (d + 0) % 8));
        lemma_touching(g, (x + dx(d), y + dy(d)), (x + dx(d), y + dy(d)));
    } else {
        let (a, b) = ((d + (k - 1)) % 8, (d + k) % 8);
        assert(b == (a + 1) % 8);
        assert(!fg_at(g, x, y, (d + (k - 1)) % 8));
        assert(!fg_at(g, x, y, (d + k) % 8));
        lemma_ring(g, x, y, d, k - 1);
        lemma_ring_pair(g, x, y, a);
        lemma_connected_transitive(
            g,
            (x + dx(d), y + dy(d)),
            (x + dx(a), y + dy(a)),
            (x + dx(b), y + dy(b)),
        );
    }
}

/// Edges of the same place have connected pixels behind them.
proof fn lemma_same_place(g: &Gray, e: Edge, f: Edge)
    requires
        is_edge(g, e),
        is_edge(g, f),
        e.x == f.x,
        e.y == f.y,
        border_start(g, e.x, e.y, e.d) == border_start(g, f.x, f.y, f.d),
    ensures
        connected(g, behind(e), behind(f)),
{
    let a = crate::edges::lemma_place_of(g, e);
    let b = crate::edges::lemma_place_of(g, f);
    if a > b || (a == 8 && b == 8 && e.d > f.d) {
        lemma_ordered_place(g, f, e, b, a);
        lemma_connected_symmetric(g, behind(f), behind(e));
    } else {
        lemma_ordered_place(g, e, f, a, b);
    }
}

/// The same, where the second edge comes after the first.
proof fn lemma_ordered_place(g: &Gray, e: Edge, f: Edge, a: int, b: int)
    requires
        is_edge(g, e),
        is_edge(g, f),
        e.x == f.x,
        e.y == f.y,
        1 <= a <= b <= 8,
        a < 8 && b < 8 ==> (e.d + 8 - a) % 8 == (f.d + 8 - b) % 8,
        a == 8 || b == 8 ==> a == b && e.d <= f.d,
        forall|j: int| 0 <= j < b ==> !#[trigger] fg_at(g, f.x, f.y, (f.d + 8 - j) % 8),
    ensures
        connected(g, behind(e), behind(f)),
{
    let k = if b == 8 {
        f.d - e.d
    } else {
        b - a
    };
    assert((e.d + k) % 8 == f.d);
    assert forall|j: int| 0 <= j <= k implies !#[trigger] fg_at(g, e.x, e.y, (e.d + j) % 8) by {
        assert((e.d + j) % 8 == (f.d + 8 - (k - j)) % 8);
        assert(!fg_at(g, f.x, f.y, (f.d + 8 - (k - j)) % 8));
    }
    lemma_ring(g, e.x, e.y, e.d, k);
}

/// The pixels behind an edge and the one after it are connected.
proof fn lemma_behind_next(g: &Gray, e: Edge)
    requires
        is_edge(g, e),
    ensures
        is_edge(g, next_edge(g, e)),
        connected(g, behind(e), behind(next_edge(g, e))),
{
    lemma_next_edge(g, e);
    let f = next_edge(g, e);
    let (c, n) = ((e.d + 1) % 8, (e.d + 2) % 8);
    if fg_at(g, e.x, e.y, c) {
        assert(behind(f) == behind(e));
        lemma_touching(g, behind(e), behind(e));
    } else {
        let corner = (e.x + dx(c), e.y + dy(c));
        lemma_touching(g, behind(e), corner);
        if fg_at(g, e.x, e.y, n) {
            assert(behind(f) == corner);
        } else {
            lemma_touching(g, corner, behind(f));
            lemma_connected_transitive(g, behind(e), corner, behind(f));
        }
    }
}

/// From an edge of a place, an edge of the next place on the border.
proof fn lemma_advance(g: &Gray, e: Edge, s: Spot) -> (f: Edge)
    requires
        is_edge(g, e),
        border_start(g, e.x, e.y, e.d) == Some(s),
    ensures
        is_edge(g, f),
        border_start(g, f.x, f.y, f.d) == Some(step(g, s)),
        connected(g, behind(e), behind(f)),
    decreases 8 - crate::contours::turns_back(g, e.x, e.y, e.d, 0),
{
    let k = crate::edges::lemma_place_of(g, e);
    let n = next_edge(g, e);
    lemma_next_edge(g, e);
    lemma_behind_next(g, e);
    if fg_at(g, e.x, e.y, (e.d + 1) % 8) || fg_at(g, e.x, e.y, (e.d + 2) % 8) {
        n
    } else {
        let m = crate::edges::lemma_place_of(g, n);
        let f = lemma_advance(g, n, s);
        lemma_connected_transitive(g, behind(e), behind(n), behind(f));
        f
    }
}

/// Every place on the border of an edge has an edge, with a connected pixel
/// behind it, and its pixel is connected too.
pub proof fn lemma_along(g: &Gray, e: Edge, s: Spot, n: nat) -> (f: Edge)
    requires
        is_edge(g, e),
        border_start(g, e.x, e.y, e.d) == Some(s),
    ensures
        is_edge(g, f),
        border_start(g, f.x, f.y, f.d) == Some(walk(g, s, n)),
        f.x == walk(g, s, n).x,
        f.y == walk(g, s, n).y,
        connected(g, behind(e), behind(f)),
        connected(g, (e.x, e.y), (f.x, f.y)),
    decreases n,
{
    lemma_border_start(g, e.x, e.y, e.d);
    if n == 0 {
        lemma_touching(g, behind(e), behind(e));
        lemma_touching(g, (e.x, e.y), (e.x, e.y));
        e
    } else {
        let t = walk(g, s, (n - 1) as nat);
        let f = lemma_along(g, e, s, (n - 1) as nat);
        let h = lemma_advance(g, f, t);
        lemma_border_start(g, h.x, h.y, h.d);
        lemma_border_start(g, f.x, f.y, f.d);
        lemma_connected_transitive(g, behind(e), behind(f), behind(h));
        lemma_touching(g, (f.x, f.y), (h.x, h.y));
        lemma_connected_transitive(g, (e.x, e.y), (f.x, f.y), (h.x, h.y));
        h
    }
}

/// A border runs between one region of the foreground and one of the
/// background.
pub proof fn law_border_between_regions(g: &Gray, e: Edge, f: Edge)
    requires
        is_edge(g, e),
        is_edge(g, f),
        same_border(g, e, f),
    ensures
        connected(g, (e.x, e.y), (f.x, f.y)),
        connected(g, behind(e), behind(f)),
{
    match border_start(g, e.x, e.y, e.d) {
        None => {
            lemma_touching(g, (e.x, e.y), (f.x, f.y));
            lemma_same_place(g, e, f);
        },
        Some(s) => {
            let t = border_start(g, f.x, f.y, f.d).unwrap();
            let n = choose|n: nat| #[trigger] walk(g, s, n) == t;
            let h = lemma_along(g, e, s, n);
            lemma_border_start(g, f.x, f.y, f.d);
            lemma_same_place(g, h, f);
            lemma_connected_transitive(g, behind(e), behind(h), behind(f));
        },
    }
}

/// Between one region of the foreground and one of the background there is
/// only one border.
pub proof fn law_one_border_between(g: &Gray, e: Edge, f: Edge)
    requires
        is_edge(g, e),
        is_edge(g, f),
        connected(g, (e.x, e.y), (f.x, f.y)),
        connected(g, behind(e), behind(f)),
    ensures
        same_border(g, e, f),
{
    lemma_same_border(g, e, f, f);
    law_border_separates(g, e, e);
    law_border_separates(g, e, f);
    lemma_connected_inside(g, e, (e.x, e.y), (f.x, f.y));
    lemma_connected_inside(g, e, behind(e), behind(f));
}

/// Whether a pixel comes before another, row by row.
pub open spec fn before(p: (int, int), q: (int, int)) -> bool {
    p.1 < q.1 || (p.1 == q.1 && p.0 < q.0)
}

/// Whether a pixel is the first of its region.
pub open spec fn is_first(g: &Gray, p: (int, int)) -> bool {
    forall|q: (int, int)| #[trigger] connected(g, p, q) ==> !before(q, p)
}

/// Whether a pixel of the framed image is one of the image.
pub open spec fn in_image(g: &Gray, p: (int, int)) -> bool {
    1 <= p.0 <= g.w && 1 <= p.1 <= g.h
}

/// Whether a pixel belongs to a hole: a region of the background that does not
/// reach out of the image.
pub open spec fn in_hole(g: &Gray, p: (int, int)) -> bool {
    !fg(g, p.0, p.1) && forall|q: (int, int)| #[trigger] connected(g, p, q) ==> in_image(g, q)
}

/// Every region of the foreground and every hole has a first pixel.
pub proof fn lemma_first(g: &Gray, p: (int, int)) -> (q: (int, int))
    requires
        fg(g, p.0, p.1) || in_hole(g, p),
    ensures
        connected(g, p, q),
        is_first(g, q),
        fg(g, p.0, p.1) ==> fg(g, q.0, q.1),
        in_hole(g, p) ==> in_hole(g, q),
    decreases p.1, p.0,
{
    lemma_touching(g, p, p);
    if is_first(g, p) {
        p
    } else {
        let r = choose|r: (int, int)| #[trigger] connected(g, p, r) && before(r, p);
        let e = Edge { x: 0, y: 0, d: 0 };
        lemma_connected_inside(g, e, p, r);
        assert(in_image(g, p) && in_image(g, r));
        if in_hole(g, p) {
            assert forall|t: (int, int)| #[trigger] connected(g, r, t) implies in_image(g, t) by {
                lemma_connected_transitive(g, p, r, t);
            }
        }
        let q = lemma_first(g, r);
        lemma_connected_transitive(g, p, r, q);
        q
    }
}

/// Rows without foreground are outside of every border.
proof fn lemma_empty_row(g: &Gray, e: Edge, x: int, y: int)
    requires
        y <= 0 || y > g.h,
    ensures
        !inside(g, e, x, y),
    decreases x,
{
    if x > 0 {
        lemma_empty_row(g, e, x - 1, y);
    }
}

/// What lies out of the image is outside of every border.
proof fn lemma_out_of_image(g: &Gray, e: Edge, x: int, y: int)
    requires
        is_edge(g, e),
        !in_image(g, (x, y)),
    ensures
        !inside(g, e, x, y),
    decreases y,
{
    if y <= 0 || y > g.h {
        lemma_empty_row(g, e, x, y);
    } else if x > 0 {
        lemma_out_of_image(g, e, x, y - 1);
        lemma_above(g, e, x, y);
    }
}

/// The edge where a border runs between a pixel and the one to its left.
proof fn lemma_crossing(g: &Gray, e: Edge, x: int, y: int) -> (c: Edge)
    requires
        is_edge(g, e),
        crosses(g, e, x, y),
    ensures
        is_edge(g, c),
        same_border(g, e, c),
        connected(g, (e.x, e.y), (c.x, c.y)),
        connected(g, behind(e), behind(c)),
        (c.x, c.y) == (x, y) && behind(c) == (x - 1, y) || (c.x, c.y) == (x - 1, y) && behind(c)
            == (x, y),
{
    let c = if fg(g, x, y) {
        Edge { x, y, d: 4 }
    } else {
        Edge { x: x - 1, y, d: 0 }
    };
    law_border_between_regions(g, e, c);
    c
}

/// What lies to the left of the first pixel of a region, in its row, is outside
/// of a border of the region.
proof fn lemma_left_of_first(g: &Gray, e: Edge, z: (int, int), x: int)
    requires
        is_edge(g, e),
        is_first(g, z),
        z == (e.x, e.y) || z == behind(e),
        x < z.0,
    ensures
        !inside(g, e, x, z.1),
    decreases x,
{
    if x > 0 {
        lemma_left_of_first(g, e, z, x - 1);
        if crosses(g, e, x, z.1) {
            let c = lemma_crossing(g, e, x, z.1);
            if z == (e.x, e.y) {
                assert(connected(g, z, (c.x, c.y)));
            } else {
                assert(connected(g, z, behind(c)));
            }
        }
    }
}

/// Where two borders are inside of each other, so is everything to the left.
proof fn lemma_both_left(g: &Gray, e: Edge, f: Edge, x: int)
    requires
        is_edge(g, e),
        is_edge(g, f),
        !same_border(g, e, f),
        inside(g, e, f.x, f.y),
        inside(g, f, e.x, e.y),
        x <= f.x,
    ensures
        inside(g, e, x, f.y) || inside(g, f, x, f.y),
    decreases f.x - x,
{
    if x < f.x {
        let y = f.y;
        lemma_both_left(g, e, f, x + 1);
        lemma_same_border(g, e, f, f);
        lemma_same_border(g, f, e, e);
        if x + 1 > 0 {
            if crosses(g, e, x + 1, y) {
                let c = lemma_crossing(g, e, x + 1, y);
                lemma_same_border(g, e, c, f);
                lemma_same_border(g, f, c, e);
                lemma_same_border(g, c, e, f);
                assert(!same_border(g, f, c)) by {
                    if same_border(g, f, c) {
                        lemma_same_border(g, c, f, e);
                        lemma_same_border(g, e, c, f);
                    }
                }
                law_border_separates(g, f, c);
                lemma_connected_inside(g, f, (e.x, e.y), (c.x, c.y));
            } else if crosses(g, f, x + 1, y) {
                let c = lemma_crossing(g, f, x + 1, y);
                assert(!same_border(g, e, c)) by {
                    if same_border(g, e, c) {
                        lemma_same_border(g, f, c, e);
                        lemma_same_border(g, c, f, f);
                        lemma_same_border(g, e, c, f);
                    }
                }
                law_border_separates(g, e, c);
                lemma_connected_inside(g, e, (f.x, f.y), (c.x, c.y));
            }
        }
    }
}

/// Two borders are not inside of each other.
proof fn lemma_not_both(g: &Gray, e: Edge, f: Edge)
    requires
        is_edge(g, e),
        is_edge(g, f),
        inside(g, e, f.x, f.y),
        inside(g, f, e.x, e.y),
    ensures
        same_border(g, e, f),
{
    if !same_border(g, e, f) {
        lemma_both_left(g, e, f, 0);
    }
}

/// The edge at which a border is first met, row by row: to the left of the
/// first pixel of the region that it encloses.
pub open spec fn key_edge(g: &Gray, z: (int, int)) -> Edge {
    if fg(g, z.0, z.1) {
        Edge { x: z.0, y: z.1, d: 4 }
    } else {
        Edge { x: z.0 - 1, y: z.1, d: 0 }
    }
}

/// The left edge of the first pixel of a region, and what lies around it.
pub proof fn lemma_key(g: &Gray, z: (int, int))
    requires
        is_first(g, z),
        fg(g, z.0, z.1) || in_hole(g, z),
    ensures
        is_edge(g, key_edge(g, z)),
        inside(g, key_edge(g, z), z.0, z.1),
        fg(g, z.0 - 1, z.1) != fg(g, z.0, z.1),
        fg(g, z.0, z.1 - 1) != fg(g, z.0, z.1),
        z.0 >= 1,
{
    let (left, above) = ((z.0 - 1, z.1), (z.0, z.1 - 1));
    if fg(g, left.0, left.1) == fg(g, z.0, z.1) {
        lemma_touching(g, z, left);
    }
    if fg(g, above.0, above.1) == fg(g, z.0, z.1) {
        lemma_touching(g, z, above);
    }
    lemma_touching(g, z, z);
    let e = key_edge(g, z);
    assert(in_image(g, z));
    assert(is_edge(g, e));
    lemma_same_border(g, e, e, e);
    lemma_left_of_first(g, e, z, z.0 - 1);
}

/// Every border encloses a region, which is on one side of it: the border is
/// that at the first pixel of the region.
pub proof fn law_border_encloses(g: &Gray, e: Edge) -> (z: (int, int))
    requires
        is_edge(g, e),
    ensures
        is_first(g, z),
        fg(g, z.0, z.1) || in_hole(g, z),
        fg(g, z.0, z.1) ==> connected(g, (e.x, e.y), z),
        !fg(g, z.0, z.1) ==> connected(g, behind(e), z),
        same_border(g, e, key_edge(g, z)),
{
    let b = behind(e);
    lemma_same_border(g, e, e, e);
    law_border_separates(g, e, e);
    if inside(g, e, e.x, e.y) {
        let z = lemma_first(g, (e.x, e.y));
        let f = key_edge(g, z);
        lemma_key(g, z);
        lemma_connected_inside(g, e, (e.x, e.y), z);
        lemma_connected_inside(g, f, (e.x, e.y), z);
        lemma_not_both(g, e, f);
        z
    } else {
        assert forall|q: (int, int)| #[trigger] connected(g, b, q) implies in_image(g, q) by {
            lemma_connected_inside(g, e, b, q);
            if !in_image(g, q) {
                lemma_out_of_image(g, e, q.0, q.1);
            }
        }
        assert(in_hole(g, b));
        let z = lemma_first(g, b);
        let f = key_edge(g, z);
        lemma_key(g, z);
        lemma_connected_inside(g, e, b, z);
        lemma_connected_inside(g, f, b, z);
        if !same_border(g, e, f) {
            lemma_same_border(g, f, e, e);
            law_border_separates(g, e, f);
            law_border_separates(g, f, e);
            lemma_not_both(g, e, f);
        }
        z
    }
}

/// Edges of the same border have the same pixels inside.
proof fn lemma_inside_same(g: &Gray, e: Edge, f: Edge, x: int, y: int)
    requires
        is_edge(g, e),
        is_edge(g, f),
        same_border(g, e, f),
    ensures
        inside(g, e, x, y) == inside(g, f, x, y),
    decreases x,
{
    if x > 0 {
        lemma_inside_same(g, e, f, x - 1, y);
        let c = if fg(g, x, y) {
            Edge { x, y, d: 4 }
        } else {
            Edge { x: x - 1, y, d: 0 }
        };
        lemma_same_border(g, e, f, c);
        lemma_same_border(g, f, e, c);
    }
}

/// A border encloses one region only.
pub proof fn law_border_encloses_one(g: &Gray, z: (int, int), t: (int, int))
    requires
        is_first(g, z),
        is_first(g, t),
        fg(g, z.0, z.1) || in_hole(g, z),
        fg(g, t.0, t.1) || in_hole(g, t),
        same_border(g, key_edge(g, z), key_edge(g, t)),
    ensures
        z == t,
{
    let (e, f) = (key_edge(g, z), key_edge(g, t));
    lemma_key(g, z);
    lemma_key(g, t);
    law_border_between_regions(g, e, f);
    lemma_inside_same(g, e, f, z.0, z.1);
    lemma_inside_same(g, e, f, t.0, t.1);
    lemma_inside_same(g, e, f, f.x, f.y);
    lemma_connected_inside(g, e, (e.x, e.y), (f.x, f.y));
    lemma_same_border(g, e, e, e);
    lemma_same_border(g, f, f, f);
    law_border_separates(g, e, e);
    law_border_separates(g, f, f);
    if fg(g, z.0, z.1) {
        lemma_connected_symmetric(g, (e.x, e.y), (f.x, f.y));
    } else {
        lemma_connected_symmetric(g, behind(e), behind(f));
    }
}

} // verus!
