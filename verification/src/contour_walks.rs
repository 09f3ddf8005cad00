//! How contours run: which way they turn, and that they go around once.
use crate::border::{
    dx, dy, fg_at, law_walk_returns, lemma_step_valid, lemma_walk_distinct, lemma_walk_valid,
    onward, returns_after, round_trip, step, turns, valid, walk, Spot,
};
use crate::contour_regions::{lemma_keyed, lemma_rows_told, start_edge, start_pixel};
use crate::contours::{
    border_start, borders_of, lemma_border_start, lemma_turns_back, traceable, trail,
};
use crate::image::Gray;
use vstd::prelude::*;

verus! {

/// The point before one of a closed chain.
pub open spec fn point_before(pts: Seq<(int, int)>, i: int) -> (int, int) {
    pts[if i == 0 {
        pts.len() - 1
    } else {
        i - 1
    }]
}

/// The point after one of a closed chain.
pub open spec fn point_after(pts: Seq<(int, int)>, i: int) -> (int, int) {
    pts[if i == pts.len() - 1 {
        0
    } else {
        i + 1
    }]
}

/// The neighbor of a point in a direction.
pub open spec fn neighbor_of(p: (int, int), d: int) -> (int, int) {
    (p.0 + dx(d), p.1 + dy(d))
}

/// Whether `next` comes right after `prev` among the foreground neighbors of a
/// point, counterclockwise: `k` directions on, with background between them.
pub open spec fn turns_to(
    g: &Gray,
    prev: (int, int),
    p: (int, int),
    next: (int, int),
    d: int,
    k: int,
) -> bool {
    &&& 0 <= d < 8
    &&& 1 <= k <= 8
    &&& prev == neighbor_of(p, d)
    &&& next == neighbor_of(p, (d + k) % 8)
    &&& forall|j: int| 1 <= j < k ==> !#[trigger] fg_at(g, p.0 + 1, p.1 + 1, (d + j) % 8)
}

/// The places that a contour of more than one point walks through.
proof fn lemma_walk_of(g: &Gray, b: int) -> (s: Spot)
    requires
        traceable(g),
        0 <= b < borders_of(g).len(),
        borders_of(g)[b].pts.len() > 1,
    ensures
        valid(g, s),
        borders_of(g)[b].pts == trail(g, s, round_trip(g, s)),
        returns_after(g, s, round_trip(g, s)),
{
    lemma_rows_told(g, g.h as nat);
    let c = borders_of(g)[b];
    lemma_keyed(g, c);
    let e = start_edge(c);
    lemma_border_start(g, e.x, e.y, e.d);
    let s = border_start(g, e.x, e.y, e.d).unwrap();
    law_walk_returns(g, s);
    s
}

/// Where a walk came from.
proof fn lemma_came_from(g: &Gray, s: Spot, n: nat)
    requires
        valid(g, s),
        n >= 1,
    ensures
        ({
            let (t, u) = (walk(g, s, n), walk(g, s, (n - 1) as nat));
            0 <= t.d < 8 && t.x + dx(t.d) == u.x && t.y + dy(t.d) == u.y
        }),
{
    let u = walk(g, s, (n - 1) as nat);
    lemma_walk_valid(g, s, (n - 1) as nat);
    let e = onward(g, u);
    let o = (e + 4) % 8;
    assert(walk(g, s, n) == step(g, u));
    assert(dx(o) == -dx(e) && dy(o) == -dy(e));
}

/// A contour goes on to the first foreground neighbor that comes after the point
/// before, counterclockwise: it keeps the background between the two. This holds
/// of outer contours and of those of holes.
pub proof fn law_contour_turns(g: &Gray, b: int, i: int)
    requires
        traceable(g),
        0 <= b < borders_of(g).len(),
        borders_of(g)[b].pts.len() > 1,
        0 <= i < borders_of(g)[b].pts.len(),
    ensures
        ({
            let pts = borders_of(g)[b].pts;
            exists|d: int, k: int| #[trigger]
                turns_to(g, point_before(pts, i), pts[i], point_after(pts, i), d, k)
        }),
{
    let s = lemma_walk_of(g, b);
    let n = round_trip(g, s);
    let pts = borders_of(g)[b].pts;
    let t = walk(g, s, i as nat);
    lemma_walk_valid(g, s, i as nat);
    if i == 0 {
        lemma_came_from(g, s, n);
    } else {
        lemma_came_from(g, s, i as nat);
    }
    let u = step(g, t);
    assert(walk(g, s, (i + 1) as nat) == u);
    assert(point_after(pts, i) == (u.x - 1, u.y - 1));
    assert(point_before(pts, i) == (t.x + dx(t.d) - 1, t.y + dy(t.d) - 1));
    lemma_turn_at(g, t);
    assert(turns_to(
        g,
        point_before(pts, i),
        pts[i],
        point_after(pts, i),
        t.d,
        1 + turns(g, t),
    ));
}

/// How a walk goes on from a place.
proof fn lemma_turn_at(g: &Gray, t: Spot)
    requires
        valid(g, t),
    ensures
        turns_to(
            g,
            (t.x + dx(t.d) - 1, t.y + dy(t.d) - 1),
            (t.x - 1, t.y - 1),
            (step(g, t).x - 1, step(g, t).y - 1),
            t.d,
            1 + turns(g, t),
        ),
{
    lemma_step_valid(g, t);
    let (d, k) = (t.d, 1 + turns(g, t));
    assert((d + k) % 8 == onward(g, t));
    assert forall|j: int| 1 <= j < k implies !#[trigger] fg_at(
        g,
        t.x - 1 + 1,
        t.y - 1 + 1,
        (d + j) % 8,
    ) by {
        lemma_turn_index(d, j);
        assert(!fg_at(g, t.x, t.y, ((t.d + 1) % 8 + (j - 1)) % 8));
    }
}

/// Directions counted from the one before and from the one after it.
proof fn lemma_turn_index(d: int, j: int)
    requires
        0 <= d < 8,
        1 <= j <= 8,
    ensures
        ((d + 1) % 8 + (j - 1)) % 8 == (d + j) % 8,
{
}

/// A contour goes around once: it does not come to a pixel twice from the same
/// one.
pub proof fn law_contour_goes_once(g: &Gray, b: int, i: int, j: int)
    requires
        traceable(g),
        0 <= b < borders_of(g).len(),
        0 <= i < j < borders_of(g)[b].pts.len(),
    ensures
        ({
            let pts = borders_of(g)[b].pts;
            pts[i] != pts[j] || point_before(pts, i) != point_before(pts, j)
        }),
{
    let s = lemma_walk_of(g, b);
    let n = round_trip(g, s);
    let pts = borders_of(g)[b].pts;
    let (t, u) = (walk(g, s, i as nat), walk(g, s, j as nat));
    assert forall|m: nat| 1 <= m <= j implies #[trigger] walk(g, s, m) != s by {}
    lemma_walk_distinct(g, s, i as nat, j as nat);
    lemma_walk_valid(g, s, i as nat);
    lemma_walk_valid(g, s, j as nat);
    if i == 0 {
        lemma_came_from(g, s, n);
    } else {
        lemma_came_from(g, s, i as nat);
    }
    lemma_came_from(g, s, j as nat);
    if pts[i] == pts[j] && point_before(pts, i) == point_before(pts, j) {
        assert(dx(t.d) == dx(u.d) && dy(t.d) == dy(u.d));
        assert(t.d == u.d);
        assert(t =~= u);
    }
}

/// A contour of one point is that of a pixel without foreground neighbors.
pub proof fn law_single_pixel(g: &Gray, b: int, d: int)
    requires
        traceable(g),
        0 <= b < borders_of(g).len(),
        borders_of(g)[b].pts.len() == 1,
        0 <= d < 8,
    ensures
        !fg_at(g, start_pixel(borders_of(g)[b]).0, start_pixel(borders_of(g)[b]).1, d),
{
    lemma_rows_told(g, g.h as nat);
    let c = borders_of(g)[b];
    lemma_keyed(g, c);
    let e = start_edge(c);
    lemma_border_start(g, e.x, e.y, e.d);
    match border_start(g, e.x, e.y, e.d) {
        Some(s) => lemma_two_steps(g, s),
        None => lemma_none_around(g, e.x, e.y, e.d, d),
    }
}

/// No walk is back after one step.
proof fn lemma_two_steps(g: &Gray, s: Spot)
    requires
        valid(g, s),
    ensures
        round_trip(g, s) >= 2,
{
    law_walk_returns(g, s);
    let o = onward(g, s);
    assert(0 <= o < 8);
    assert(dx(o) != 0 || dy(o) != 0);
    assert(walk(g, s, 0) == s);
    assert(walk(g, s, 1) == step(g, walk(g, s, 0)));
    assert(step(g, s).x != s.x || step(g, s).y != s.y);
}

/// Where no border starts, there are no neighbors.
proof fn lemma_none_around(g: &Gray, x: int, y: int, e: int, d: int)
    requires
        0 <= e < 8,
        0 <= d < 8,
        border_start(g, x, y, e) is None,
    ensures
        !fg_at(g, x, y, d),
{
    lemma_turns_back(g, x, y, e, 0);
    let j = (e - d + 8) % 8;
    lemma_turned_back(e, d);
    assert(!fg_at(g, x, y, (e + 8 - j) % 8));
}

/// Counting directions clockwise.
proof fn lemma_turned_back(e: int, d: int)
    requires
        0 <= e < 8,
        0 <= d < 8,
    ensures
        0 <= (e - d + 8) % 8 < 8,
        (e + 8 - (e - d + 8) % 8) % 8 == d,
{
}

} // verus!
