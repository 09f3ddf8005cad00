//! Edges between the foreground and the background of an image, the borders
//! that they belong to, and what a border encloses.
use crate::border::{
    dx, dy, fg, fg_at, law_walk_returns, onward, round_trip, step, turns, turns_from, valid, walk,
    Spot,
};
use crate::contours::{border_start, lemma_border_start, lemma_turns_back, turns_back};
use crate::image::Gray;
use vstd::prelude::*;

verus! {

/// The edge of a pixel toward one of its four neighbors.
#[verifier::ext_equal]
pub struct Edge {
    pub x: int,
    pub y: int,
    pub d: int,
}

/// Whether an edge has the foreground on its side and the background on the
/// other.
pub open spec fn is_edge(g: &Gray, e: Edge) -> bool {
    &&& e.d == 0 || e.d == 2 || e.d == 4 || e.d == 6
    &&& fg(g, e.x, e.y)
    &&& !fg_at(g, e.x, e.y, e.d)
}

/// Whether a walk along a border leads from one place to another.
pub open spec fn linked(g: &Gray, s: Spot, t: Spot) -> bool {
    exists|n: nat| #[trigger] walk(g, s, n) == t
}

/// Whether two edges belong to the same border: that of a single pixel, or one
/// that is walked along.
pub open spec fn same_border(g: &Gray, e: Edge, f: Edge) -> bool {
    match (border_start(g, e.x, e.y, e.d), border_start(g, f.x, f.y, f.d)) {
        (None, None) => e.x == f.x && e.y == f.y,
        (Some(s), Some(t)) => linked(g, s, t),
        _ => false,
    }
}

/// Walking on.
pub proof fn lemma_walk_on(g: &Gray, s: Spot, m: nat, n: nat)
    ensures
        walk(g, walk(g, s, m), n) == walk(g, s, m + n),
    decreases n,
{
    if n > 0 {
        lemma_walk_on(g, s, m, (n - 1) as nat);
    }
}

/// Links can be followed one after the other.
pub proof fn lemma_linked_transitive(g: &Gray, s: Spot, t: Spot, u: Spot)
    requires
        linked(g, s, t),
        linked(g, t, u),
    ensures
        linked(g, s, u),
{
    let m = choose|m: nat| #[trigger] walk(g, s, m) == t;
    let n = choose|n: nat| #[trigger] walk(g, t, n) == u;
    lemma_walk_on(g, s, m, n);
    assert(walk(g, s, m + n) == u);
}

/// A step can be taken back by walking on.
proof fn lemma_step_back(g: &Gray, s: Spot)
    requires
        valid(g, s),
    ensures
        linked(g, s, step(g, s)),
        linked(g, step(g, s), s),
{
    law_walk_returns(g, s);
    let n = round_trip(g, s);
    assert(walk(g, s, 0) == s);
    assert(walk(g, s, 1) == step(g, s)) by {
        reveal_with_fuel(walk, 2);
    }
    lemma_walk_on(g, s, 1, (n - 1) as nat);
    assert(walk(g, step(g, s), (n - 1) as nat) == s);
}

/// Links go both ways.
pub proof fn lemma_linked_symmetric(g: &Gray, s: Spot, n: nat)
    requires
        valid(g, s),
    ensures
        linked(g, walk(g, s, n), s),
    decreases n,
{
    if n == 0 {
        assert(walk(g, s, 0) == s);
    } else {
        let t = walk(g, s, (n - 1) as nat);
        crate::border::lemma_walk_valid(g, s, (n - 1) as nat);
        lemma_linked_symmetric(g, s, (n - 1) as nat);
        lemma_step_back(g, t);
        lemma_linked_transitive(g, step(g, t), t, s);
    }
}

/// Belonging to the same border is an equivalence.
pub proof fn lemma_same_border(g: &Gray, e: Edge, f: Edge, h: Edge)
    requires
        is_edge(g, e),
        is_edge(g, f),
    ensures
        same_border(g, e, e),
        same_border(g, e, f) ==> same_border(g, f, e),
        same_border(g, e, f) && same_border(g, f, h) ==> same_border(g, e, h),
{
    lemma_border_start(g, e.x, e.y, e.d);
    lemma_border_start(g, f.x, f.y, f.d);
    if let Some(s) = border_start(g, e.x, e.y, e.d) {
        assert(walk(g, s, 0) == s);
        if same_border(g, e, f) {
            let t = border_start(g, f.x, f.y, f.d).unwrap();
            let n = choose|n: nat| #[trigger] walk(g, s, n) == t;
            lemma_linked_symmetric(g, s, n);
            if same_border(g, f, h) {
                let u = border_start(g, h.x, h.y, h.d).unwrap();
                lemma_linked_transitive(g, s, t, u);
            }
        }
    }
}

/// The edge after this one, counterclockwise around the foreground.
pub open spec fn next_edge(g: &Gray, e: Edge) -> Edge {
    let (c, n) = ((e.d + 1) % 8, (e.d + 2) % 8);
    if fg_at(g, e.x, e.y, c) {
        Edge { x: e.x + dx(c), y: e.y + dy(c), d: (e.d + 6) % 8 }
    } else if fg_at(g, e.x, e.y, n) {
        Edge { x: e.x + dx(n), y: e.y + dy(n), d: e.d }
    } else {
        Edge { x: e.x, y: e.y, d: n }
    }
}

/// The search backward ends at the first direction that leads to the
/// foreground.
pub proof fn lemma_back_is(g: &Gray, x: int, y: int, d: int, i: int, k: int)
    requires
        0 <= i <= k < 8,
        fg_at(g, x, y, (d + 8 - k) % 8),
        forall|j: int| 0 <= j < k ==> !#[trigger] fg_at(g, x, y, (d + 8 - j) % 8),
    ensures
        turns_back(g, x, y, d, i) == k,
    decreases k - i,
{
    if i < k {
        assert(!fg_at(g, x, y, (d + 8 - i) % 8));
        lemma_back_is(g, x, y, d, i + 1, k);
    }
}

/// The search forward ends at the first direction that leads to the
/// foreground.
proof fn lemma_turns_is(g: &Gray, x: int, y: int, d: int, i: int, k: int)
    requires
        0 <= i <= k < 8,
        fg_at(g, x, y, (d + k) % 8),
        forall|j: int| 0 <= j < k ==> !#[trigger] fg_at(g, x, y, (d + j) % 8),
    ensures
        turns_from(g, x, y, d, i) == k,
    decreases k - i,
{
    if i < k {
        assert(!fg_at(g, x, y, (d + i) % 8));
        lemma_turns_is(g, x, y, d, i + 1, k);
    }
}

/// Where the place of an edge lies: so many directions back, and none of
/// those between leads to the foreground.
pub proof fn lemma_place_of(g: &Gray, e: Edge) -> (k: int)
    requires
        is_edge(g, e),
    ensures
        k == turns_back(g, e.x, e.y, e.d, 0),
        1 <= k <= 8,
        forall|j: int| 0 <= j < k ==> !#[trigger] fg_at(g, e.x, e.y, (e.d + 8 - j) % 8),
        k < 8 ==> border_start(g, e.x, e.y, e.d) == Some(
            Spot { x: e.x, y: e.y, d: (e.d + 8 - k) % 8 },
        ) && valid(g, Spot { x: e.x, y: e.y, d: (e.d + 8 - k) % 8 }),
        k == 8 ==> border_start(g, e.x, e.y, e.d) is None,
{
    let k = turns_back(g, e.x, e.y, e.d, 0);
    lemma_turns_back(g, e.x, e.y, e.d, 0);
    assert((e.d + 8 - 0) % 8 == e.d);
    k
}

/// The directions after the place of an edge, up to the edge and those behind
/// it that do not lead to the foreground either.
proof fn lemma_turns_past(g: &Gray, e: Edge, k: int, more: int)
    requires
        is_edge(g, e),
        1 <= k < 8,
        k == turns_back(g, e.x, e.y, e.d, 0),
        0 <= more <= 1,
        more == 1 ==> !fg_at(g, e.x, e.y, (e.d + 1) % 8),
        fg_at(g, e.x, e.y, (e.d + 1 + more) % 8),
    ensures
        turns(g, Spot { x: e.x, y: e.y, d: (e.d + 8 - k) % 8 }) == k + more,
        onward(g, Spot { x: e.x, y: e.y, d: (e.d + 8 - k) % 8 }) == (e.d + 1 + more) % 8,
{
    let k2 = lemma_place_of(g, e);
    let c = (e.d + 8 - k) % 8;
    let d1 = (c + 1) % 8;
    assert forall|j: int| 0 <= j < k + more implies !#[trigger] fg_at(
        g,
        e.x,
        e.y,
        (d1 + j) % 8,
    ) by {
        if j < k {
            assert((d1 + j) % 8 == (e.d + 8 - (k - 1 - j)) % 8);
            assert(!fg_at(g, e.x, e.y, (e.d + 8 - (k - 1 - j)) % 8));
        } else {
            assert((d1 + j) % 8 == (e.d + 1) % 8);
        }
    }
    assert((d1 + (k + more)) % 8 == (e.d + 1 + more) % 8);
    if k + more == 8 {
        // the place itself would be the direction behind the edge
        assert(k == 7 && more == 1);
        assert(c == (e.d + 1) % 8);
    }
    lemma_turns_is(g, e.x, e.y, d1, 0, k + more);
}

/// Where the border turns away from a pixel: the edge after an edge is one of
/// the next place.
proof fn lemma_next_away(g: &Gray, e: Edge)
    requires
        is_edge(g, e),
        fg_at(g, e.x, e.y, (e.d + 1) % 8) || fg_at(g, e.x, e.y, (e.d + 2) % 8),
    ensures
        is_edge(g, next_edge(g, e)),
        ({
            let f = next_edge(g, e);
            border_start(g, e.x, e.y, e.d) matches Some(s) && valid(g, s) && border_start(
                g,
                f.x,
                f.y,
                f.d,
            ) == Some(step(g, s))
        }),
{
    let k = lemma_place_of(g, e);
    let (c, n) = ((e.d + 1) % 8, (e.d + 2) % 8);
    let f = next_edge(g, e);
    let s = Spot { x: e.x, y: e.y, d: (e.d + 8 - k) % 8 };
    assert(k == 8 ==> !fg_at(g, e.x, e.y, (e.d + 8 - 7) % 8) && !fg_at(
        g,
        e.x,
        e.y,
        (e.d + 8 - 6) % 8,
    ));
    if fg_at(g, e.x, e.y, c) {
        lemma_turns_past(g, e, k, 0);
        let back = (e.d + 5) % 8;
        assert((f.d + 8 - 0) % 8 == f.d && (f.d + 8 - 1) % 8 == back);
        assert(f.x + dx(f.d) == e.x + dx(e.d) && f.y + dy(f.d) == e.y + dy(e.d));
        assert(f.x + dx(back) == e.x && f.y + dy(back) == e.y);
        lemma_back_is(g, f.x, f.y, f.d, 0, 1);
        assert(border_start(g, f.x, f.y, f.d) == Some(step(g, s)));
    } else {
        lemma_turns_past(g, e, k, 1);
        let (side, back) = ((e.d + 7) % 8, (e.d + 6) % 8);
        assert((f.d + 8 - 0) % 8 == f.d && (f.d + 8 - 1) % 8 == side && (f.d + 8 - 2) % 8 == back);
        assert(f.x + dx(f.d) == e.x + dx(c) && f.y + dy(f.d) == e.y + dy(c));
        assert(f.x + dx(side) == e.x + dx(e.d) && f.y + dy(side) == e.y + dy(e.d));
        assert(f.x + dx(back) == e.x && f.y + dy(back) == e.y);
        lemma_back_is(g, f.x, f.y, f.d, 0, 2);
        assert(border_start(g, f.x, f.y, f.d) == Some(step(g, s)));
    }
}

/// Where the border stays at a pixel: the edge after an edge is one of the
/// same place.
proof fn lemma_next_around(g: &Gray, e: Edge)
    requires
        is_edge(g, e),
        !fg_at(g, e.x, e.y, (e.d + 1) % 8),
        !fg_at(g, e.x, e.y, (e.d + 2) % 8),
    ensures
        is_edge(g, next_edge(g, e)),
        ({
            let f = next_edge(g, e);
            border_start(g, e.x, e.y, e.d) == border_start(g, f.x, f.y, f.d) && (border_start(
                g,
                e.x,
                e.y,
                e.d,
            ) is Some ==> turns_back(g, f.x, f.y, f.d, 0) == turns_back(g, e.x, e.y, e.d, 0) + 2)
        }),
{
    let k = lemma_place_of(g, e);
    let (c, n) = ((e.d + 1) % 8, (e.d + 2) % 8);
    let f = next_edge(g, e);
    assert forall|j: int| 0 <= j < k + 2 && j < 8 implies !#[trigger] fg_at(
        g,
        f.x,
        f.y,
        (f.d + 8 - j) % 8,
    ) by {
        if j >= 2 {
            assert((f.d + 8 - j) % 8 == (e.d + 8 - (j - 2)) % 8);
            assert(!fg_at(g, e.x, e.y, (e.d + 8 - (j - 2)) % 8));
        } else if j == 1 {
            assert((f.d + 8 - j) % 8 == c);
        } else {
            assert((f.d + 8 - j) % 8 == n);
        }
    }
    if k < 8 {
        assert(k != 7) by {
            assert((e.d + 8 - 7) % 8 == c);
        }
        assert(k != 6) by {
            assert((e.d + 8 - 6) % 8 == n);
        }
        assert((f.d + 8 - (k + 2)) % 8 == (e.d + 8 - k) % 8);
        lemma_back_is(g, f.x, f.y, f.d, 0, k + 2);
    } else {
        let m = lemma_place_of(g, f);
        if m < 8 {
            assert(!fg_at(g, f.x, f.y, (f.d + 8 - m) % 8));
        }
    }
}

/// The edge after an edge is one of the same border: of the same place, or of
/// the next.
pub proof fn lemma_next_edge(g: &Gray, e: Edge)
    requires
        is_edge(g, e),
    ensures
        is_edge(g, next_edge(g, e)),
        same_border(g, e, next_edge(g, e)),
        ({
            let (start, next) = (
                border_start(g, e.x, e.y, e.d),
                border_start(g, next_edge(g, e).x, next_edge(g, e).y, next_edge(g, e).d),
            );
            if fg_at(g, e.x, e.y, (e.d + 1) % 8) || fg_at(g, e.x, e.y, (e.d + 2) % 8) {
                start matches Some(s) && next == Some(step(g, s))
            } else {
                start == next && (start is Some ==> turns_back(
                    g,
                    e.x,
                    e.y,
                    next_edge(g, e).d,
                    0,
                ) == turns_back(g, e.x, e.y, e.d, 0) + 2)
            }
        }),
{
    if fg_at(g, e.x, e.y, (e.d + 1) % 8) || fg_at(g, e.x, e.y, (e.d + 2) % 8) {
        lemma_next_away(g, e);
        lemma_step_back(g, border_start(g, e.x, e.y, e.d).unwrap());
    } else {
        lemma_next_around(g, e);
        if let Some(s) = border_start(g, e.x, e.y, e.d) {
            assert(walk(g, s, 0) == s);
        }
    }
}

} // verus!
