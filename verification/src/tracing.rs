//! What tracing a border does to the labels of an image, in terms of the edges
//! that belong to the border.
use crate::border::{
    fg, fg_at, law_walk_returns, leaves_east, lemma_step_valid, lemma_walk_valid, round_trip, turns,
    valid, walk, Spot,
};
use crate::contours::{
    area, border_start, labelled, lemma_border_start, lemma_place, passes, passes_east, place,
};
use crate::edges::{is_edge, lemma_back_is, lemma_place_of, lemma_walk_on, same_border, Edge};
use crate::image::Gray;
use crate::regions::{connected, lemma_along, lemma_touching};
use vstd::prelude::*;

verus! {

/// A border leaves the background to the east exactly at the place of the east
/// edge.
proof fn lemma_leaves_east(g: &Gray, s: Spot)
    requires
        valid(g, s),
    ensures
        leaves_east(g, s) <==> !fg_at(g, s.x, s.y, 0) && border_start(g, s.x, s.y, 0) == Some(s),
{
    lemma_step_valid(g, s);
    let k = 8 - s.d;
    let d1 = (s.d + 1) % 8;
    if leaves_east(g, s) {
        assert forall|j: int| 0 <= j < k implies !#[trigger] fg_at(g, s.x, s.y, (0 + 8 - j) % 8) by {
            assert((d1 + (k - 1 - j)) % 8 == (0 + 8 - j) % 8);
            assert(!fg_at(g, s.x, s.y, (d1 + (k - 1 - j)) % 8));
        }
        assert((0 + 8 - k) % 8 == s.d);
        assert(s.d >= 1);
        lemma_back_is(g, s.x, s.y, 0, 0, k);
        assert(!fg_at(g, s.x, s.y, (0 + 8 - 0) % 8));
        assert(border_start(g, s.x, s.y, 0) =~= Some(s));
    }
    if !fg_at(g, s.x, s.y, 0) && border_start(g, s.x, s.y, 0) == Some(s) {
        let e = Edge { x: s.x, y: s.y, d: 0 };
        let m = lemma_place_of(g, e);
        assert(m == k);
        let t = turns(g, s);
        if t < k {
            let j = k - 1 - t;
            assert((0 + 8 - j) % 8 == (s.d + 1 + t) % 8);
            assert(!fg_at(g, s.x, s.y, (e.d + 8 - j) % 8));
        }
    }
}

/// What a walk leads to, it leads to on its first round.
pub proof fn lemma_first_round(g: &Gray, s: Spot, n: nat) -> (i: nat)
    requires
        valid(g, s),
    ensures
        i < round_trip(g, s),
        walk(g, s, i) == walk(g, s, n),
    decreases n,
{
    law_walk_returns(g, s);
    let r = round_trip(g, s);
    if n < r {
        n
    } else {
        lemma_walk_on(g, s, r, (n - r) as nat);
        lemma_first_round(g, s, (n - r) as nat)
    }
}

/// Pixels at the same place are the same.
proof fn lemma_same_pixel(g: &Gray, x: int, y: int, u: int, v: int)
    requires
        fg(g, x, y),
        fg(g, u, v),
        place(g, x, y) == place(g, u, v),
    ensures
        x == u,
        y == v,
{
    lemma_place(g, x, y);
    lemma_place(g, u, v);
}

/// What tracing the border of an edge does to the label of a pixel.
pub proof fn lemma_traced_label(g: &Gray, labels: Seq<i32>, e: Edge, number: i32, x: int, y: int)
    requires
        is_edge(g, e),
        fg(g, x, y),
        labels.len() == area(g),
        number >= 2,
    ensures
        ({
            let east = Edge { x, y, d: 0 };
            let l = labels[place(g, x, y)];
            let m = labelled(g, labels, e.x, e.y, e.d, number)[place(g, x, y)];
            &&& is_edge(g, east) && same_border(g, e, east) ==> m < 0
            &&& m < 0 && l >= 0 ==> is_edge(g, east) && same_border(g, e, east)
            &&& l < 0 ==> m < 0
            &&& l != 1 ==> m != 1
            &&& m != l ==> m != 1 && connected(g, (e.x, e.y), (x, y))
            &&& m != l ==> m == number || (m == -number && is_edge(g, east) && same_border(
                g,
                e,
                east,
            ))
            &&& forall|d: int|
                #![trigger is_edge(g, Edge { x, y, d })]
                is_edge(g, Edge { x, y, d }) && same_border(g, e, Edge { x, y, d }) ==> m != 1
        }),
{
    lemma_place(g, x, y);
    lemma_place(g, e.x, e.y);
    lemma_border_start(g, e.x, e.y, e.d);
    let q = place(g, x, y);
    let east = Edge { x, y, d: 0 };
    match border_start(g, e.x, e.y, e.d) {
        None => {
            lemma_alone(g, labels, e, number, x, y);
        },
        Some(s) => {
            lemma_walked(g, labels, e, s, number, x, y);
        },
    }
}

/// The same for a pixel without foreground neighbors.
proof fn lemma_alone(g: &Gray, labels: Seq<i32>, e: Edge, number: i32, x: int, y: int)
    requires
        is_edge(g, e),
        fg(g, x, y),
        labels.len() == area(g),
        number >= 2,
        border_start(g, e.x, e.y, e.d) is None,
    ensures
        ({
            let east = Edge { x, y, d: 0 };
            let l = labels[place(g, x, y)];
            let m = labelled(g, labels, e.x, e.y, e.d, number)[place(g, x, y)];
            &&& is_edge(g, east) && same_border(g, e, east) ==> m < 0
            &&& m < 0 && l >= 0 ==> is_edge(g, east) && same_border(g, e, east)
            &&& m != l ==> m < 0 && connected(g, (e.x, e.y), (x, y))
            &&& m != l ==> m == -number && is_edge(g, east) && same_border(g, e, east)
            &&& l < 0 ==> m < 0
            &&& forall|d: int|
                #![trigger is_edge(g, Edge { x, y, d })]
                is_edge(g, Edge { x, y, d }) && same_border(g, e, Edge { x, y, d }) ==> m < 0
        }),
{
    lemma_place(g, x, y);
    lemma_place(g, e.x, e.y);
    if place(g, x, y) == place(g, e.x, e.y) {
        lemma_same_pixel(g, x, y, e.x, e.y);
        lemma_touching(g, (e.x, e.y), (x, y));
        let k = lemma_place_of(g, e);
        let j = e.d;
        assert((e.d + 8 - j) % 8 == 0);
        assert(!fg_at(g, e.x, e.y, (e.d + 8 - j) % 8));
        let east = Edge { x, y, d: 0 };
        let m = lemma_place_of(g, east);
        if m < 8 {
            let i = (e.d + m) % 8;
            assert((e.d + 8 - i) % 8 == (0 + 8 - m) % 8);
            assert(!fg_at(g, e.x, e.y, (e.d + 8 - i) % 8));
        }
    }
}

/// The same for a border that is walked along.
proof fn lemma_walked(g: &Gray, labels: Seq<i32>, e: Edge, s: Spot, number: i32, x: int, y: int)
    requires
        is_edge(g, e),
        fg(g, x, y),
        labels.len() == area(g),
        number >= 2,
        border_start(g, e.x, e.y, e.d) == Some(s),
    ensures
        ({
            let east = Edge { x, y, d: 0 };
            let l = labels[place(g, x, y)];
            let m = labelled(g, labels, e.x, e.y, e.d, number)[place(g, x, y)];
            &&& is_edge(g, east) && same_border(g, e, east) ==> m < 0
            &&& m < 0 && l >= 0 ==> is_edge(g, east) && same_border(g, e, east)
            &&& m != l ==> m != 1 && connected(g, (e.x, e.y), (x, y))
            &&& m != l ==> m == number || (m == -number && is_edge(g, east) && same_border(
                g,
                e,
                east,
            ))
            &&& l < 0 ==> m < 0
            &&& forall|d: int|
                #![trigger is_edge(g, Edge { x, y, d })]
                is_edge(g, Edge { x, y, d }) && same_border(g, e, Edge { x, y, d }) ==> m != 1
        }),
{
    lemma_place(g, x, y);
    lemma_border_start(g, e.x, e.y, e.d);
    let q = place(g, x, y);
    let n = round_trip(g, s);
    let east = Edge { x, y, d: 0 };
    let l = labels[q];
    let m = labelled(g, labels, e.x, e.y, e.d, number)[q];
    if passes_east(g, s, n, q) {
        let i = choose|i: nat|
            i < n && place(g, (#[trigger] walk(g, s, i)).x, walk(g, s, i).y) == q && leaves_east(
                g,
                walk(g, s, i),
            );
        let t = walk(g, s, i);
        lemma_walk_valid(g, s, i);
        lemma_same_pixel(g, t.x, t.y, x, y);
        lemma_leaves_east(g, t);
        let f = lemma_along(g, e, s, i);
        assert(is_edge(g, east) && same_border(g, e, east));
    } else if passes(g, s, n, q) {
        let i = choose|i: nat|
            i < n && place(g, (#[trigger] walk(g, s, i)).x, walk(g, s, i).y) == q;
        let t = walk(g, s, i);
        lemma_walk_valid(g, s, i);
        lemma_same_pixel(g, t.x, t.y, x, y);
        let f = lemma_along(g, e, s, i);
    }
    assert forall|d: int|
        #![trigger is_edge(g, Edge { x, y, d })]
        is_edge(g, Edge { x, y, d }) && same_border(g, e, Edge { x, y, d }) implies passes(
        g,
        s,
        n,
        q,
    ) && (d == 0 ==> passes_east(g, s, n, q)) by {
        let f = Edge { x, y, d };
        lemma_border_start(g, x, y, d);
        let t = border_start(g, x, y, d).unwrap();
        let j = choose|j: nat| #[trigger] walk(g, s, j) == t;
        let i = lemma_first_round(g, s, j);
        assert(walk(g, s, i) == t);
        if d == 0 {
            lemma_leaves_east(g, t);
        }
    }
}

} // verus!
