//! Border following: walking around the foreground of an image, with the
//! background kept on one side.
//!
//! Positions are those of the image with a frame of one background pixel
//! around it. Directions run counterclockwise from east, with `y` down.
use crate::image::{lemma_index, Gray};
use vstd::prelude::*;

verus! {

/// Whether a pixel of the framed image is in the foreground.
pub open spec fn fg(g: &Gray, x: int, y: int) -> bool {
    1 <= x <= g.w && 1 <= y <= g.h && g.pixel(x - 1, y - 1) != 0
}

/// The horizontal step in a direction.
pub open spec fn dx(d: int) -> int {
    if d == 0 || d == 1 || d == 7 {
        1
    } else if d == 3 || d == 4 || d == 5 {
        -1
    } else {
        0
    }
}

/// The vertical step in a direction.
pub open spec fn dy(d: int) -> int {
    if d == 1 || d == 2 || d == 3 {
        -1
    } else if d == 5 || d == 6 || d == 7 {
        1
    } else {
        0
    }
}

/// Whether the neighbor in a direction is in the foreground.
pub open spec fn fg_at(g: &Gray, x: int, y: int, d: int) -> bool {
    fg(g, x + dx(d), y + dy(d))
}

/// A place on a border: a pixel, and the direction to the one before.
#[verifier::ext_equal]
pub struct Spot {
    pub x: int,
    pub y: int,
    pub d: int,
}

/// Whether a place can be on a border: both pixels are in the foreground.
pub open spec fn valid(g: &Gray, s: Spot) -> bool {
    0 <= s.d < 8 && fg(g, s.x, s.y) && fg_at(g, s.x, s.y, s.d)
}

/// How many directions, counterclockwise from direction `d` on, lead to the
/// background, when `k` are known to.
pub open spec fn turns_from(g: &Gray, x: int, y: int, d: int, k: int) -> int
    decreases 8 - k,
{
    if k >= 8 || fg_at(g, x, y, (d + k) % 8) {
        k
    } else {
        turns_from(g, x, y, d, k + 1)
    }
}

/// How many neighbors are passed over on the way to the next border pixel.
pub open spec fn turns(g: &Gray, s: Spot) -> int {
    turns_from(g, s.x, s.y, (s.d + 1) % 8, 0)
}

/// The direction to the next border pixel: the first foreground neighbor,
/// counterclockwise after the one before.
pub open spec fn onward(g: &Gray, s: Spot) -> int {
    (s.d + 1 + turns(g, s)) % 8
}

/// The next place on a border.
pub open spec fn step(g: &Gray, s: Spot) -> Spot {
    let e = onward(g, s);
    Spot { x: s.x + dx(e), y: s.y + dy(e), d: (e + 4) % 8 }
}

/// Whether the east neighbor is passed over: it is in the background, and the
/// border leaves it to its right.
pub open spec fn leaves_east(g: &Gray, s: Spot) -> bool {
    7 - s.d < turns(g, s)
}

/// The place after `n` steps.
pub open spec fn walk(g: &Gray, s: Spot, n: nat) -> Spot
    decreases n,
{
    if n == 0 {
        s
    } else {
        step(g, walk(g, s, (n - 1) as nat))
    }
}

/// Whether a walk first comes back to where it started after `n` steps.
pub open spec fn returns_after(g: &Gray, s: Spot, n: nat) -> bool {
    &&& n >= 1
    &&& walk(g, s, n) == s
    &&& forall|m: nat| 1 <= m < n ==> #[trigger] walk(g, s, m) != s
}

/// The length of a border.
pub open spec fn round_trip(g: &Gray, s: Spot) -> nat {
    choose|n: nat| returns_after(g, s, n)
}

/// What the search for the next neighbor finds.
pub proof fn lemma_turns(g: &Gray, x: int, y: int, d: int, k: int)
    requires
        0 <= k <= 8,
        0 <= d < 8,
        forall|j: int| 0 <= j < k ==> !#[trigger] fg_at(g, x, y, (d + j) % 8),
    ensures
        k <= turns_from(g, x, y, d, k) <= 8,
        forall|j: int|
            0 <= j < turns_from(g, x, y, d, k) ==> !#[trigger] fg_at(g, x, y, (d + j) % 8),
        turns_from(g, x, y, d, k) < 8 ==> fg_at(
            g,
            x,
            y,
            (d + turns_from(g, x, y, d, k)) % 8,
        ),
    decreases 8 - k,
{
    if k < 8 && !fg_at(g, x, y, (d + k) % 8) {
        lemma_turns(g, x, y, d, k + 1);
    }
}

/// A step from a place on a border leads to a place on a border.
pub proof fn lemma_step_valid(g: &Gray, s: Spot)
    requires
        valid(g, s),
    ensures
        valid(g, step(g, s)),
        0 <= turns(g, s) <= 7,
        fg_at(g, s.x, s.y, onward(g, s)),
        forall|j: int|
            0 <= j < turns(g, s) ==> !#[trigger] fg_at(g, s.x, s.y, ((s.d + 1) % 8 + j) % 8),
{
    let d1 = (s.d + 1) % 8;
    lemma_turns(g, s.x, s.y, d1, 0);
    let k = turns(g, s);
    assert((d1 + 7) % 8 == s.d);
    if k == 8 {
        assert(fg_at(g, s.x, s.y, (d1 + 7) % 8));
    }
    assert((d1 + k) % 8 == onward(g, s));
    let e = onward(g, s);
    let o = (e + 4) % 8;
    assert(dx(o) == -dx(e) && dy(o) == -dy(e));
}

/// Directions that meet after different numbers of turns.
proof fn lemma_overtaken(c: int, a: int, d: int, b: int)
    requires
        0 <= c < 8,
        0 <= d < 8,
        0 <= a < b <= 7,
        (c + 1 + a) % 8 == (d + 1 + b) % 8,
    ensures
        ((d + 1) % 8 + (b - 1 - a)) % 8 == c,
{
}

/// The neighbor before cannot have been passed over.
proof fn lemma_no_overtaking(g: &Gray, s: Spot, t: Spot)
    requires
        valid(g, s),
        valid(g, t),
        s.x == t.x,
        s.y == t.y,
        onward(g, s) == onward(g, t),
    ensures
        turns(g, s) >= turns(g, t),
{
    lemma_step_valid(g, s);
    lemma_step_valid(g, t);
    let (a, b) = (turns(g, s), turns(g, t));
    if a < b {
        lemma_overtaken(s.d, a, t.d, b);
        assert(!fg_at(g, t.x, t.y, ((t.d + 1) % 8 + (b - 1 - a)) % 8));
    }
}

/// Different places are followed by different places.
pub proof fn lemma_step_injective(g: &Gray, s: Spot, t: Spot)
    requires
        valid(g, s),
        valid(g, t),
        step(g, s) == step(g, t),
    ensures
        s == t,
{
    let (e, f) = (onward(g, s), onward(g, t));
    assert((e + 4) % 8 == (f + 4) % 8);
    assert(e == f);
    assert(s.x == t.x && s.y == t.y);
    lemma_no_overtaking(g, s, t);
    lemma_no_overtaking(g, t, s);
    assert((s.d + 1 + turns(g, s)) % 8 == (t.d + 1 + turns(g, s)) % 8);
    assert(s.d == t.d);
}

/// A walk stays on the border.
pub proof fn lemma_walk_valid(g: &Gray, s: Spot, n: nat)
    requires
        valid(g, s),
    ensures
        valid(g, walk(g, s, n)),
    decreases n,
{
    if n > 0 {
        lemma_walk_valid(g, s, (n - 1) as nat);
        lemma_step_valid(g, walk(g, s, (n - 1) as nat));
    }
}

/// Until it comes back to its start, a walk is never twice at the same place.
pub proof fn lemma_walk_distinct(g: &Gray, s: Spot, a: nat, b: nat)
    requires
        valid(g, s),
        a < b,
        forall|m: nat| 1 <= m <= b ==> #[trigger] walk(g, s, m) != s,
    ensures
        walk(g, s, a) != walk(g, s, b),
    decreases a,
{
    if a > 0 {
        let (i, j) = ((a - 1) as nat, (b - 1) as nat);
        lemma_walk_distinct(g, s, i, j);
        if walk(g, s, a) == walk(g, s, b) {
            lemma_walk_valid(g, s, i);
            lemma_walk_valid(g, s, j);
            lemma_step_injective(g, walk(g, s, i), walk(g, s, j));
        }
    }
}

/// The number of a place.
spec fn code(g: &Gray, s: Spot) -> int {
    (s.y * (g.w + 2) + s.x) * 8 + s.d
}

/// Places on borders have different numbers.
proof fn lemma_code(g: &Gray, s: Spot, t: Spot)
    requires
        valid(g, s),
        valid(g, t),
    ensures
        0 <= code(g, s) < 8 * ((g.w + 2) * (g.h + 2)),
        code(g, s) == code(g, t) ==> s == t,
{
    let (w, h) = (g.w + 2, g.h + 2);
    lemma_index(w, h, s.x, s.y);
    lemma_index(w, h, t.x, t.y);
    if code(g, s) == code(g, t) {
        assert(s.y * w + s.x == t.y * w + t.x);
        assert(s =~= t);
    }
}

/// There are only so many places, so a walk cannot go on for long.
pub proof fn lemma_walk_bound(g: &Gray, s: Spot, n: nat)
    requires
        valid(g, s),
        forall|m: nat| 1 <= m <= n ==> #[trigger] walk(g, s, m) != s,
    ensures
        n < 8 * ((g.w + 2) * (g.h + 2)),
{
    let bound = 8 * ((g.w + 2) * (g.h + 2));
    let codes = Seq::new(n + 1, |i: int| code(g, walk(g, s, i as nat)));
    assert(codes.no_duplicates()) by {
        assert forall|i: int, j: int|
            0 <= i < codes.len() && 0 <= j < codes.len() && i != j implies codes[i] != codes[j] by {
            let (a, b) = if i < j {
                (i as nat, j as nat)
            } else {
                (j as nat, i as nat)
            };
            lemma_walk_distinct(g, s, a, b);
            lemma_walk_valid(g, s, a);
            lemma_walk_valid(g, s, b);
            lemma_code(g, walk(g, s, a), walk(g, s, b));
        }
    }
    codes.unique_seq_to_set();
    let range = vstd::set_lib::set_int_range(0, bound);
    lemma_code(g, s, s);
    vstd::set_lib::lemma_int_range(0, bound);
    assert(codes.to_set().subset_of(range)) by {
        assert forall|c: int| codes.to_set().contains(c) implies range.contains(c) by {
            let i = choose|i: int| 0 <= i < codes.len() && codes[i] == c;
            lemma_walk_valid(g, s, i as nat);
            lemma_code(g, walk(g, s, i as nat), s);
        }
    }
    vstd::set_lib::lemma_len_subset(codes.to_set(), range);
}

/// Every border is closed: a walk comes back to its start.
pub proof fn law_walk_returns(g: &Gray, s: Spot)
    requires
        valid(g, s),
    ensures
        returns_after(g, s, round_trip(g, s)),
        round_trip(g, s) <= 8 * ((g.w + 2) * (g.h + 2)),
{
    let bound = (8 * ((g.w + 2) * (g.h + 2))) as nat;
    lemma_code(g, s, s);
    if forall|m: nat| 1 <= m <= bound ==> #[trigger] walk(g, s, m) != s {
        lemma_walk_bound(g, s, bound);
    }
    let m = choose|m: nat| 1 <= m <= bound && #[trigger] walk(g, s, m) == s;
    let n = lemma_first_return(g, s, m);
    lemma_round_trip(g, s, n);
}

/// The first of the returns.
proof fn lemma_first_return(g: &Gray, s: Spot, m: nat) -> (n: nat)
    requires
        m >= 1,
        walk(g, s, m) == s,
    ensures
        returns_after(g, s, n),
        n <= m,
    decreases m,
{
    if exists|k: nat| 1 <= k < m && #[trigger] walk(g, s, k) == s {
        let k = choose|k: nat| 1 <= k < m && #[trigger] walk(g, s, k) == s;
        lemma_first_return(g, s, k)
    } else {
        m
    }
}

/// There is only one first return.
pub proof fn lemma_round_trip(g: &Gray, s: Spot, n: nat)
    requires
        returns_after(g, s, n),
    ensures
        round_trip(g, s) == n,
{
    let m = round_trip(g, s);
    assert(returns_after(g, s, m));
    if m < n {
        assert(walk(g, s, m) != s);
    } else if n < m {
        assert(walk(g, s, n) != s);
    }
}

} // verus!
