//! Randomized round trips: a payload is encoded, its grid turned and damaged,
//! and decoded again.
use crate::codec::{decode, encode, lemma_rolled_index, lemma_sizes, roll_grid, CodecError};
use crate::field::xor_cancel;
use crate::marker::MarkerSpec;
use crate::payload_laws::law_whole_bytes_encodable;
use vstd::prelude::*;

verus! {

/// A pseudorandom number generator with a state of 64 bits.
#[derive(Clone, Copy, Debug)]
pub struct XorShift(pub u64);

/// The state after the given one.
pub open spec fn shifted(x: u64) -> u64 {
    let a = x ^ (x << 13);
    let b = a ^ (a >> 7);
    b ^ (b << 17)
}

/// The `k`-th number after a state.
pub open spec fn draw(x: u64, k: nat) -> u64
    decreases k,
{
    if k == 0 {
        x
    } else {
        shifted(draw(x, (k - 1) as nat))
    }
}

impl XorShift {
    /// The next number.
    pub fn next(&mut self) -> (r: u64)
        ensures
            r == shifted(old(self).0),
            final(self).0 == r,
    {
        let x = self.0;
        let a = x ^ (x << 13);
        let b = a ^ (a >> 7);
        let c = b ^ (b << 17);
        self.0 = c;
        c
    }

    /// The next number, reduced to one below `n`.
    pub fn below(&mut self, n: usize) -> (r: usize)
        requires
            n >= 1,
        ensures
            r == shifted(old(self).0) as nat % n as nat,
            r < n,
            final(self).0 == shifted(old(self).0),
    {
        let x = self.next();
        (x % (n as u64)) as usize
    }
}

/// The generator never gets stuck at zero, and no two states are followed by
/// the same one.
pub proof fn law_shift_is_one_to_one(x: u64, y: u64)
    ensures
        shifted(x) == shifted(y) ==> x == y,
        shifted(x) == 0 <==> x == 0,
{
    lemma_unshifted(x);
    lemma_unshifted(y);
    assert(shifted(0) == 0) by (bit_vector);
    lemma_unshifted(0);
}

/// The first step undone.
spec fn first_undone(a: u64) -> u64 {
    a ^ (a << 13) ^ (a << 26) ^ (a << 39) ^ (a << 52)
}

/// The second step undone.
spec fn second_undone(b: u64) -> u64 {
    b ^ (b >> 7) ^ (b >> 14) ^ (b >> 21) ^ (b >> 28) ^ (b >> 35) ^ (b >> 42) ^ (b >> 49) ^ (b
        >> 56) ^ (b >> 63)
}

/// The third step undone.
spec fn third_undone(c: u64) -> u64 {
    c ^ (c << 17) ^ (c << 34) ^ (c << 51)
}

/// Each step can be undone.
proof fn lemma_unshifted(x: u64)
    ensures
        first_undone(second_undone(third_undone(shifted(x)))) == x,
{
    let a = x ^ (x << 13);
    let b = a ^ (a >> 7);
    assert(first_undone(x ^ (x << 13)) == x) by (bit_vector);
    assert(second_undone(a ^ (a >> 7)) == a) by (bit_vector);
    assert(third_undone(b ^ (b << 17)) == b) by (bit_vector);
}

/// A grid turned the other way: each cell moves on by `shift` sectors.
pub fn turn_grid(grid: &[u8], marker: &MarkerSpec, shift: usize) -> (out: Vec<u8>)
    requires
        marker.wf(),
        grid@.len() == marker.cells(),
        shift < marker.sector_count,
    ensures
        out@ == marker.rolled(
            grid@,
            (marker.sector_count - shift) % (marker.sector_count as int),
        ),
        forall|r: int, i: int|
            0 <= r < marker.ring_count && 0 <= i < marker.sector_count ==> out@[r
                * marker.sector_count + #[trigger] ((i + shift) % (marker.sector_count as int))]
                == #[trigger] grid@[r * marker.sector_count + i],
{
    let n = marker.sector_count;
    let back = if shift == 0 {
        0
    } else {
        n - shift
    };
    proof {
        let m = n as int;
        vstd::arithmetic::div_mod::lemma_mod_self_0(m);
        if shift > 0 {
            vstd::arithmetic::div_mod::lemma_small_mod((n - shift) as nat, n as nat);
        }
        assert forall|r: int, i: int|
            0 <= r < marker.ring_count && 0 <= i < n implies marker.rolled(grid@, back as int)[r * n
            + #[trigger] ((i + shift) % m)] == #[trigger] grid@[r * n + i] by {
            let j = (i + shift) % m;
            crate::image::lemma_index(m, marker.ring_count as int, j, r);
            assert(m * marker.ring_count == marker.ring_count * m) by (nonlinear_arith);
            let q = r * n + j;
            lemma_rolled_index(marker, q, back as int);
            assert((j + back) % m == i) by {
                if i + shift < m {
                    vstd::arithmetic::div_mod::lemma_small_mod((i + shift) as nat, n as nat);
                    if shift > 0 {
                        vstd::arithmetic::div_mod::lemma_mod_add_multiples_vanish(i, m);
                    }
                    vstd::arithmetic::div_mod::lemma_small_mod(i as nat, n as nat);
                } else {
                    vstd::arithmetic::div_mod::lemma_fundamental_div_mod_converse(
                        i + shift,
                        m,
                        1,
                        i + shift - m,
                    );
                    vstd::arithmetic::div_mod::lemma_small_mod(i as nat, n as nat);
                }
            }
        }
    }
    roll_grid(grid, marker, back)
}

/// Whether cells, given as ring and sector, stand in the grid. A sector beyond
/// the last of a ring is one of the next ring.
pub open spec fn on_grid(marker: &MarkerSpec, cells: Seq<(usize, usize)>) -> bool {
    forall|i: int|
        0 <= i < cells.len() ==> cell_index(marker, #[trigger] cells[i]) < marker.cells()
}

/// Where a cell stands in the grid.
pub open spec fn cell_index(marker: &MarkerSpec, cell: (usize, usize)) -> int {
    cell.0 * marker.sector_count + cell.1
}

/// A grid with the first `m` of some cells flipped.
pub open spec fn flipped(
    marker: &MarkerSpec,
    grid: Seq<u8>,
    cells: Seq<(usize, usize)>,
    m: nat,
) -> Seq<u8>
    decreases m,
{
    if m == 0 {
        grid
    } else {
        let before = flipped(marker, grid, cells, (m - 1) as nat);
        let i = cell_index(marker, cells[m - 1]);
        before.update(i, before[i] ^ 1)
    }
}

/// Where a cell stands is no negative number.
proof fn lemma_cell_index(marker: &MarkerSpec, cell: (usize, usize))
    ensures
        0 <= cell.0 * marker.sector_count <= cell_index(marker, cell),
{
    assert(0 <= cell.0 * marker.sector_count) by (nonlinear_arith)
        requires
            0 <= cell.0,
            0 <= marker.sector_count,
    ;
}

/// A cell of a ring and a sector that there are stands in the grid.
proof fn lemma_cell_on_grid(marker: &MarkerSpec, cell: (usize, usize))
    requires
        cell.0 < marker.ring_count,
        cell.1 < marker.sector_count,
    ensures
        cell_index(marker, cell) < marker.cells(),
{
    crate::image::lemma_index(
        marker.sector_count as int,
        marker.ring_count as int,
        cell.1 as int,
        cell.0 as int,
    );
    assert(marker.ring_count * marker.sector_count == marker.sector_count * marker.ring_count)
        by (nonlinear_arith);
}

/// Flips cells of a grid, one after the other.
pub fn flip_cells(grid: &mut Vec<u8>, marker: &MarkerSpec, cells: &[(usize, usize)])
    requires
        old(grid)@.len() == marker.cells(),
        on_grid(marker, cells@),
    ensures
        final(grid)@ == flipped(marker, old(grid)@, cells@, cells@.len()),
        final(grid)@.len() == old(grid)@.len(),
{
    let ghost before = grid@;
    let len = grid.len();
    let mut i: usize = 0;
    while i < cells.len()
        invariant
            len == marker.cells(),
            grid@.len() == marker.cells(),
            on_grid(marker, cells@),
            i <= cells@.len(),
            grid@ == flipped(marker, before, cells@, i as nat),
        decreases cells.len() - i,
    {
        let c = cells[i];
        proof {
            assert(cell_index(marker, cells@[i as int]) < marker.cells());
            lemma_cell_index(marker, c);
        }
        let at = c.0 * marker.sector_count + c.1;
        let v = grid[at];
        grid.set(at, v ^ 1);
        i += 1;
    }
}

/// Flipping a cell twice leaves it as it was.
pub proof fn law_flip_twice(v: u8)
    ensures
        (v ^ 1) ^ 1 == v,
{
    xor_cancel(v, 1);
}

/// Whether a position of the grid is one of some cells.
pub open spec fn is_marked(marker: &MarkerSpec, cells: Seq<(usize, usize)>, i: int) -> bool {
    exists|k: int| 0 <= k < cells.len() && cell_index(marker, #[trigger] cells[k]) == i
}

/// Marks for some cells of a grid.
pub fn mark_cells(marker: &MarkerSpec, cells: &[(usize, usize)]) -> (marks: Vec<bool>)
    requires
        marker.wf(),
        on_grid(marker, cells@),
    ensures
        marks@ == Seq::new(marker.cells(), |i: int| is_marked(marker, cells@, i)),
{
    proof {
        lemma_sizes(marker);
    }
    let len = marker.ring_count * marker.sector_count;
    let mut marks: Vec<bool> = Vec::new();
    let mut i: usize = 0;
    while i < len
        invariant
            i <= len,
            marks@.len() == i,
            forall|k: int| 0 <= k < i ==> !#[trigger] marks@[k],
        decreases len - i,
    {
        marks.push(false);
        i += 1;
    }
    let mut m: usize = 0;
    while m < cells.len()
        invariant
            len == marker.cells(),
            marks@.len() == len,
            on_grid(marker, cells@),
            m <= cells@.len(),
            forall|k: int|
                0 <= k < len ==> #[trigger] marks@[k] == is_marked(
                    marker,
                    cells@.take(m as int),
                    k,
                ),
        decreases cells.len() - m,
    {
        let c = cells[m];
        proof {
            assert(cell_index(marker, cells@[m as int]) < marker.cells());
            lemma_cell_index(marker, c);
        }
        let at = c.0 * marker.sector_count + c.1;
        let ghost before = marks@;
        marks.set(at, true);
        proof {
            let (a, b) = (cells@.take(m as int), cells@.take(m + 1));
            assert forall|k: int| 0 <= k < len implies #[trigger] marks@[k] == is_marked(
                marker,
                b,
                k,
            ) by {
                assert(before[k] == is_marked(marker, a, k));
                if is_marked(marker, a, k) {
                    let t = choose|t: int|
                        0 <= t < a.len() && cell_index(marker, #[trigger] a[t]) == k;
                    assert(b[t] == a[t]);
                }
                if k == at {
                    assert(b[m as int] == c);
                }
                if is_marked(marker, b, k) {
                    let t = choose|t: int|
                        0 <= t < b.len() && cell_index(marker, #[trigger] b[t]) == k;
                    if t < m {
                        assert(a[t] == b[t]);
                    }
                }
            }
        }
        m += 1;
    }
    assert(cells@.take(m as int) =~= cells@);
    assert(marks@ =~= Seq::new(marker.cells(), |i: int| is_marked(marker, cells@, i)));
    marks
}

/// A randomized round trip and its outcome.
#[derive(Debug)]
pub struct Case {
    /// The payload.
    pub payload: Vec<u8>,
    /// By how many sectors the grid was turned.
    pub shift: usize,
    /// The cells that were flipped, in order.
    pub flips: Vec<(usize, usize)>,
    /// The cells that were marked as unreliable, in ascending order.
    pub erasures: Vec<(usize, usize)>,
    /// The payload that came out.
    pub out: Option<Vec<u8>>,
    /// The rotation that came out.
    pub out_shift: usize,
}

/// The payload that is drawn from a state.
pub open spec fn drawn_payload(x: u64, n: nat) -> Seq<u8> {
    Seq::new(n, |j: int| (draw(x, (j + 1) as nat) as nat % 256) as u8)
}

/// The cells that are drawn after `k` numbers: the ring from `first` on.
pub open spec fn drawn_cells(
    x: u64,
    k: nat,
    m: nat,
    first: nat,
    rings: nat,
    sectors: nat,
) -> Seq<(usize, usize)> {
    Seq::new(
        m,
        |j: int|
            (
                (first + draw(x, (k + 2 * j + 1) as nat) as nat % rings) as usize,
                (draw(x, (k + 2 * j + 2) as nat) as nat % sectors) as usize,
            ),
    )
}

/// Whether cell `a` comes before cell `b`.
pub open spec fn cell_before(a: (usize, usize), b: (usize, usize)) -> bool {
    a.0 < b.0 || (a.0 == b.0 && a.1 < b.1)
}

/// Whether a list has the members of another, each once, in ascending order.
pub open spec fn sorts(list: Seq<(usize, usize)>, drawn: Seq<(usize, usize)>) -> bool {
    &&& forall|i: int, j: int|
        0 <= i < j < list.len() ==> cell_before(#[trigger] list[i], #[trigger] list[j])
    &&& forall|c: (usize, usize)| #[trigger] list.contains(c) <==> drawn.contains(c)
}

/// Draws cells.
fn draw_cells(rng: &mut XorShift, m: usize, first: usize, rings: usize, sectors: usize) -> (r: Vec<
    (usize, usize),
>)
    requires
        rings >= 1,
        sectors >= 1,
        first + rings <= 0x7fff_ffff,
    ensures
        r@ == drawn_cells(
            old(rng).0,
            0,
            m as nat,
            first as nat,
            rings as nat,
            sectors as nat,
        ),
        final(rng).0 == draw(old(rng).0, (2 * m) as nat),
        forall|i: int|
            0 <= i < r@.len() ==> first <= (#[trigger] r@[i]).0 < first + rings && r@[i].1
                < sectors,
{
    let ghost x = rng.0;
    let mut r: Vec<(usize, usize)> = Vec::new();
    let mut i: usize = 0;
    while i < m
        invariant
            rings >= 1,
            sectors >= 1,
            first + rings <= 0x7fff_ffff,
            i <= m,
            rng.0 == draw(x, (2 * i) as nat),
            r@ == drawn_cells(x, 0, i as nat, first as nat, rings as nat, sectors as nat),
            forall|i: int|
                0 <= i < r@.len() ==> first <= (#[trigger] r@[i]).0 < first + rings && r@[i].1
                    < sectors,
        decreases m - i,
    {
        proof {
            assert(draw(x, (2 * i + 1) as nat) == shifted(draw(x, (2 * i) as nat)));
            assert(draw(x, (2 * i + 2) as nat) == shifted(draw(x, (2 * i + 1) as nat)));
        }
        let a = first + rng.below(rings);
        let b = rng.below(sectors);
        r.push((a, b));
        i += 1;
        assert(r@ =~= drawn_cells(x, 0, i as nat, first as nat, rings as nat, sectors as nat));
    }
    r
}

/// Numbers drawn in two stages.
proof fn lemma_draw_add(x: u64, a: nat, b: nat)
    ensures
        draw(draw(x, a), b) == draw(x, a + b),
    decreases b,
{
    if b > 0 {
        lemma_draw_add(x, a, (b - 1) as nat);
    }
}

/// Cells drawn in a later stage.
proof fn lemma_drawn_cells(x: u64, k: nat, m: nat, first: nat, rings: nat, sectors: nat)
    ensures
        drawn_cells(draw(x, k), 0, m, first, rings, sectors) == drawn_cells(
            x,
            k,
            m,
            first,
            rings,
            sectors,
        ),
{
    let (a, b) = (
        drawn_cells(draw(x, k), 0, m, first, rings, sectors),
        drawn_cells(x, k, m, first, rings, sectors),
    );
    assert forall|j: int| 0 <= j < m implies a[j] == b[j] by {
        lemma_draw_add(x, k, (2 * j + 1) as nat);
        lemma_draw_add(x, k, (2 * j + 2) as nat);
    }
    assert(a =~= b);
}

/// The members of a list, each once, in ascending order.
fn sort_cells(drawn: &Vec<(usize, usize)>) -> (list: Vec<(usize, usize)>)
    ensures
        sorts(list@, drawn@),
{
    let mut list: Vec<(usize, usize)> = Vec::new();
    let mut i: usize = 0;
    while i < drawn.len()
        invariant
            i <= drawn@.len(),
            sorts(list@, drawn@.take(i as int)),
        decreases drawn.len() - i,
    {
        let c = drawn[i];
        let ghost before = list@;
        let mut at: usize = 0;
        while at < list.len() && (list[at].0 < c.0 || (list[at].0 == c.0 && list[at].1 < c.1))
            invariant
                at <= list@.len(),
                forall|k: int| 0 <= k < at ==> cell_before(#[trigger] list@[k], c),
            decreases list.len() - at,
        {
            at += 1;
        }
        let ghost t = drawn@.take(i + 1);
        proof {
            lemma_take_contains(drawn@, i as int);
        }
        if at < list.len() && list[at].0 == c.0 && list[at].1 == c.1 {
            assert(list@[at as int] == c);
            assert(list@.contains(c));
        } else {
            list.insert(at, c);
            proof {
                assert forall|a: int, b: int| 0 <= a < b < list@.len() implies cell_before(
                    #[trigger] list@[a],
                    #[trigger] list@[b],
                ) by {
                    let (u, v) = (
                        if a < at {
                            a
                        } else {
                            a - 1
                        },
                        if b < at {
                            b
                        } else {
                            b - 1
                        },
                    );
                    if a != at && b != at {
                        assert(list@[a] == before[u] && list@[b] == before[v]);
                        assert(cell_before(before[u], before[v]));
                    } else if b == at {
                        assert(list@[a] == before[a]);
                    } else {
                        assert(list@[b] == before[v]);
                        if at < v {
                            assert(cell_before(before[at as int], before[v]));
                        }
                    }
                }
                assert forall|d: (usize, usize)| #[trigger] list@.contains(d) <==> t.contains(d) by {
                    if list@.contains(d) {
                        let k = choose|k: int| 0 <= k < list@.len() && list@[k] == d;
                        if k < at {
                            assert(before[k] == d);
                            assert(before.contains(d));
                        } else if k > at {
                            assert(before[k - 1] == d);
                            assert(before.contains(d));
                        }
                    }
                    if before.contains(d) {
                        let k = choose|k: int| 0 <= k < before.len() && before[k] == d;
                        if k < at {
                            assert(list@[k] == d);
                        } else {
                            assert(list@[k + 1] == d);
                        }
                    }
                    if d == c {
                        assert(list@[at as int] == d);
                    }
                }
            }
        }
        i += 1;
    }
    assert(drawn@.take(i as int) =~= drawn@);
    list
}

/// What one more entry adds.
proof fn lemma_take_contains(s: Seq<(usize, usize)>, i: int)
    requires
        0 <= i < s.len(),
    ensures
        forall|c: (usize, usize)| #[trigger]
            s.take(i + 1).contains(c) <==> s.take(i).contains(c) || c == s[i],
{
    let (a, b) = (s.take(i), s.take(i + 1));
    assert forall|c: (usize, usize)| #[trigger] b.contains(c) <==> a.contains(c) || c == s[i] by {
        if b.contains(c) {
            let k = choose|k: int| 0 <= k < b.len() && b[k] == c;
            if k < i {
                assert(a[k] == c);
            }
        }
        if a.contains(c) {
            let k = choose|k: int| 0 <= k < a.len() && a[k] == c;
            assert(b[k] == c);
        }
        if c == s[i] {
            assert(b[i] == c);
        }
    }
}

/// The grid of a payload, turned by a number of sectors, with cells flipped.
pub open spec fn damaged(
    marker: &MarkerSpec,
    payload: Seq<u8>,
    shift: int,
    flips: Seq<(usize, usize)>,
) -> Seq<u8> {
    flipped(
        marker,
        marker.rolled(
            marker.grid_of(payload),
            (marker.sector_count - shift) % (marker.sector_count as int),
        ),
        flips,
        flips.len(),
    )
}

/// The marks of unreliable cells, if there are any.
pub open spec fn marks_of(marker: &MarkerSpec, cells: Seq<(usize, usize)>) -> Option<Seq<bool>> {
    if cells.len() == 0 {
        None
    } else {
        Some(Seq::new(marker.cells(), |i: int| is_marked(marker, cells, i)))
    }
}

/// Writes a payload as a grid, turns the grid and flips cells of it.
pub fn damage(
    payload: &[u8],
    marker: &MarkerSpec,
    shift: usize,
    flips: &[(usize, usize)],
) -> (r: Result<Vec<u8>, CodecError>)
    requires
        marker.wf(),
        shift < marker.sector_count,
        on_grid(marker, flips@),
    ensures
        match r {
            Ok(grid) => marker.encodable(payload@) && grid@ == damaged(
                marker,
                payload@,
                shift as int,
                flips@,
            ) && grid@.len() == marker.cells(),
            Err(e) => marker.refuses(payload@, e),
        },
{
    match encode(payload, marker) {
        Err(e) => Err(e),
        Ok(grid) => {
            let mut turned = turn_grid(&grid, marker, shift);
            flip_cells(&mut turned, marker, flips);
            Ok(turned)
        },
    }
}

/// Writes a payload as a grid, turns the grid, flips cells of it, and reads it
/// with some cells marked as unreliable.
pub fn replay(
    payload: &[u8],
    marker: &MarkerSpec,
    shift: usize,
    flips: &[(usize, usize)],
    erasures: &[(usize, usize)],
) -> (r: Result<(Option<Vec<u8>>, usize), CodecError>)
    requires
        marker.wf(),
        shift < marker.sector_count,
        on_grid(marker, flips@),
        on_grid(marker, erasures@),
    ensures
        match r {
            Ok((out, out_shift)) => marker.encodable(payload@) && ({
                let (hit, rotation) = marker.decoded_grid(
                    damaged(marker, payload@, shift as int, flips@),
                    marks_of(marker, erasures@),
                );
                out_shift == rotation && match (out, hit) {
                    (Some(p), Some(q)) => p@ == q,
                    (None, None) => true,
                    _ => false,
                }
            }),
            Err(e) => marker.refuses(payload@, e),
        },
{
    match damage(payload, marker, shift, flips) {
        Err(e) => Err(e),
        Ok(grid) => if erasures.len() == 0 {
            Ok(decode(&grid, marker, None))
        } else {
            let marks = mark_cells(marker, erasures);
            Ok(decode(&grid, marker, Some(&marks)))
        },
    }
}

/// Draws bytes.
fn draw_payload(rng: &mut XorShift, nb: usize) -> (payload: Vec<u8>)
    ensures
        payload@ == drawn_payload(old(rng).0, nb as nat),
        final(rng).0 == draw(old(rng).0, nb as nat),
{
    let ghost x = rng.0;
    let mut payload: Vec<u8> = Vec::new();
    let mut i: usize = 0;
    while i < nb
        invariant
            i <= nb,
            rng.0 == draw(x, i as nat),
            payload@ == drawn_payload(x, i as nat),
        decreases nb - i,
    {
        assert(draw(x, (i + 1) as nat) == shifted(draw(x, i as nat)));
        payload.push(rng.below(256) as u8);
        i += 1;
        assert(payload@ =~= drawn_payload(x, i as nat));
    }
    payload
}

/// Whether a round trip is the one that is drawn from state `x` on, and leads
/// to state `end`.
pub open spec fn is_drawn(
    marker: &MarkerSpec,
    x: u64,
    payload: Seq<u8>,
    shift: int,
    flips: Seq<(usize, usize)>,
    erasures: Seq<(usize, usize)>,
    end: u64,
) -> bool {
    let nb = marker.bytes();
    let n = marker.sector_count as nat;
    let flip_count = draw(x, nb + 2) as nat % (marker.rs_nsym as nat + 2);
    let k = nb + 2 + 2 * flip_count;
    let mark_count = draw(x, k + 1) as nat % 4;
    &&& payload == drawn_payload(x, nb)
    &&& shift == draw(x, nb + 1) as nat % n
    &&& flips == drawn_cells(x, nb + 2, flip_count, marker.first_ring(), marker.data_rings(), n)
    &&& sorts(erasures, drawn_cells(x, k + 1, mark_count, 0, marker.ring_count as nat, n))
    &&& end == draw(x, k + 1 + 2 * mark_count)
}

/// Draws the payload of a round trip, its rotation, the cells to flip and the
/// cells to mark.
fn draw_trip(rng: &mut XorShift, marker: &MarkerSpec) -> (r: (
    Vec<u8>,
    usize,
    Vec<(usize, usize)>,
    Vec<(usize, usize)>,
))
    requires
        marker.wf(),
    ensures
        is_drawn(marker, old(rng).0, r.0@, r.1 as int, r.2@, r.3@, final(rng).0),
        r.1 < marker.sector_count,
        on_grid(marker, r.2@),
        on_grid(marker, r.3@),
{
    let ghost x = rng.0;
    proof {
        lemma_sizes(marker);
    }
    let nb = marker.payload_bytes();
    let n = marker.sector_count;
    let payload = draw_payload(rng, nb);
    proof {
        assert(draw(x, (nb + 1) as nat) == shifted(draw(x, nb as nat)));
        assert(draw(x, (nb + 2) as nat) == shifted(draw(x, (nb + 1) as nat)));
    }
    let shift = rng.below(n);
    let count = rng.below(marker.rs_nsym + 2);
    let first = marker.first_data_ring();
    let flips = draw_cells(rng, count, first, marker.ring_count - first, n);
    let ghost k = (nb + 2 + 2 * count) as nat;
    proof {
        lemma_drawn_cells(
            x,
            (nb + 2) as nat,
            count as nat,
            marker.first_ring(),
            marker.data_rings(),
            n as nat,
        );
        lemma_draw_add(x, (nb + 2) as nat, (2 * count) as nat);
        assert(draw(x, k + 1) == shifted(draw(x, k)));
    }
    let marks_drawn = rng.below(4);
    let drawn = draw_cells(rng, marks_drawn, 0, marker.ring_count, n);
    proof {
        lemma_drawn_cells(
            x,
            k + 1,
            marks_drawn as nat,
            0,
            marker.ring_count as nat,
            n as nat,
        );
        lemma_draw_add(x, k + 1, (2 * marks_drawn) as nat);
    }
    let erasures = sort_cells(&drawn);
    proof {
        assert forall|i: int| 0 <= i < erasures@.len() implies cell_index(
            marker,
            #[trigger] erasures@[i],
        ) < marker.cells() by {
            assert(erasures@.contains(erasures@[i]));
            let j = choose|j: int| 0 <= j < drawn@.len() && drawn@[j] == erasures@[i];
            assert(drawn@[j].0 < marker.ring_count);
            lemma_cell_on_grid(marker, erasures@[i]);
        }
        assert forall|i: int| 0 <= i < flips@.len() implies cell_index(
            marker,
            #[trigger] flips@[i],
        ) < marker.cells() by {
            lemma_cell_on_grid(marker, flips@[i]);
        }
    }
    (payload, shift, flips, erasures)
}

/// Draws a round trip and runs it.
pub fn random_case(rng: &mut XorShift, marker: &MarkerSpec) -> (case: Case)
    requires
        marker.wf(),
        marker.bits() % 8 == 0,
    ensures
        is_drawn(
            marker,
            old(rng).0,
            case.payload@,
            case.shift as int,
            case.flips@,
            case.erasures@,
            final(rng).0,
        ),
        ({
            let (out, shift) = marker.decoded_grid(
                damaged(marker, case.payload@, case.shift as int, case.flips@),
                marks_of(marker, case.erasures@),
            );
            &&& case.out_shift == shift
            &&& match (case.out, out) {
                (Some(p), Some(q)) => p@ == q,
                (None, None) => true,
                _ => false,
            }
        }),
{
    let (payload, shift, flips, erasures) = draw_trip(rng, marker);
    proof {
        law_whole_bytes_encodable(marker, payload@);
    }
    let (out, out_shift) = match replay(&payload, marker, shift, &flips, &erasures) {
        Ok(r) => r,
        Err(_) => (None, 0),
    };
    Case { payload, shift, flips, erasures, out, out_shift }
}

} // verus!
