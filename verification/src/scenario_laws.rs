//! What damaged grids guarantee.
use crate::codec::lemma_sizes;
use crate::codec_laws::{law_decode_conf_undoes_encode, law_decode_undoes_encode};
use crate::marker::MarkerSpec;
use crate::scenario::{
    cell_index, damaged, draw, drawn_cells, flipped, is_drawn, is_marked, marks_of, on_grid,
};
use vstd::prelude::*;

verus! {

/// Whether cells stand at different places of the grid.
pub open spec fn cells_differ(m: &MarkerSpec, cells: Seq<(usize, usize)>) -> bool {
    forall|i: int, j: int|
        0 <= i < j < cells.len() ==> cell_index(m, #[trigger] cells[i]) != cell_index(
            m,
            #[trigger] cells[j],
        )
}

/// Flipping cells changes the lowest bit of those cells and nothing else.
pub proof fn law_flipped_cells(
    m: &MarkerSpec,
    grid: Seq<u8>,
    cells: Seq<(usize, usize)>,
    n: nat,
    i: int,
)
    requires
        grid.len() == m.cells(),
        on_grid(m, cells),
        cells_differ(m, cells),
        n <= cells.len(),
        0 <= i < grid.len(),
    ensures
        flipped(m, grid, cells, n).len() == grid.len(),
        flipped(m, grid, cells, n)[i] == if exists|k: int|
            0 <= k < n && cell_index(m, #[trigger] cells[k]) == i {
            grid[i] ^ 1
        } else {
            grid[i]
        },
    decreases n,
{
    if n > 0 {
        law_flipped_cells(m, grid, cells, (n - 1) as nat, i);
        let before = flipped(m, grid, cells, (n - 1) as nat);
        let c = cells[n - 1];
        let at = cell_index(m, c);
        assert(0 <= at) by {
            assert(0 <= c.0 * m.sector_count) by (nonlinear_arith);
        }
        if at == i {
            if exists|k: int| 0 <= k < n - 1 && cell_index(m, #[trigger] cells[k]) == i {
                let k = choose|k: int| 0 <= k < n - 1 && cell_index(m, #[trigger] cells[k]) == i;
                assert(cell_index(m, cells[k]) != cell_index(m, cells[n - 1]));
            }
            assert(cell_index(m, cells[n - 1]) == i);
        } else {
            if exists|k: int| 0 <= k < n && cell_index(m, #[trigger] cells[k]) == i {
                let k = choose|k: int| 0 <= k < n && cell_index(m, #[trigger] cells[k]) == i;
                assert(k < n - 1);
            }
        }
    }
}

/// Flipping cells twice changes nothing.
pub proof fn law_flipped_twice(m: &MarkerSpec, grid: Seq<u8>, cells: Seq<(usize, usize)>)
    requires
        grid.len() == m.cells(),
        on_grid(m, cells),
        cells_differ(m, cells),
    ensures
        flipped(m, flipped(m, grid, cells, cells.len()), cells, cells.len()) == grid,
{
    let n = cells.len();
    let once = flipped(m, grid, cells, n);
    let twice = flipped(m, once, cells, n);
    if grid.len() > 0 {
        law_flipped_cells(m, grid, cells, n, 0);
        law_flipped_cells(m, once, cells, n, 0);
        assert forall|i: int| 0 <= i < grid.len() implies twice[i] == grid[i] by {
            law_flipped_cells(m, grid, cells, n, i);
            law_flipped_cells(m, once, cells, n, i);
            crate::scenario::law_flip_twice(grid[i]);
        }
    } else if n > 0 {
        assert(cell_index(m, cells[0]) < m.cells());
        assert(0 <= cells[0].0 * m.sector_count) by (nonlinear_arith);
    }
    assert(twice =~= grid);
}

/// A cell is marked if and only if it is listed, by its ring and sector.
pub proof fn law_marked_cells(m: &MarkerSpec, cells: Seq<(usize, usize)>, ring: usize, sector: usize)
    requires
        m.wf(),
        forall|k: int| 0 <= k < cells.len() ==> (#[trigger] cells[k]).1 < m.sector_count,
        ring < m.ring_count,
        sector < m.sector_count,
    ensures
        is_marked(m, cells, ring * m.sector_count + sector) <==> cells.contains((ring, sector)),
{
    let n = m.sector_count as int;
    let at = ring * m.sector_count + sector;
    if is_marked(m, cells, at) {
        let k = choose|k: int| 0 <= k < cells.len() && cell_index(m, #[trigger] cells[k]) == at;
        let (r, s) = cells[k];
        vstd::arithmetic::div_mod::lemma_fundamental_div_mod_converse(
            at,
            n,
            ring as int,
            sector as int,
        );
        vstd::arithmetic::div_mod::lemma_fundamental_div_mod_converse(at, n, r as int, s as int);
        assert(cells[k] == (ring, sector));
    }
    if cells.contains((ring, sector)) {
        let k = choose|k: int| 0 <= k < cells.len() && cells[k] == (ring, sector);
        assert(cell_index(m, cells[k]) == at);
    }
}

/// A grid that is only turned is read back, whichever cells are marked, and the
/// rotation that is found is the one by which it was turned.
pub proof fn law_turned_reads_back(
    m: &MarkerSpec,
    payload: Seq<u8>,
    shift: int,
    cells: Seq<(usize, usize)>,
)
    requires
        m.wf(),
        m.has_sync,
        m.sync_unique(),
        m.encodable(payload),
        0 <= shift < m.sector_count,
    ensures
        m.decoded_grid(damaged(m, payload, shift, seq![]), marks_of(m, cells)) == (
            Some(payload),
            shift,
        ),
{
    let n = m.sector_count as int;
    let turned = (n - shift) % n;
    lemma_turned(n, shift);
    law_decode_undoes_encode(m, payload, turned, marks_of(m, cells));
}

/// The same with confidences.
pub proof fn law_turned_reads_back_conf(
    m: &MarkerSpec,
    payload: Seq<u8>,
    shift: int,
    conf: Seq<u32>,
    threshold: u32,
)
    requires
        m.wf(),
        m.has_sync,
        m.sync_unique(),
        m.encodable(payload),
        0 <= shift < m.sector_count,
    ensures
        m.decoded_ranked(damaged(m, payload, shift, seq![]), conf, threshold).0 matches Some(
            (p, stats),
        ) && p == payload && stats.corrected == 0,
        m.decoded_ranked(damaged(m, payload, shift, seq![]), conf, threshold).1 == shift,
{
    let n = m.sector_count as int;
    let turned = (n - shift) % n;
    lemma_turned(n, shift);
    law_decode_conf_undoes_encode(m, payload, turned, conf, threshold);
}

/// Turning back and forth.
proof fn lemma_turned(n: int, shift: int)
    requires
        0 <= shift < n,
    ensures
        0 <= (n - shift) % n < n,
        (n - (n - shift) % n) % n == shift,
{
    if shift == 0 {
        vstd::arithmetic::div_mod::lemma_mod_self_0(n);
    } else {
        vstd::arithmetic::div_mod::lemma_small_mod((n - shift) as nat, n as nat);
        vstd::arithmetic::div_mod::lemma_small_mod(shift as nat, n as nat);
    }
}

/// A round trip that is drawn is one that can be made: the payload has the right
/// length, the rotation is one of the grid, the cells that are flipped are data
/// cells, at most one more than there are parity symbols, and at most three cells
/// are marked.
pub proof fn law_drawn_trip(
    m: &MarkerSpec,
    x: u64,
    payload: Seq<u8>,
    shift: int,
    flips: Seq<(usize, usize)>,
    erasures: Seq<(usize, usize)>,
    end: u64,
)
    requires
        m.wf(),
        is_drawn(m, x, payload, shift, flips, erasures, end),
    ensures
        payload.len() == m.bytes(),
        0 <= shift < m.sector_count,
        flips.len() <= m.rs_nsym + 1,
        forall|i: int|
            0 <= i < flips.len() ==> m.first_ring() <= (#[trigger] flips[i]).0 < m.ring_count
                && flips[i].1 < m.sector_count,
        erasures.len() <= 3,
        forall|i: int|
            0 <= i < erasures.len() ==> (#[trigger] erasures[i]).0 < m.ring_count && erasures[i].1
                < m.sector_count,
{
    lemma_sizes(m);
    let nb = m.bytes();
    let n = m.sector_count as nat;
    let count = draw(x, nb + 2) as nat % (m.rs_nsym as nat + 2);
    let k = nb + 2 + 2 * count;
    let marks = draw(x, k + 1) as nat % 4;
    let drawn = drawn_cells(x, k + 1, marks, 0, m.ring_count as nat, n);
    assert forall|i: int| 0 <= i < flips.len() implies m.first_ring() <= (#[trigger] flips[i]).0
        < m.ring_count && flips[i].1 < m.sector_count by {
        lemma_remainder(draw(x, (nb + 2 + 2 * i + 1) as nat) as nat, m.data_rings());
        lemma_remainder(draw(x, (nb + 2 + 2 * i + 2) as nat) as nat, n);
    }
    assert forall|i: int| 0 <= i < erasures.len() implies (#[trigger] erasures[i]).0 < m.ring_count
        && erasures[i].1 < m.sector_count && drawn.contains(erasures[i]) by {
        assert(erasures.contains(erasures[i]));
        let j = choose|j: int| 0 <= j < drawn.len() && drawn[j] == erasures[i];
        lemma_remainder(draw(x, (k + 1 + 2 * j + 1) as nat) as nat, m.ring_count as nat);
        lemma_remainder(draw(x, (k + 1 + 2 * j + 2) as nat) as nat, n);
    }
    assert(erasures.no_duplicates()) by {
        assert forall|i: int, j: int|
            0 <= i < erasures.len() && 0 <= j < erasures.len() && i != j implies erasures[i]
            != erasures[j] by {
            if i < j {
                assert(crate::scenario::cell_before(erasures[i], erasures[j]));
            } else {
                assert(crate::scenario::cell_before(erasures[j], erasures[i]));
            }
        }
    }
    erasures.unique_seq_to_set();
    drawn.lemma_cardinality_of_set();
    assert(erasures.to_set().subset_of(drawn.to_set()));
    vstd::set_lib::lemma_len_subset(erasures.to_set(), drawn.to_set());
}

/// The numbers of a round trip are used in the order in which they are drawn: a
/// byte of the payload each, the rotation, how many cells are flipped, the ring
/// and the sector of each, how many are marked, and the ring and the sector of
/// each.
pub proof fn law_numbers_used_in_order(
    m: &MarkerSpec,
    x: u64,
    payload: Seq<u8>,
    shift: int,
    flips: Seq<(usize, usize)>,
    erasures: Seq<(usize, usize)>,
    end: u64,
    i: int,
)
    requires
        m.wf(),
        is_drawn(m, x, payload, shift, flips, erasures, end),
    ensures
        ({
            let b = m.bytes() as int;
            let f = b + 2 + 2 * flips.len();
            let count = draw(x, (f + 1) as nat) as nat % 4;
            &&& 0 <= i < b ==> payload[i] == draw(x, (i + 1) as nat) as nat % 256
            &&& shift == draw(x, (b + 1) as nat) as nat % (m.sector_count as nat)
            &&& flips.len() == draw(x, (b + 2) as nat) as nat % (m.rs_nsym as nat + 2)
            &&& 0 <= i < flips.len() ==> {
                &&& flips[i].0 - m.first_ring() == draw(x, (b + 3 + 2 * i) as nat) as nat
                    % m.data_rings()
                &&& flips[i].1 == draw(x, (b + 4 + 2 * i) as nat) as nat % (m.sector_count as nat)
            }
            &&& 0 <= i < count ==> erasures.contains(
                (
                    (draw(x, (f + 2 + 2 * i) as nat) as nat % (m.ring_count as nat)) as usize,
                    (draw(x, (f + 3 + 2 * i) as nat) as nat % (m.sector_count as nat)) as usize,
                ),
            )
            &&& end == draw(x, (f + 1 + 2 * count) as nat)
        }),
{
    lemma_sizes(m);
    let nb = m.bytes();
    let n = m.sector_count as nat;
    let count = draw(x, nb + 2) as nat % (m.rs_nsym as nat + 2);
    let k = nb + 2 + 2 * count;
    let marks = draw(x, k + 1) as nat % 4;
    let drawn = drawn_cells(x, k + 1, marks, 0, m.ring_count as nat, n);
    if 0 <= i < nb {
        lemma_remainder(draw(x, (i + 1) as nat) as nat, 256);
    }
    if 0 <= i < flips.len() {
        assert(nb + 2 + 2 * i + 1 == nb + 3 + 2 * i && nb + 2 + 2 * i + 2 == nb + 4 + 2 * i);
        lemma_remainder(draw(x, (nb + 2 + 2 * i + 1) as nat) as nat, m.data_rings());
        lemma_remainder(draw(x, (nb + 2 + 2 * i + 2) as nat) as nat, n);
    }
    if 0 <= i < marks {
        assert(k + 1 + 2 * i + 1 == k + 2 + 2 * i && k + 1 + 2 * i + 2 == k + 3 + 2 * i);
        assert(drawn.contains(drawn[i]));
    }
}

/// Remainders are below the divisor.
proof fn lemma_remainder(a: nat, n: nat)
    requires
        n >= 1,
    ensures
        a % n < n,
{
    vstd::arithmetic::div_mod::lemma_mod_bound(a as int, n as int);
}

} // verus!
