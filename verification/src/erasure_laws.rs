//! Which symbols are erased, which rotation is found, and where the bits of a
//! codeword stand, in terms of rings and sectors.
use crate::codec::{
    correlation, correlations, differences, first_best, first_hit, least, lemma_cell, lemma_listed,
    lemma_sizes, listed, parities, rank, sign, CodecError,
};
use crate::codec_laws::lemma_codeword;
use crate::detector::{best_correlation, syncs};
use crate::digits::{all_digits, digits, power, value};
use crate::marker::MarkerSpec;
use vstd::prelude::*;

verus! {

/// The numbers below `n` that satisfy `p`.
pub open spec fn those(p: spec_fn(int) -> bool, n: nat) -> Set<int> {
    Set::new(|i: int| 0 <= i < n && p(i))
}

/// One more number.
proof fn lemma_those(p: spec_fn(int) -> bool, n: nat)
    ensures
        those(p, 0) == Set::<int>::empty(),
        n > 0 ==> those(p, n) == (if p(n - 1) {
            those(p, (n - 1) as nat).insert(n - 1)
        } else {
            those(p, (n - 1) as nat)
        }),
        n > 0 ==> !those(p, (n - 1) as nat).contains(n - 1),
{
    assert(those(p, 0) =~= Set::<int>::empty());
    if n > 0 {
        let before = those(p, (n - 1) as nat);
        if p(n - 1) {
            assert(those(p, n) =~= before.insert(n - 1));
        } else {
            assert(those(p, n) =~= before);
        }
    }
}

/// A list is as long as the set of what it lists.
proof fn lemma_listed_those(p: spec_fn(int) -> bool, n: nat)
    ensures
        those(p, n).finite(),
        those(p, n).len() == listed(p, n).len(),
    decreases n,
{
    lemma_those(p, n);
    if n > 0 {
        lemma_listed_those(p, (n - 1) as nat);
    }
}

/// Whether entry `j` comes before entry `i` in ascending order, equal ones by
/// their positions.
pub open spec fn weaker(s: Seq<u32>, i: int) -> spec_fn(int) -> bool {
    |j: int| s[j] < s[i] || (s[j] == s[i] && j < i)
}

/// The rank is the number of entries that come before.
proof fn lemma_rank_those(s: Seq<u32>, i: int, n: nat)
    ensures
        those(weaker(s, i), n).finite(),
        those(weaker(s, i), n).len() == rank(s, i, n),
    decreases n,
{
    lemma_those(weaker(s, i), n);
    if n > 0 {
        lemma_rank_those(s, i, (n - 1) as nat);
    }
}

/// The number of corrected symbols is the number of positions at which what was
/// read differs from the codeword.
pub proof fn law_differences_counted(a: Seq<u8>, b: Seq<u8>, n: nat)
    ensures
        those(|i: int| a[i] != b[i], n).finite(),
        differences(a, b, n) == those(|i: int| a[i] != b[i], n).len(),
    decreases n,
{
    lemma_those(|i: int| a[i] != b[i], n);
    if n > 0 {
        law_differences_counted(a, b, (n - 1) as nat);
    }
}

/// The symbol that a data cell belongs to: bits run through the sectors, and in
/// each sector from the first data ring outwards.
pub open spec fn symbol_of(m: &MarkerSpec, ring: int, sector: int) -> int {
    (sector * m.data_rings() + ring - m.first_ring()) / (m.symbol_bits as int)
}

/// Whether there is such a data cell.
pub open spec fn is_data_cell(m: &MarkerSpec, ring: int, sector: int) -> bool {
    m.first_ring() <= ring < m.ring_count && 0 <= sector < m.sector_count
}

/// Where a cell stands in the order of bits.
proof fn lemma_bit_of(m: &MarkerSpec, ring: int, sector: int) -> (k: int)
    requires
        m.wf(),
        is_data_cell(m, ring, sector),
    ensures
        k == sector * m.data_rings() + ring - m.first_ring(),
        0 <= k < m.data_cells(),
        m.cell(k) == ring * m.sector_count + sector,
        symbol_of(m, ring, sector) == k / (m.symbol_bits as int),
        0 <= symbol_of(m, ring, sector) < m.code_len(),
{
    lemma_sizes(m);
    let (dr, n, f) = (m.data_rings() as int, m.sector_count as int, m.first_ring() as int);
    let r = ring - f;
    let k = sector * dr + r;
    assert(sector * dr == dr * sector) by (nonlinear_arith);
    vstd::arithmetic::div_mod::lemma_fundamental_div_mod_converse(k, dr, sector, r);
    assert(0 <= k < dr * n) by (nonlinear_arith)
        requires
            k == sector * dr + r,
            0 <= r < dr,
            0 <= sector < n,
    ;
    let (sb, c) = (m.symbol_bits as int, m.code_len() as int);
    assert(0 <= k / sb < c) by (nonlinear_arith)
        requires
            0 <= k < c * sb,
            sb >= 1,
    ;
    k
}

/// The cell of a bit.
proof fn lemma_cell_of(m: &MarkerSpec, k: int) -> (rs: (int, int))
    requires
        m.wf(),
        0 <= k < m.data_cells(),
    ensures
        is_data_cell(m, rs.0, rs.1),
        symbol_of(m, rs.0, rs.1) == k / (m.symbol_bits as int),
        m.cell(k) == rs.0 * m.sector_count + rs.1,
{
    lemma_sizes(m);
    lemma_cell(m, k);
    let dr = m.data_rings() as int;
    let (ring, sector) = (m.first_ring() + k % dr, k / dr);
    vstd::arithmetic::div_mod::lemma_fundamental_div_mod(k, dr);
    assert(sector * dr == dr * sector) by (nonlinear_arith);
    (ring, sector)
}

/// The least entry is one of the entries, and none is less.
proof fn lemma_least(s: Seq<u32>) -> (t: int)
    requires
        s.len() >= 1,
    ensures
        0 <= t < s.len(),
        s[t] == least(s),
        forall|i: int| 0 <= i < s.len() ==> least(s) <= #[trigger] s[i],
    decreases s.len(),
{
    if s.len() == 1 {
        0
    } else {
        let before = s.drop_last();
        let t = lemma_least(before);
        assert forall|i: int| 0 <= i < s.len() implies least(s) <= #[trigger] s[i] by {
            if i < before.len() {
                assert(before[i] == s[i]);
            }
        }
        if s.last() < least(before) {
            s.len() - 1
        } else {
            t
        }
    }
}

/// The bits of a symbol.
proof fn lemma_chunk(m: &MarkerSpec, i: int)
    requires
        m.wf(),
        0 <= i < m.code_len(),
    ensures
        0 <= i * m.symbol_bits,
        (i + 1) * m.symbol_bits == i * m.symbol_bits + m.symbol_bits,
        (i + 1) * m.symbol_bits <= m.data_cells(),
        m.symbol_bits >= 4,
{
    let (sb, c) = (m.symbol_bits as int, m.code_len() as int);
    assert(0 <= i * sb && (i + 1) * sb == i * sb + sb && (i + 1) * sb <= c * sb)
        by (nonlinear_arith)
        requires
            0 <= i < c,
            sb >= 4,
    ;
}

/// The bits that belong to a symbol are those in its chunk.
proof fn lemma_in_chunk(m: &MarkerSpec, i: int, k: int)
    requires
        m.wf(),
        0 <= i < m.code_len(),
        0 <= k,
    ensures
        k / (m.symbol_bits as int) == i <==> i * m.symbol_bits <= k < (i + 1) * m.symbol_bits,
{
    lemma_chunk(m, i);
    let sb = m.symbol_bits as int;
    vstd::arithmetic::div_mod::lemma_fundamental_div_mod(k, sb);
    if k / sb == i {
        assert(i * sb <= k < i * sb + sb) by (nonlinear_arith)
            requires
                k == sb * i + k % sb,
                0 <= k % sb < sb,
        ;
    }
    if i * sb <= k < (i + 1) * sb {
        vstd::arithmetic::div_mod::lemma_fundamental_div_mod_converse(k, sb, i, k - i * sb);
    }
}

/// The confidence in a symbol is at most that in each of its cells, and equals
/// that in one of them.
pub proof fn law_reliability_is_weakest(m: &MarkerSpec, conf: Seq<u32>, i: int)
    requires
        m.wf(),
        0 <= i < m.code_len(),
    ensures
        m.reliabilities(conf).len() == m.code_len(),
        forall|ring: int, sector: int| #[trigger]
            symbol_of(m, ring, sector) == i && is_data_cell(m, ring, sector) ==> m.reliabilities(
                conf,
            )[i] <= conf[ring * m.sector_count + sector],
        exists|ring: int, sector: int| #[trigger]
            symbol_of(m, ring, sector) == i && is_data_cell(m, ring, sector) && m.reliabilities(
                conf,
            )[i] == conf[ring * m.sector_count + sector],
{
    let cells = m.at_cells(conf);
    let sb = m.symbol_bits as int;
    lemma_sizes(m);
    lemma_chunk(m, i);
    let chunk = cells.subrange(i * sb, (i + 1) * sb);
    let t = lemma_least(chunk);
    assert(m.reliabilities(conf)[i] == least(chunk));
    assert forall|ring: int, sector: int| #[trigger]
        symbol_of(m, ring, sector) == i && is_data_cell(m, ring, sector) implies m.reliabilities(
        conf,
    )[i] <= conf[ring * m.sector_count + sector] by {
        let k = lemma_bit_of(m, ring, sector);
        lemma_in_chunk(m, i, k);
        assert(chunk[k - i * sb] == cells[k]);
    }
    let k = i * sb + t;
    lemma_in_chunk(m, i, k);
    let (ring, sector) = lemma_cell_of(m, k);
    assert(symbol_of(m, ring, sector) == i);
    assert(chunk[t] == cells[k]);
}

/// Whether a symbol has a cell under a threshold.
pub open spec fn has_weak_cell(m: &MarkerSpec, conf: Seq<u32>, threshold: u32, i: int) -> bool {
    exists|ring: int, sector: int| #[trigger]
        symbol_of(m, ring, sector) == i && is_data_cell(m, ring, sector) && conf[ring
            * m.sector_count + sector] < threshold
}

/// A symbol is under the threshold if and only if one of its cells is.
proof fn lemma_weak(m: &MarkerSpec, conf: Seq<u32>, threshold: u32, i: int)
    requires
        m.wf(),
        0 <= i < m.code_len(),
    ensures
        has_weak_cell(m, conf, threshold, i) <==> m.reliabilities(conf)[i] < threshold,
{
    law_reliability_is_weakest(m, conf, i);
    if m.reliabilities(conf)[i] < threshold {
        let (ring, sector) = choose|ring: int, sector: int| #[trigger]
            symbol_of(m, ring, sector) == i && is_data_cell(m, ring, sector) && m.reliabilities(
                conf,
            )[i] == conf[ring * m.sector_count + sector];
        assert(symbol_of(m, ring, sector) == i);
    }
}

/// A symbol is erased if and only if it has a cell under the threshold, and
/// fewer symbols than one less than there are parity symbols are weaker, or as
/// weak and before it. Erasures are listed in order.
pub proof fn law_weakest_erased(m: &MarkerSpec, conf: Seq<u32>, threshold: u32, i: int)
    requires
        m.wf(),
        0 <= i < m.code_len(),
    ensures
        m.ranked_erasures(conf, threshold).contains(i as usize) <==> has_weak_cell(
            m,
            conf,
            threshold,
            i,
        ) && those(weaker(m.reliabilities(conf), i), m.code_len()).len() + 1 < m.rs_nsym,
        forall|t: int, u: int|
            0 <= t < u < m.ranked_erasures(conf, threshold).len() ==> #[trigger] m.ranked_erasures(
                conf,
                threshold,
            )[t] < #[trigger] m.ranked_erasures(conf, threshold)[u],
{
    let rel = m.reliabilities(conf);
    let n = m.code_len();
    let p = |i: int| rel[i] < threshold && rank(rel, i, n) < m.erasure_cap();
    let e = m.ranked_erasures(conf, threshold);
    lemma_sizes(m);
    lemma_listed(p, n);
    lemma_weak(m, conf, threshold, i);
    lemma_rank_those(rel, i, n);
    assert(e == listed(p, n));
    assert(p(i) <==> rel[i] < threshold && rank(rel, i, n) < m.erasure_cap());
    if e.contains(i as usize) {
        let t = choose|t: int| 0 <= t < e.len() && e[t] == i as usize;
        assert(p(e[t] as int));
    }
}

/// A symbol with a cell under the threshold is erased as long as no more than
/// one less than there are parity symbols have such a cell.
pub proof fn law_weak_symbols_erased(m: &MarkerSpec, conf: Seq<u32>, threshold: u32, i: int)
    requires
        m.wf(),
        0 <= i < m.code_len(),
        those(|j: int| has_weak_cell(m, conf, threshold, j), m.code_len()).len() < m.rs_nsym,
    ensures
        m.ranked_erasures(conf, threshold).contains(i as usize) <==> has_weak_cell(
            m,
            conf,
            threshold,
            i,
        ),
{
    let rel = m.reliabilities(conf);
    let n = m.code_len();
    let q = |j: int| has_weak_cell(m, conf, threshold, j);
    law_weakest_erased(m, conf, threshold, i);
    if has_weak_cell(m, conf, threshold, i) {
        lemma_weak(m, conf, threshold, i);
        lemma_rank_those(rel, i, n);
        lemma_listed_those(q, n);
        let stronger = those(weaker(rel, i), n);
        let rest = those(q, n).remove(i);
        assert forall|j: int| stronger.contains(j) implies rest.contains(j) by {
            lemma_weak(m, conf, threshold, j);
            assert(q(j));
        }
        assert(q(i));
        assert(those(q, n).contains(i));
        vstd::set_lib::lemma_len_subset(stronger, rest);
    }
}

/// Whether a symbol has a cell that is marked.
pub open spec fn has_marked_cell(m: &MarkerSpec, marks: Seq<bool>, i: int) -> bool {
    exists|ring: int, sector: int| #[trigger]
        symbol_of(m, ring, sector) == i && is_data_cell(m, ring, sector) && marks[ring
            * m.sector_count + sector]
}

/// Symbols are flagged for their marked cells.
proof fn lemma_flagged(m: &MarkerSpec, marks: Seq<bool>, i: int)
    requires
        m.wf(),
        0 <= i < m.code_len(),
    ensures
        m.flagged(marks, i) <==> has_marked_cell(m, marks, i),
{
    let cells = m.at_cells(marks);
    lemma_sizes(m);
    lemma_chunk(m, i);
    if m.flagged(marks, i) {
        let k = choose|k: int|
            i * m.symbol_bits <= k < (i + 1) * m.symbol_bits && #[trigger] m.at_cells(marks)[k];
        lemma_in_chunk(m, i, k);
        let (ring, sector) = lemma_cell_of(m, k);
        assert(symbol_of(m, ring, sector) == i);
    }
    if has_marked_cell(m, marks, i) {
        let (ring, sector) = choose|ring: int, sector: int| #[trigger]
            symbol_of(m, ring, sector) == i && is_data_cell(m, ring, sector) && marks[ring
                * m.sector_count + sector];
        let k = lemma_bit_of(m, ring, sector);
        lemma_in_chunk(m, i, k);
        assert(m.at_cells(marks)[k]);
    }
}

/// Where an entry stands in a list.
proof fn lemma_listed_at(p: spec_fn(int) -> bool, i: int, n: nat)
    requires
        0 <= i < n <= usize::MAX,
        p(i),
    ensures
        listed(p, i as nat).len() < listed(p, n).len(),
        listed(p, n)[listed(p, i as nat).len() as int] == i,
    decreases n,
{
    if i < n - 1 {
        lemma_listed_at(p, i, (n - 1) as nat);
    }
}

/// A symbol is erased for marked cells if and only if it has one, and fewer
/// symbols before it do than one less than there are parity symbols.
pub proof fn law_marked_erased(m: &MarkerSpec, marks: Seq<bool>, i: int)
    requires
        m.wf(),
        0 <= i < m.code_len(),
    ensures
        m.flagged_erasures(marks).contains(i as usize) <==> has_marked_cell(m, marks, i) && those(
            |j: int| has_marked_cell(m, marks, j),
            i as nat,
        ).len() + 1 < m.rs_nsym,
{
    let n = m.code_len();
    let p = |i: int| m.flagged(marks, i);
    let q = |j: int| has_marked_cell(m, marks, j);
    let all = listed(p, n);
    let e = m.flagged_erasures(marks);
    lemma_sizes(m);
    lemma_listed(p, n);
    lemma_flagged(m, marks, i);
    lemma_listed_those(p, i as nat);
    assert(those(p, i as nat) =~= those(q, i as nat)) by {
        assert forall|j: int| 0 <= j < i implies p(j) == #[trigger] q(j) by {
            lemma_flagged(m, marks, j);
        }
    }
    assert(p(i) == m.flagged(marks, i));
    let at = listed(p, i as nat).len() as int;
    if p(i) {
        lemma_listed_at(p, i, n);
        if at < m.erasure_cap() {
            assert(e[at] == i);
        }
    }
    if e.contains(i as usize) {
        let t = choose|t: int| 0 <= t < e.len() && e[t] == i as usize;
        assert(all[t] == i as usize);
        assert(p(all[t] as int));
        if t < at {
            assert(all[t] < all[at]);
        } else if at < t {
            assert(all[at] < all[t]);
        }
    }
}

/// A grid that is turned has in each sector what was in the sector `shift`
/// further on, in the same ring.
pub proof fn law_rolled(m: &MarkerSpec, grid: Seq<u8>, shift: int, ring: int, sector: int)
    requires
        m.wf(),
        0 <= shift,
        0 <= ring < m.ring_count,
        0 <= sector < m.sector_count,
    ensures
        m.rolled(grid, shift)[ring * m.sector_count + sector] == grid[ring * m.sector_count + (
        sector + shift) % (m.sector_count as int)],
{
    crate::image::lemma_index(m.sector_count as int, m.ring_count as int, sector, ring);
    assert(m.ring_count * m.sector_count == m.sector_count * m.ring_count) by (nonlinear_arith);
}

/// The sectors in which a ring, read from sector `shift` on, agrees with a
/// pattern.
pub open spec fn agreeing(sync: Seq<u8>, ring: Seq<u8>, shift: int, n: nat) -> Set<int> {
    those(|i: int| (sync[i] > 0) == (ring[(i + shift) % (n as int)] > 0), n)
}

/// A correlation counts agreements against the rest.
proof fn lemma_correlation(sync: Seq<u8>, ring: Seq<u8>, shift: int, n: nat, k: nat)
    ensures
        those(|i: int| (sync[i] > 0) == (ring[(i + shift) % (n as int)] > 0), k).finite(),
        correlation(sync, ring, shift, n, k) == 2 * those(
            |i: int| (sync[i] > 0) == (ring[(i + shift) % (n as int)] > 0),
            k,
        ).len() - k,
    decreases k,
{
    let p = |i: int| (sync[i] > 0) == (ring[(i + shift) % (n as int)] > 0);
    lemma_those(p, k);
    if k > 0 {
        lemma_correlation(sync, ring, shift, n, (k - 1) as nat);
        let (a, b) = (sign(sync[k - 1]), sign(ring[(k - 1 + shift) % (n as int)]));
        assert(a * b == (if p(k - 1) {
            1int
        } else {
            -1
        })) by (nonlinear_arith)
            requires
                a == 1 || a == -1,
                b == 1 || b == -1,
                p(k - 1) <==> a == b,
        ;
    }
}

/// The score of a rotation is the number of sectors that agree, less the number
/// of those that do not.
pub proof fn law_scores_count_agreement(sync: Seq<u8>, ring: Seq<u8>, shift: int, n: nat)
    ensures
        correlation(sync, ring, shift, n, n) == 2 * agreeing(sync, ring, shift, n).len() - n,
{
    lemma_correlation(sync, ring, shift, n, n);
}

/// What the search for the largest finds.
proof fn lemma_first_best(s: Seq<int>, n: nat)
    requires
        1 <= n <= s.len(),
    ensures
        0 <= first_best(s, n) < n,
        forall|i: int| 0 <= i < n ==> #[trigger] s[i] <= s[first_best(s, n)],
        forall|i: int| 0 <= i < first_best(s, n) ==> #[trigger] s[i] < s[first_best(s, n)],
    decreases n,
{
    if n > 1 {
        lemma_first_best(s, (n - 1) as nat);
    }
}

/// The rotation that is found is the first of those under which the innermost
/// ring agrees with the sync pattern in the most sectors.
pub proof fn law_rotation_agrees_most(m: &MarkerSpec, grid: Seq<u8>, s: int)
    requires
        m.wf(),
        0 <= s < m.sector_count,
    ensures
        0 <= m.sync_shift(grid) < m.sector_count,
        ({
            let n = m.sector_count as nat;
            let (a, b) = (
                agreeing(m.sync@, grid, s, n).len(),
                agreeing(m.sync@, grid, m.sync_shift(grid), n).len(),
            );
            a < b || (a == b && m.sync_shift(grid) <= s)
        }),
{
    let n = m.sector_count as nat;
    let c = correlations(m.sync@, grid, n);
    lemma_first_best(c, n);
    let t = m.sync_shift(grid);
    lemma_correlation(m.sync@, grid, s, n, n);
    lemma_correlation(m.sync@, grid, t, n, n);
    assert(c[s] == correlation(m.sync@, grid, s, n, n));
    assert(c[t] == correlation(m.sync@, grid, t, n, n));
}

/// A ring passes for a sync ring if and only if, read from some sector on, it
/// agrees with the pattern in at least 17 sectors of 20.
pub proof fn law_sync_by_agreement(m: &MarkerSpec, ring: Seq<u8>)
    requires
        m.wf(),
    ensures
        syncs(m, ring) <==> exists|s: int|
            0 <= s < m.sector_count && 20 * (#[trigger] agreeing(
                m.sync@,
                ring,
                s,
                m.sector_count as nat,
            )).len() >= 17 * m.sector_count,
{
    let n = m.sector_count as nat;
    let t = m.sync_shift(ring);
    law_rotation_agrees_most(m, ring, 0);
    lemma_correlation(m.sync@, ring, t, n, n);
    assert(best_correlation(m, ring) == 2 * agreeing(m.sync@, ring, t, n).len() - n);
    if exists|s: int|
        0 <= s < m.sector_count && 20 * (#[trigger] agreeing(m.sync@, ring, s, n)).len() >= 17
            * m.sector_count {
        let s = choose|s: int|
            0 <= s < m.sector_count && 20 * (#[trigger] agreeing(m.sync@, ring, s, n)).len() >= 17
                * m.sector_count;
        law_rotation_agrees_most(m, ring, s);
    }
}

/// What the search for the first hit finds.
proof fn lemma_first_hit(p: spec_fn(int) -> bool, i: int, n: int)
    requires
        i <= n,
    ensures
        i <= first_hit(p, i, n) <= n,
        first_hit(p, i, n) < n ==> p(first_hit(p, i, n)),
        forall|j: int| i <= j < first_hit(p, i, n) ==> !#[trigger] p(j),
    decreases n - i,
{
    if i < n && !p(i) {
        lemma_first_hit(p, i + 1, n);
    }
}

/// Without a sync ring the rotation is the first under which the grid decodes,
/// and where there is none, nothing is found.
pub proof fn law_first_rotation_that_decodes(
    m: &MarkerSpec,
    grid: Seq<u8>,
    unreliable: Option<Seq<bool>>,
)
    requires
        m.wf(),
        !m.has_sync,
    ensures
        ({
            let (hit, s) = m.decoded_grid(grid, unreliable);
            match hit {
                Some(payload) => {
                    &&& 0 <= s < m.sector_count
                    &&& m.decoded_at(grid, unreliable, s) == Some(payload)
                    &&& forall|t: int|
                        0 <= t < s ==> (#[trigger] m.decoded_at(grid, unreliable, t)) is None
                },
                None => s == 0 && forall|t: int|
                    0 <= t < m.sector_count ==> (#[trigger] m.decoded_at(grid, unreliable, t)) is None,
            }
        }),
{
    let p = |t: int| m.decoded_at(grid, unreliable, t) is Some;
    lemma_first_hit(p, 0, m.sector_count as int);
    let f = first_hit(p, 0, m.sector_count as int);
    assert forall|t: int| 0 <= t < f implies (#[trigger] m.decoded_at(
        grid,
        unreliable,
        t,
    )) is None by {
        assert(!p(t));
    }
}

/// The same with confidences.
pub proof fn law_first_rotation_that_decodes_conf(
    m: &MarkerSpec,
    grid: Seq<u8>,
    conf: Seq<u32>,
    threshold: u32,
)
    requires
        m.wf(),
        !m.has_sync,
    ensures
        ({
            let (hit, s) = m.decoded_ranked(grid, conf, threshold);
            match hit {
                Some(found) => {
                    &&& 0 <= s < m.sector_count
                    &&& m.decoded_ranked_at(grid, conf, threshold, s) == Some(found)
                    &&& forall|t: int|
                        0 <= t < s ==> (#[trigger] m.decoded_ranked_at(
                            grid,
                            conf,
                            threshold,
                            t,
                        )) is None
                },
                None => s == 0 && forall|t: int|
                    0 <= t < m.sector_count ==> (#[trigger] m.decoded_ranked_at(
                        grid,
                        conf,
                        threshold,
                        t,
                    )) is None,
            }
        }),
{
    let p = |t: int| m.decoded_ranked_at(grid, conf, threshold, t) is Some;
    lemma_first_hit(p, 0, m.sector_count as int);
    let f = first_hit(p, 0, m.sector_count as int);
    assert forall|t: int| 0 <= t < f implies (#[trigger] m.decoded_ranked_at(
        grid,
        conf,
        threshold,
        t,
    )) is None by {
        assert(!p(t));
    }
}

/// A digit of a number.
proof fn lemma_digit(v: nat, base: nat, n: nat, j: int)
    requires
        2 <= base <= 256,
        0 <= j < n,
    ensures
        digits(v, base, n).len() == n,
        digits(v, base, n)[j] == (v / power(base, (n - 1 - j) as nat)) % base,
    decreases n,
{
    crate::digits::lemma_digits_shape(v, base, n);
    crate::digits::lemma_digits_shape(v / base, base, (n - 1) as nat);
    if j < n - 1 {
        lemma_digit(v / base, base, (n - 1) as nat, j);
        let q = power(base, (n - 2 - j) as nat);
        lemma_power_positive(base, (n - 2 - j) as nat);
        vstd::arithmetic::div_mod::lemma_div_denominator(v as int, base as int, q as int);
        assert(base * q == q * base) by (nonlinear_arith);
        assert(power(base, (n - 1 - j) as nat) == q * base);
    } else {
        assert(power(base, 0) == 1 && v / 1 == v);
        assert(v % base < base) by (nonlinear_arith)
            requires
                base >= 2,
        ;
    }
}

/// Powers are positive.
proof fn lemma_power_positive(base: nat, n: nat)
    requires
        base >= 1,
    ensures
        power(base, n) >= 1,
    decreases n,
{
    if n > 0 {
        lemma_power_positive(base, (n - 1) as nat);
        let p = power(base, (n - 1) as nat);
        assert(p * base >= 1) by (nonlinear_arith)
            requires
                p >= 1,
                base >= 1,
        ;
    }
}

/// Where the parts of a payload's grid stand: the sync pattern in the innermost
/// ring, if there is one, and the bits of the codeword, each symbol from its
/// highest bit down, sector by sector and in each sector outwards.
pub proof fn law_grid_layout(m: &MarkerSpec, payload: Seq<u8>, ring: int, sector: int)
    requires
        m.wf(),
        0 <= ring < m.ring_count,
        0 <= sector < m.sector_count,
    ensures
        m.grid_of(payload).len() == m.ring_count * m.sector_count,
        ({
            let cell = m.grid_of(payload)[ring * m.sector_count + sector];
            if m.has_sync && ring == 0 {
                cell == m.sync@[sector]
            } else {
                let k = sector * m.data_rings() + ring - m.first_ring();
                let (i, j) = (k / (m.symbol_bits as int), k % (m.symbol_bits as int));
                cell == (m.codeword(payload)[i] as nat / power(
                    2,
                    (m.symbol_bits - 1 - j) as nat,
                )) % 2
            }
        }),
{
    lemma_sizes(m);
    lemma_codeword(m, payload);
    crate::image::lemma_index(m.sector_count as int, m.ring_count as int, sector, ring);
    assert(m.ring_count * m.sector_count == m.sector_count * m.ring_count) by (nonlinear_arith);
    if ring >= m.first_ring() {
        let k = lemma_bit_of(m, ring, sector);
        let sb = m.symbol_bits as int;
        let code = m.codeword(payload);
        vstd::arithmetic::div_mod::lemma_fundamental_div_mod(k, sb);
        lemma_digit(code[k / sb] as nat, 2, sb as nat, k % sb);
    }
}

/// The codeword of a payload starts with the payload: as a number to the base
/// of the symbols it is the same. The checksum of these symbols comes next.
pub proof fn law_codeword_starts_with_payload(m: &MarkerSpec, payload: Seq<u8>)
    requires
        m.wf(),
        m.encodable(payload),
    ensures
        m.codeword(payload).len() == m.rs_k + m.rs_nsym,
        crate::digits::value(m.codeword(payload).take(m.rs_k - 1), m.base())
            == crate::digits::value(payload, 256),
        m.codeword(payload)[m.rs_k - 1] == m.checksum(m.codeword(payload).take(m.rs_k - 1)),
{
    lemma_sizes(m);
    lemma_codeword(m, payload);
    crate::digits::lemma_value_of_digits(
        crate::digits::value(payload, 256),
        m.base(),
        (m.rs_k - 1) as nat,
    );
}

/// A symbol is read from the lowest bits of its cells, its highest bit first.
pub proof fn law_symbols_read(m: &MarkerSpec, grid: Seq<u8>, ring: int, sector: int)
    requires
        m.wf(),
        is_data_cell(m, ring, sector),
    ensures
        m.read(grid).len() == m.code_len(),
        ({
            let k = sector * m.data_rings() + ring - m.first_ring();
            let (i, j) = (k / (m.symbol_bits as int), k % (m.symbol_bits as int));
            (m.read(grid)[i] as nat / power(2, (m.symbol_bits - 1 - j) as nat)) % 2 == grid[ring
                * m.sector_count + sector] as nat % 2
        }),
{
    lemma_sizes(m);
    let k = lemma_bit_of(m, ring, sector);
    let sb = m.symbol_bits as int;
    let (i, j) = (k / sb, k % sb);
    let cells = m.at_cells(grid);
    lemma_chunk(m, i);
    lemma_in_chunk(m, i, k);
    vstd::arithmetic::div_mod::lemma_fundamental_div_mod(k, sb);
    vstd::arithmetic::div_mod::lemma_fundamental_div_mod_converse(
        m.code_len() * sb,
        sb,
        m.code_len() as int,
        0,
    );
    let bits = parities(cells.subrange(i * sb, (i + 1) * sb));
    assert(sb * i == i * sb) by (nonlinear_arith);
    assert(bits[j] == grid[m.cell(k)] % 2);
    assert(all_digits(bits, 2));
    crate::digits::lemma_digits_of_value(bits, 2);
    lemma_value_small(bits, sb as nat);
    let v = value(bits, 2);
    assert(m.read(grid)[i] == v as u8);
    lemma_digit(v, 2, sb as nat, j);
}

/// The number that up to eight bits write is one of a byte.
proof fn lemma_value_small(bits: Seq<u8>, n: nat)
    requires
        bits.len() == n <= 8,
        all_digits(bits, 2),
    ensures
        value(bits, 2) < power(2, n) <= 256,
    decreases n,
{
    crate::digits::lemma_power_monotonic(2, n, 8);
    crate::digits::lemma_powers();
    assert(power(2, 8) == 256) by {
        reveal_with_fuel(power, 9);
    }
    if n > 0 {
        let less = bits.drop_last();
        assert forall|i: int| 0 <= i < less.len() implies (#[trigger] less[i] as nat) < 2 by {
            assert(bits[i] < 2);
        }
        lemma_value_small(less, (n - 1) as nat);
        assert(bits[n - 1] < 2);
    }
}

/// A payload is refused exactly where it cannot be encoded, and for one reason
/// only.
pub proof fn law_refused_for_one_reason(m: &MarkerSpec, payload: Seq<u8>, a: CodecError, b: CodecError)
    ensures
        m.encodable(payload) ==> !m.refuses(payload, a),
        m.refuses(payload, a) && m.refuses(payload, b) ==> a == b,
        m.wf() && payload.len() <= usize::MAX && !m.encodable(payload) ==> m.refuses(
            payload,
            CodecError::Length { expected: m.bytes() as usize, got: payload.len() as usize },
        ) || m.refuses(payload, CodecError::TooBig { bits: m.bits() as usize }),
        m.encodable(payload) ==> payload.len() == (m.bits() + 7) / 8,
{
    if m.wf() {
        lemma_sizes(m);
    }
}

/// The checksum of a variant tells symbols from those that differ in one of
/// them, and is a symbol itself.
pub proof fn law_checksum_detects(m: &MarkerSpec, syms: Seq<u8>, i: int, v: u8)
    requires
        m.wf(),
        m.field().has_all(syms),
        m.field().has(v),
        0 <= i < syms.len(),
        syms[i] != v,
    ensures
        m.checksum(syms) != m.checksum(syms.update(i, v)),
        m.field().has(m.checksum(syms)),
{
    if m.symbol_bits == 4 {
        crate::gf16::law_crc4_detects_one_nibble(syms, i, v);
        crate::gf16::lemma_crc4_range(syms);
    } else {
        crate::gf256::law_crc8_detects_one_byte(syms, i, v);
    }
}

} // verus!
