//! How much damage the variants withstand.
use crate::codec::{differences, lemma_listed, lemma_read_has, lemma_sizes, listed};
use crate::codec_laws::{
    law_decode_conf_recovers, law_decode_recovers, law_ranked_erasures_capped, lemma_codeword,
};
use crate::erasure_laws::{
    has_weak_cell, law_differences_counted, law_weak_symbols_erased, those,
};
use crate::marker::{
    sim180c88_parameters, sim48c12_parameters, sim48c16_parameters, sim48c8_parameters,
    sim96c32_parameters, MarkerSpec,
};
use crate::rs_laws::{error_count, error_positions, lemma_error_positions};
use vstd::prelude::*;

verus! {

impl MarkerSpec {
    /// The most wrong symbols that are corrected where none is known to be
    /// wrong.
    pub open spec fn error_cap(&self) -> nat {
        self.rs_nsym as nat / 2
    }

    /// The symbols of a grid as it is seen, turned the way that its sync ring
    /// calls for.
    pub open spec fn symbols_seen(&self, seen: Seq<u8>) -> Seq<u8> {
        self.read(self.rolled(seen, self.sync_shift(seen)))
    }

    /// Whether symbol `i` of a grid as it is seen has a cell that is marked as
    /// unreliable.
    pub open spec fn marked_seen(&self, seen: Seq<u8>, unreliable: Seq<bool>, i: int) -> bool {
        self.flagged(self.rolled(unreliable, self.sync_shift(seen)), i)
    }
}

/// Wrong symbols, wherever they are, do no harm as long as there are at most
/// half as many as there are parity symbols.
pub proof fn law_errors_corrected(m: &MarkerSpec, payload: Seq<u8>, seen: Seq<u8>)
    requires
        m.wf(),
        m.has_sync,
        m.max_errors is None,
        m.encodable(payload),
        seen.len() == m.cells(),
        error_count(m.symbols_seen(seen), m.codeword(payload), seq![]) <= m.error_cap(),
    ensures
        m.decoded_grid(seen, None) == (Some(payload), m.sync_shift(seen)),
{
    law_decode_recovers(m, payload, seen, None, None, seq![]);
}

/// Wrong symbols that are all marked do no harm as long as fewer symbols are
/// marked than there are parity symbols.
pub proof fn law_erasures_corrected(
    m: &MarkerSpec,
    payload: Seq<u8>,
    seen: Seq<u8>,
    unreliable: Seq<bool>,
)
    requires
        m.wf(),
        m.has_sync,
        m.encodable(payload),
        seen.len() == m.cells(),
        listed(|i: int| m.marked_seen(seen, unreliable, i), m.code_len()).len() <= m.erasure_cap(),
        forall|i: int|
            0 <= i < m.code_len() && #[trigger] m.symbols_seen(seen)[i] != m.codeword(payload)[i]
                ==> m.marked_seen(seen, unreliable, i),
    ensures
        m.decoded_grid(seen, Some(unreliable)) == (Some(payload), m.sync_shift(seen)),
{
    let code = m.symbols_seen(seen);
    let word = m.codeword(payload);
    let marks = m.rolled(unreliable, m.sync_shift(seen));
    let p = |i: int| m.flagged(marks, i);
    let q = |i: int| m.marked_seen(seen, unreliable, i);
    assert(p =~= q);
    let e = m.erasures(Some(marks));
    assert(e == listed(p, m.code_len()));
    lemma_sizes(m);
    lemma_listed(p, m.code_len());
    lemma_read_has(m, m.rolled(seen, m.sync_shift(seen)));
    lemma_codeword(m, payload);
    lemma_error_positions(code, word, e, code.len());
    let wrong = error_positions(code, word, e, code.len());
    assert(wrong.len() == 0) by {
        if wrong.len() > 0 {
            let i = wrong[0] as int;
            assert(wrong.contains(i as usize));
            assert(code[i] != word[i] && !e.contains(i as usize));
            assert(p(i));
        }
    }
    assert(error_count(code, word, e) == 0);
    law_decode_recovers(m, payload, seen, Some(unreliable), Some(marks), e);
}

/// What each variant withstands: the number of wrong symbols, and the number
/// of marked ones.
pub proof fn law_capacity_of_variants(m: &MarkerSpec)
    ensures
        m.is(sim48c12_parameters()) ==> m.error_cap() == 2 && m.erasure_cap() == 3,
        m.is(sim48c8_parameters()) ==> m.error_cap() == 1 && m.erasure_cap() == 1,
        m.is(sim48c16_parameters()) ==> m.error_cap() == 1 && m.erasure_cap() == 2,
        m.is(sim96c32_parameters()) ==> m.error_cap() == 2 && m.erasure_cap() == 3,
        m.is(sim180c88_parameters()) ==> m.error_cap() == 3 && m.erasure_cap() == 5,
{
}

/// Wrong symbols that each have a cell under the threshold do no harm as long as
/// fewer symbols have such a cell than there are parity symbols. All of these
/// are erased.
pub proof fn law_weak_cells_corrected(
    m: &MarkerSpec,
    payload: Seq<u8>,
    seen: Seq<u8>,
    conf: Seq<u32>,
    threshold: u32,
)
    requires
        m.wf(),
        m.has_sync,
        m.encodable(payload),
        seen.len() == m.cells(),
        those(
            |i: int| has_weak_cell(m, m.rolled(conf, m.sync_shift(seen)), threshold, i),
            m.code_len(),
        ).len() < m.rs_nsym,
        forall|i: int|
            0 <= i < m.code_len() && #[trigger] m.symbols_seen(seen)[i] != m.codeword(payload)[i]
                ==> has_weak_cell(m, m.rolled(conf, m.sync_shift(seen)), threshold, i),
    ensures
        m.decoded_ranked(seen, conf, threshold).0 matches Some((p, stats)) && {
            &&& p == payload
            &&& stats.erasures == those(
                |i: int| has_weak_cell(m, m.rolled(conf, m.sync_shift(seen)), threshold, i),
                m.code_len(),
            ).len()
            &&& stats.corrected == those(
                |i: int| m.symbols_seen(seen)[i] != m.codeword(payload)[i],
                m.code_len(),
            ).len()
        },
        m.decoded_ranked(seen, conf, threshold).1 == m.sync_shift(seen),
{
    let n = m.code_len();
    let code = m.symbols_seen(seen);
    let word = m.codeword(payload);
    let held = m.rolled(conf, m.sync_shift(seen));
    let q = |i: int| has_weak_cell(m, held, threshold, i);
    let e = m.ranked_erasures(held, threshold);
    lemma_sizes(m);
    lemma_read_has(m, m.rolled(seen, m.sync_shift(seen)));
    lemma_codeword(m, payload);
    law_ranked_erasures_capped(m, held, threshold);
    assert forall|i: int| 0 <= i < n implies (e.contains(i as usize) <==> #[trigger] q(i)) by {
        law_weak_symbols_erased(m, held, threshold, i);
    }
    lemma_error_positions(code, word, e, code.len());
    let wrong = error_positions(code, word, e, code.len());
    assert(wrong.len() == 0) by {
        if wrong.len() > 0 {
            let i = wrong[0] as int;
            assert(wrong.contains(i as usize));
            assert(code[i] != word[i] && !e.contains(i as usize));
            assert(q(i));
        }
    }
    assert(error_count(code, word, e) == 0);
    law_decode_conf_recovers(m, payload, seen, conf, threshold, e);
    law_differences_counted(code, word, n);
    let wide = Seq::new(e.len(), |t: int| e[t] as int);
    assert(wide.no_duplicates());
    wide.unique_seq_to_set();
    assert(wide.to_set() =~= those(q, n)) by {
        assert forall|i: int| wide.to_set().contains(i) <==> those(q, n).contains(i) by {
            if wide.to_set().contains(i) {
                let t = choose|t: int| 0 <= t < wide.len() && wide[t] == i;
                assert(e[t] < n);
                assert(e.contains(i as usize));
                assert(q(i));
            }
            if those(q, n).contains(i) {
                assert(q(i));
                let t = choose|t: int| 0 <= t < e.len() && e[t] == i as usize;
                assert(wide[t] == i);
            }
        }
    }
    lemma_few_differ(code, word, n);
}

/// No more positions differ than there are.
proof fn lemma_few_differ(a: Seq<u8>, b: Seq<u8>, n: nat)
    ensures
        differences(a, b, n) <= n,
    decreases n,
{
    if n > 0 {
        lemma_few_differ(a, b, (n - 1) as nat);
    }
}

} // verus!
