//! What the codec guarantees: payloads come back from their grids under every
//! rotation, errors and erasures within the budget are corrected, and whatever
//! decodes is the encoding of what it decodes to.
use crate::codec::{
    correlation, correlations, differences, first_best, lemma_cell, lemma_listed, lemma_read_has,
    lemma_rolled_index, lemma_sizes, listed, packed, parities, rank, sign, unpacked, RsStats,
};
use crate::digits::{
    all_digits, digits, lemma_digits_of_value, lemma_digits_shape, lemma_value_of_digits, power,
    value,
};
use crate::gf16::lemma_crc4_range;
use crate::marker::{same_from, MarkerSpec};
use crate::rs::{is_codeword, lemma_decoded_has, within};
use crate::rs_laws::{
    agree_except, distinct_positions, error_count, error_positions, law_codewords_apart,
    law_decode_corrects, law_decoded_is_codeword, law_encoded_is_codeword,
};
use vstd::prelude::*;

verus! {

/// Packing undoes unpacking.
proof fn lemma_packed_unpacked(code: Seq<u8>, sb: nat)
    requires
        1 <= sb <= 8,
        all_digits(code, power(2, sb)),
    ensures
        packed(unpacked(code, sb), sb) == code,
{
    let bits = unpacked(code, sb);
    let n = code.len() as int;
    let b = sb as int;
    vstd::arithmetic::div_mod::lemma_fundamental_div_mod_converse(n * b, b, n, 0);
    assert forall|i: int| 0 <= i < n implies packed(bits, sb)[i] == code[i] by {
        assert((i + 1) * b == i * b + b && 0 <= i * b && (i + 1) * b <= n * b) by (nonlinear_arith)
            requires
                0 <= i < n,
                b >= 1,
        ;
        let d = digits(code[i] as nat, 2, sb);
        lemma_digits_shape(code[i] as nat, 2, sb);
        let chunk = bits.subrange(i * sb, (i + 1) * sb);
        assert(parities(chunk) =~= d) by {
            assert forall|j: int| 0 <= j < b implies parities(chunk)[j] == d[j] by {
                let k = i * b + j;
                assert(k == b * i + j) by (nonlinear_arith)
                    requires
                        k == i * b + j,
                ;
                vstd::arithmetic::div_mod::lemma_fundamental_div_mod_converse(k, b, i, j);
                assert(chunk[j] == bits[k]);
                assert(d[j] < 2);
            }
        }
        assert((code[i] as nat) < power(2, sb));
        lemma_value_of_digits(code[i] as nat, 2, sb);
    }
    assert(packed(bits, sb) =~= code);
}

/// The shape of a payload's codeword.
pub proof fn lemma_codeword(m: &MarkerSpec, payload: Seq<u8>)
    requires
        m.wf(),
    ensures
        m.codeword(payload).len() == m.code_len(),
        m.field().has_all(m.codeword(payload)),
        all_digits(m.codeword(payload), m.base()),
        is_codeword(m.field(), m.codeword(payload), m.rs_nsym as nat),
        m.codeword(payload).take(m.rs_k - 1) == m.payload_symbols(payload),
        m.codeword(payload)[m.rs_k - 1] == m.checksum(m.payload_symbols(payload)),
{
    lemma_sizes(m);
    let f = m.field();
    let syms = m.payload_symbols(payload);
    let crc = m.checksum(syms);
    let data = syms.push(crc);
    lemma_digits_shape(value(payload, 256), m.base(), (m.rs_k - 1) as nat);
    lemma_crc4_range(syms);
    assert forall|i: int| 0 <= i < data.len() implies f.has(#[trigger] data[i]) by {
        if i < syms.len() {
            assert((syms[i] as nat) < m.base());
        }
    }
    law_encoded_is_codeword(f, data, m.rs_nsym as nat);
    let code = m.codeword(payload);
    assert(code.take(data.len() as int) == data);
    assert(code.take(m.rs_k - 1) =~= syms) by {
        assert forall|i: int| 0 <= i < syms.len() implies code[i] == syms[i] by {
            assert(code.take(data.len() as int)[i] == data[i]);
        }
    }
    assert(code[m.rs_k - 1] == code.take(data.len() as int)[m.rs_k - 1]);
    assert forall|i: int| 0 <= i < code.len() implies (#[trigger] code[i] as nat) < m.base() by {
        assert(f.has(code[i]));
    }
}

/// The symbols of a payload stand for it.
pub proof fn lemma_payload_of_symbols(m: &MarkerSpec, payload: Seq<u8>)
    requires
        m.wf(),
        m.encodable(payload),
    ensures
        m.payload_of(m.payload_symbols(payload)) == payload,
{
    lemma_sizes(m);
    let v = value(payload, 256);
    lemma_value_of_digits(v, m.base(), (m.rs_k - 1) as nat);
    assert(all_digits(payload, 256));
    lemma_digits_of_value(payload, 256);
}

/// Symbols are those of the payload that they stand for.
proof fn lemma_symbols_of_payload(m: &MarkerSpec, syms: Seq<u8>)
    requires
        m.wf(),
        syms.len() == m.rs_k - 1,
        m.field().has_all(syms),
    ensures
        m.encodable(m.payload_of(syms)),
        m.payload_symbols(m.payload_of(syms)) == syms,
{
    lemma_sizes(m);
    assert forall|i: int| 0 <= i < syms.len() implies (#[trigger] syms[i] as nat) < m.base() by {
        assert(m.field().has(syms[i]));
    }
    let v = value(syms, m.base());
    lemma_digits_of_value(syms, m.base());
    lemma_value_of_digits(v, 256, m.bytes());
    lemma_digits_shape(v, 256, m.bytes());
}

/// The grid of a payload holds its codeword.
pub proof fn lemma_read_grid(m: &MarkerSpec, payload: Seq<u8>)
    requires
        m.wf(),
    ensures
        m.read(m.grid_of(payload)) == m.codeword(payload),
{
    lemma_sizes(m);
    lemma_codeword(m, payload);
    let code = m.codeword(payload);
    let sb = m.symbol_bits as nat;
    let bits = unpacked(code, sb);
    let grid = m.grid_of(payload);
    assert(m.at_cells(grid) =~= bits) by {
        assert forall|k: int| 0 <= k < m.data_cells() implies grid[m.cell(k)] == bits[k] by {
            lemma_cell(m, k);
            let (dr, n) = (m.data_rings() as int, m.sector_count as int);
            let (ring, sector) = (m.first_ring() + k % dr, k / dr);
            vstd::arithmetic::div_mod::lemma_fundamental_div_mod(k, dr);
            assert(sector * dr == dr * sector && ring * n == n * ring) by (nonlinear_arith);
            vstd::arithmetic::div_mod::lemma_fundamental_div_mod_converse(
                m.cell(k),
                n,
                ring,
                sector,
            );
        }
    }
    lemma_packed_unpacked(code, sb);
}

/// Errors and erasures within the budget of the code are corrected: with the
/// symbols of a payload, some of them changed, the payload is recovered as
/// long as twice the number of changed symbols that are not erased and the
/// number of erased ones add up to at most the number of parity symbols.
pub proof fn law_recovers(m: &MarkerSpec, payload: Seq<u8>, code: Seq<u8>, erasures: Seq<usize>)
    requires
        m.wf(),
        m.encodable(payload),
        code.len() == m.code_len(),
        m.field().has_all(code),
        distinct_positions(erasures, m.code_len()),
        2 * error_count(code, m.codeword(payload), erasures) + erasures.len() <= m.rs_nsym,
        within(error_count(code, m.codeword(payload), erasures), m.max_errors),
    ensures
        m.recovered(code, erasures) == Some((payload, m.codeword(payload))),
{
    lemma_codeword(m, payload);
    law_decode_corrects(
        m.field(),
        m.codeword(payload),
        code,
        m.rs_nsym as nat,
        erasures,
        m.max_errors,
    );
    lemma_payload_of_symbols(m, payload);
}

/// What is recovered is genuine: the payload can be encoded, and its codeword
/// is the corrected one.
pub proof fn law_recovered_is_encoded(m: &MarkerSpec, code: Seq<u8>, erasures: Seq<usize>)
    requires
        m.wf(),
        code.len() == m.code_len(),
        m.field().has_all(code),
        forall|t: int| 0 <= t < erasures.len() ==> #[trigger] erasures[t] < m.code_len(),
    ensures
        m.recovered(code, erasures) matches Some((payload, word)) ==> {
            &&& m.encodable(payload)
            &&& m.codeword(payload) == word
            &&& exists|pos: Seq<usize>|
                {
                    &&& #[trigger] agree_except(word, code, erasures, pos)
                    &&& 2 * pos.len() <= m.rs_nsym + erasures.len()
                    &&& within(pos.len(), m.max_errors)
                }
        },
{
    let f = m.field();
    let nsym = m.rs_nsym as nat;
    lemma_sizes(m);
    if let Some((payload, word)) = m.recovered(code, erasures) {
        law_decoded_is_codeword(f, code, nsym, erasures, m.max_errors);
        lemma_decoded_has(f, code, nsym, erasures, m.max_errors);
        let syms = word.take(m.rs_k - 1);
        assert forall|i: int| 0 <= i < syms.len() implies f.has(#[trigger] syms[i]) by {
            assert(f.has(word[i]));
        }
        lemma_symbols_of_payload(m, syms);
        lemma_codeword(m, payload);
        let again = m.codeword(payload);
        // Both are codewords, and they agree but for the parity symbols.
        let parity = Seq::new(nsym, |i: int| (m.rs_k + i) as usize);
        assert(distinct_positions(parity, word.len()));
        assert forall|i: int|
            0 <= i < word.len() && !parity.contains(i as usize) implies #[trigger] word[i]
            == again[i] by {
            if i >= m.rs_k {
                assert(parity[i - m.rs_k] == i as usize);
            } else if i < m.rs_k - 1 {
                assert(syms[i] == word[i]);
                assert(again.take(m.rs_k - 1)[i] == again[i]);
            }
        }
        law_codewords_apart(f, word, again, nsym, parity);
    }
}

/// Nothing differs from itself.
proof fn lemma_no_errors(a: Seq<u8>, known: Seq<usize>, i: nat)
    ensures
        error_positions(a, a, known, i).len() == 0,
    decreases i,
{
    if i > 0 {
        lemma_no_errors(a, known, (i - 1) as nat);
    }
}

/// A correlation is at most the number of cells, and reaches it only where
/// all cells agree.
pub proof fn lemma_correlation(sync: Seq<u8>, ring: Seq<u8>, s: int, n: nat, k: nat)
    ensures
        correlation(sync, ring, s, n, k) <= k,
        correlation(sync, ring, s, n, k) == k <==> forall|i: int|
            0 <= i < k ==> (sync[i] > 0) == (#[trigger] ring[(i + s) % (n as int)] > 0),
    decreases k,
{
    if k > 0 {
        let j = (k - 1) as nat;
        lemma_correlation(sync, ring, s, n, j);
        let (a, b) = (sign(sync[k - 1]), sign(ring[(k - 1 + s) % (n as int)]));
        assert(a * b == if a == b {
            1int
        } else {
            -1
        }) by (nonlinear_arith)
            requires
                a == 1 || a == -1,
                b == 1 || b == -1,
        ;
        if correlation(sync, ring, s, n, k) == k {
            assert forall|i: int| 0 <= i < k implies (sync[i] > 0) == (#[trigger] ring[(i + s) % (
            n as int)] > 0) by {
                if i < j {
                }
            }
        }
    }
}

/// A correlation is between minus and plus the number of cells.
pub proof fn lemma_correlation_range(sync: Seq<u8>, ring: Seq<u8>, s: int, n: nat, k: nat)
    ensures
        -k <= correlation(sync, ring, s, n, k) <= k,
    decreases k,
{
    if k > 0 {
        lemma_correlation_range(sync, ring, s, n, (k - 1) as nat);
        let (a, b) = (sign(sync[k - 1]), sign(ring[(k - 1 + s) % (n as int)]));
        assert(-1 <= a * b <= 1) by (nonlinear_arith)
            requires
                a == 1 || a == -1,
                b == 1 || b == -1,
        ;
    }
}

/// A strictly largest entry is the one that is picked.
proof fn lemma_first_best(s: Seq<int>, n: nat, j: int)
    requires
        n <= s.len(),
    ensures
        n > 0 ==> 0 <= first_best(s, n) < n,
        0 <= j < n && (forall|i: int| 0 <= i < n && i != j ==> #[trigger] s[i] < s[j])
            ==> first_best(s, n) == j,
    decreases n,
{
    if n > 1 {
        lemma_first_best(s, (n - 1) as nat, j);
    }
}

/// The entry that is picked is a largest one.
pub proof fn lemma_best_is_largest(s: Seq<int>, n: nat, i: int)
    requires
        n <= s.len(),
        0 <= i < n,
    ensures
        s[i] <= s[first_best(s, n)],
        0 <= first_best(s, n) < n,
    decreases n,
{
    lemma_first_best(s, n, i);
    if n > 1 {
        lemma_first_best(s, (n - 1) as nat, i);
        if i < n - 1 {
            lemma_best_is_largest(s, (n - 1) as nat, i);
        } else {
            lemma_best_is_largest(s, (n - 1) as nat, 0);
        }
    }
}

/// A grid whose innermost ring is the sync pattern read from sector `t` on
/// calls for the rotation that undoes this.
proof fn lemma_sync_shift(m: &MarkerSpec, grid: Seq<u8>, t: int)
    requires
        m.wf(),
        m.has_sync,
        m.sync_unique(),
        0 <= t < m.sector_count,
        grid.len() >= m.cells(),
        forall|i: int|
            0 <= i < m.sector_count ==> (#[trigger] grid[i] > 0) == (m.sync@[(i + t) % (
            m.sector_count as int)] > 0),
    ensures
        m.sync_shift(grid) == (m.sector_count - t) % (m.sector_count as int),
{
    let n = m.sector_count as int;
    let sync = m.sync@;
    let c = correlations(sync, grid, n as nat);
    let j = (n - t) % n;
    assert(n <= m.ring_count * n) by (nonlinear_arith)
        requires
            m.ring_count >= 1,
            n >= 1,
    ;
    assert forall|s: int| 0 <= s < n implies (c[s] == n <==> s == j) && #[trigger] c[s] <= n by {
        lemma_correlation(sync, grid, s, n as nat, n as nat);
        let u = (s + t) % n;
        assert forall|i: int| 0 <= i < n implies (#[trigger] grid[(i + s) % n] > 0) == (sync[(i + u)
            % n] > 0) by {
            let k = (i + s) % n;
            assert((grid[k] > 0) == (sync[(k + t) % n] > 0));
            vstd::arithmetic::div_mod::lemma_add_mod_noop(i + s, t, n);
            vstd::arithmetic::div_mod::lemma_add_mod_noop(i, s + t, n);
            vstd::arithmetic::div_mod::lemma_small_mod(t as nat, n as nat);
            vstd::arithmetic::div_mod::lemma_add_mod_noop_right(i, s + t, n);
            vstd::arithmetic::div_mod::lemma_add_mod_noop_right(t, i + s, n);
        }
        if s == j {
            assert(u == 0) by {
                vstd::arithmetic::div_mod::lemma_mod_self_0(n);
                vstd::arithmetic::div_mod::lemma_small_mod(0, n as nat);
                if t > 0 {
                    vstd::arithmetic::div_mod::lemma_small_mod((n - t) as nat, n as nat);
                    assert(s + t == n);
                }
            }
            assert forall|i: int| 0 <= i < n implies (sync[i] > 0) == (#[trigger] grid[(i + s) % n]
                > 0) by {
                vstd::arithmetic::div_mod::lemma_small_mod(i as nat, n as nat);
            }
        } else if c[s] == n {
            assert(sync.len() == n);
            assert forall|i: int| 0 <= i < sync.len() implies (sync[i] > 0) == (
            #[trigger] sync[(i + u) % (sync.len() as int)] > 0) by {
                assert((sync[i] > 0) == (grid[(i + s) % n] > 0));
                assert((grid[(i + s) % n] > 0) == (sync[(i + u) % n] > 0));
            }
            assert(same_from(sync, sync, u));
            assert(0 < u < n) by {
                if u == 0 {
                    lemma_zero_sum(s, t, n);
                }
            }
        }
    }
    assert(0 <= j < n);
    assert forall|i: int| 0 <= i < n && i != j implies #[trigger] c[i] < c[j] by {
        assert(c[i] <= n);
        assert(c[j] <= n);
    }
    lemma_first_best(c, n as nat, j);
}

/// The complement modulo `n`.
proof fn lemma_zero_sum(s: int, t: int, n: int)
    requires
        0 <= s < n,
        0 <= t < n,
        (s + t) % n == 0,
    ensures
        s == (n - t) % n,
{
    if s + t < n {
        vstd::arithmetic::div_mod::lemma_small_mod((s + t) as nat, n as nat);
        vstd::arithmetic::div_mod::lemma_mod_self_0(n);
    } else {
        vstd::arithmetic::div_mod::lemma_fundamental_div_mod_converse(s + t, n, 1, s + t - n);
        vstd::arithmetic::div_mod::lemma_small_mod((n - t) as nat, n as nat);
    }
}

/// Turning back undoes turning.
proof fn lemma_rolled_back<T>(m: &MarkerSpec, grid: Seq<T>, t: int)
    requires
        m.wf(),
        0 <= t < m.sector_count,
        grid.len() == m.cells(),
    ensures
        m.rolled(m.rolled(grid, t), (m.sector_count - t) % (m.sector_count as int)) == grid,
{
    let n = m.sector_count as int;
    let s = (n - t) % n;
    let once = m.rolled(grid, t);
    let twice = m.rolled(once, s);
    assert(0 <= s < n);
    assert forall|i: int| 0 <= i < grid.len() implies twice[i] == grid[i] by {
        lemma_rolled_index(m, i, s);
        let j = (i / n) * n + (i % n + s) % n;
        lemma_rolled_index(m, j, t);
        let x = i % n;
        vstd::arithmetic::div_mod::lemma_fundamental_div_mod(i, n);
        assert((x + s) % n + t == x || (x + s) % n + t == x + n) by {
            if t == 0 {
                vstd::arithmetic::div_mod::lemma_mod_self_0(n);
                vstd::arithmetic::div_mod::lemma_small_mod(x as nat, n as nat);
            } else {
                vstd::arithmetic::div_mod::lemma_small_mod((n - t) as nat, n as nat);
                if x + s < n {
                    vstd::arithmetic::div_mod::lemma_small_mod((x + s) as nat, n as nat);
                } else {
                    vstd::arithmetic::div_mod::lemma_fundamental_div_mod_converse(
                        x + s,
                        n,
                        1,
                        x + s - n,
                    );
                }
            }
        }
        assert(((x + s) % n + t) % n == x) by {
            vstd::arithmetic::div_mod::lemma_small_mod(x as nat, n as nat);
            vstd::arithmetic::div_mod::lemma_mod_add_multiples_vanish(x, n);
        }
        assert((i / n) * n == n * (i / n)) by (nonlinear_arith);
    }
    assert(twice =~= grid);
}

/// The symbols that are erased are distinct symbols of the codeword, at most
/// as many as the cap admits.
pub proof fn law_flagged_erasures_capped(m: &MarkerSpec, unreliable: Seq<bool>)
    requires
        m.wf(),
    ensures
        m.flagged_erasures(unreliable).len() <= m.erasure_cap(),
        distinct_positions(m.flagged_erasures(unreliable), m.code_len()),
        forall|t: int|
            0 <= t < m.flagged_erasures(unreliable).len() ==> m.flagged(
                unreliable,
                #[trigger] m.flagged_erasures(unreliable)[t] as int,
            ),
{
    let p = |i: int| m.flagged(unreliable, i);
    let all = listed(p, m.code_len());
    let e = m.flagged_erasures(unreliable);
    lemma_sizes(m);
    lemma_listed(p, m.code_len());
    assert forall|t: int| 0 <= t < e.len() implies #[trigger] e[t] < m.code_len() && m.flagged(
        unreliable,
        e[t] as int,
    ) by {
        assert(e[t] == all[t]);
        assert(p(all[t] as int));
    }
    assert forall|t: int, u: int| 0 <= t < u < e.len() implies #[trigger] e[t]
        != #[trigger] e[u] by {
        assert(e[t] == all[t] && e[u] == all[u]);
    }
}

/// Whether entry `j` comes before entry `i` in ascending order.
spec fn before(s: Seq<u32>, j: int, i: int) -> bool {
    s[j] < s[i] || (s[j] == s[i] && j < i)
}

/// The rank is monotonic in the order that it counts.
proof fn lemma_rank(s: Seq<u32>, j: int, i: int, n: nat)
    requires
        before(s, j, i),
        0 <= j,
    ensures
        rank(s, j, n) + (if j < n {
            1int
        } else {
            0
        }) <= rank(s, i, n),
    decreases n,
{
    if n > 0 {
        lemma_rank(s, j, i, (n - 1) as nat);
    }
}

/// At most `cap` listed entries have a rank below `cap`.
proof fn lemma_few_ranks(s: Seq<u32>, e: Seq<usize>, n: nat, cap: nat)
    requires
        forall|t: int| 0 <= t < e.len() ==> #[trigger] e[t] < n && rank(s, e[t] as int, n) < cap,
        forall|t: int, u: int| 0 <= t < u < e.len() ==> #[trigger] e[t] != #[trigger] e[u],
    ensures
        e.len() <= cap,
{
    let r = Seq::new(e.len(), |t: int| rank(s, e[t] as int, n) as int);
    assert(r.no_duplicates()) by {
        assert forall|t: int, u: int|
            0 <= t < r.len() && 0 <= u < r.len() && t != u implies r[t] != r[u] by {
            let (a, b) = (e[t] as int, e[u] as int);
            if t < u {
                assert(e[t] != e[u]);
            } else {
                assert(e[u] != e[t]);
            }
            if before(s, a, b) {
                lemma_rank(s, a, b, n);
            } else {
                assert(before(s, b, a));
                lemma_rank(s, b, a, n);
            }
        }
    }
    r.unique_seq_to_set();
    let range = vstd::set_lib::set_int_range(0, cap as int);
    vstd::set_lib::lemma_int_range(0, cap as int);
    assert(r.to_set().subset_of(range)) by {
        assert forall|x: int| r.to_set().contains(x) implies range.contains(x) by {
            let t = choose|t: int| 0 <= t < r.len() && r[t] == x;
            assert(e[t] < n && rank(s, e[t] as int, n) < cap);
        }
    }
    vstd::set_lib::lemma_len_subset(r.to_set(), range);
}

/// The symbols that are erased for their confidence are distinct, under the
/// threshold, at most as many as the cap admits, and the weakest: none that
/// is left is weaker than one that is erased. With the threshold zero there
/// are none.
pub proof fn law_ranked_erasures_capped(m: &MarkerSpec, conf: Seq<u32>, threshold: u32)
    requires
        m.wf(),
    ensures
        m.ranked_erasures(conf, threshold).len() <= m.erasure_cap(),
        distinct_positions(m.ranked_erasures(conf, threshold), m.code_len()),
        forall|t: int|
            0 <= t < m.ranked_erasures(conf, threshold).len() ==> m.reliabilities(
                conf,
            )[#[trigger] m.ranked_erasures(conf, threshold)[t] as int] < threshold,
        forall|t: int, j: int|
            #![trigger m.ranked_erasures(conf, threshold)[t], m.reliabilities(conf)[j]]
            0 <= t < m.ranked_erasures(conf, threshold).len() && 0 <= j < m.code_len()
                && !m.ranked_erasures(conf, threshold).contains(j as usize) ==> m.reliabilities(
                conf,
            )[m.ranked_erasures(conf, threshold)[t] as int] <= m.reliabilities(conf)[j],
        threshold == 0 ==> m.ranked_erasures(conf, threshold).len() == 0,
{
    let n = m.code_len();
    let cap = m.erasure_cap();
    let rel = m.reliabilities(conf);
    let p = |i: int| rel[i] < threshold && rank(rel, i, n) < cap;
    let e = m.ranked_erasures(conf, threshold);
    lemma_sizes(m);
    assert(e == listed(p, n));
    lemma_listed(p, n);
    assert forall|t: int| 0 <= t < e.len() implies #[trigger] e[t] < n && rel[e[t] as int]
        < threshold && rank(rel, e[t] as int, n) < cap by {
        assert(p(e[t] as int));
    }
    lemma_few_ranks(rel, e, n, cap);
    assert forall|t: int, j: int|
        #![trigger e[t], rel[j]]
        0 <= t < e.len() && 0 <= j < n && !e.contains(j as usize) implies rel[e[t] as int]
        <= rel[j] by {
        assert(p(e[t] as int));
        assert(!p(j));
        if rel[j] < rel[e[t] as int] {
            lemma_rank(rel, j, e[t] as int, n);
        }
    }
    if threshold == 0 && e.len() > 0 {
        assert(p(e[0] as int));
    }
}

/// A grid that is read with few enough errors decodes to its payload. The
/// rotation is the one that the sync ring calls for.
pub proof fn law_decode_recovers(
    m: &MarkerSpec,
    payload: Seq<u8>,
    seen: Seq<u8>,
    unreliable: Option<Seq<bool>>,
    marks: Option<Seq<bool>>,
    erasures: Seq<usize>,
)
    requires
        m.wf(),
        m.has_sync,
        m.encodable(payload),
        seen.len() == m.cells(),
        marks == match unreliable {
            Some(u) => Some(m.rolled(u, m.sync_shift(seen))),
            None => None,
        },
        erasures == m.erasures(marks),
        ({
            let code = m.read(m.rolled(seen, m.sync_shift(seen)));
            &&& 2 * error_count(code, m.codeword(payload), erasures) + erasures.len() <= m.rs_nsym
            &&& within(error_count(code, m.codeword(payload), erasures), m.max_errors)
        }),
    ensures
        m.decoded_grid(seen, unreliable) == (Some(payload), m.sync_shift(seen)),
{
    let code = m.read(m.rolled(seen, m.sync_shift(seen)));
    lemma_read_has(m, m.rolled(seen, m.sync_shift(seen)));
    if let Some(u) = marks {
        law_flagged_erasures_capped(m, u);
    }
    law_recovers(m, payload, code, erasures);
}

/// The same with confidences. The reported work is the number of erasures and
/// the number of symbols that were read wrong.
pub proof fn law_decode_conf_recovers(
    m: &MarkerSpec,
    payload: Seq<u8>,
    seen: Seq<u8>,
    conf: Seq<u32>,
    threshold: u32,
    erasures: Seq<usize>,
)
    requires
        m.wf(),
        m.has_sync,
        m.encodable(payload),
        seen.len() == m.cells(),
        erasures == m.ranked_erasures(m.rolled(conf, m.sync_shift(seen)), threshold),
        ({
            let code = m.read(m.rolled(seen, m.sync_shift(seen)));
            &&& 2 * error_count(code, m.codeword(payload), erasures) + erasures.len() <= m.rs_nsym
            &&& within(error_count(code, m.codeword(payload), erasures), m.max_errors)
        }),
    ensures
        ({
            let code = m.read(m.rolled(seen, m.sync_shift(seen)));
            m.decoded_ranked(seen, conf, threshold) == (
                Some(
                    (
                        payload,
                        RsStats {
                            erasures: erasures.len() as usize,
                            corrected: differences(
                                code,
                                m.codeword(payload),
                                m.code_len(),
                            ) as usize,
                        },
                    ),
                ),
                m.sync_shift(seen),
            )
        }),
{
    let s = m.sync_shift(seen);
    let code = m.read(m.rolled(seen, s));
    lemma_read_has(m, m.rolled(seen, s));
    law_ranked_erasures_capped(m, m.rolled(conf, s), threshold);
    law_recovers(m, payload, code, erasures);
}

/// The innermost ring of a payload's grid is the sync pattern.
proof fn lemma_grid_sync(m: &MarkerSpec, payload: Seq<u8>, t: int)
    requires
        m.wf(),
        m.has_sync,
        0 <= t < m.sector_count,
    ensures
        m.grid_of(payload).len() == m.cells(),
        m.cells() >= m.sector_count,
        forall|i: int|
            0 <= i < m.sector_count ==> #[trigger] m.rolled(m.grid_of(payload), t)[i]
                == m.sync@[(i + t) % (m.sector_count as int)],
{
    let n = m.sector_count as int;
    let grid = m.grid_of(payload);
    assert(n <= m.ring_count * n) by (nonlinear_arith)
        requires
            m.ring_count >= 1,
            n >= 1,
    ;
    assert forall|i: int| 0 <= i < n implies #[trigger] m.rolled(grid, t)[i] == m.sync@[(i + t)
        % n] by {
        lemma_rolled_index(m, i, t);
        vstd::arithmetic::div_mod::lemma_small_mod(i as nat, n as nat);
        vstd::arithmetic::div_mod::lemma_basic_div(i, n);
        let j = (i + t) % n;
        vstd::arithmetic::div_mod::lemma_small_mod(j as nat, n as nat);
        vstd::arithmetic::div_mod::lemma_basic_div(j, n);
        assert((i / n) * n + (i % n + t) % n == j) by (nonlinear_arith)
            requires
                i / n == 0,
                i % n == i,
                j == (i + t) % n,
        ;
    }
}

/// A payload comes back from its grid under every rotation, whichever cells
/// are marked as unreliable; the rotation is found.
pub proof fn law_decode_undoes_encode(
    m: &MarkerSpec,
    payload: Seq<u8>,
    turned: int,
    unreliable: Option<Seq<bool>>,
)
    requires
        m.wf(),
        m.has_sync,
        m.sync_unique(),
        m.encodable(payload),
        0 <= turned < m.sector_count,
    ensures
        m.decoded_grid(m.rolled(m.grid_of(payload), turned), unreliable) == (
            Some(payload),
            (m.sector_count - turned) % (m.sector_count as int),
        ),
{
    let grid = m.grid_of(payload);
    let seen = m.rolled(grid, turned);
    lemma_grid_sync(m, payload, turned);
    lemma_sync_shift(m, seen, turned);
    let s = m.sync_shift(seen);
    lemma_rolled_back(m, grid, turned);
    lemma_read_grid(m, payload);
    let marks = match unreliable {
        Some(u) => Some(m.rolled(u, s)),
        None => None,
    };
    let e = m.erasures(marks);
    if let Some(u) = marks {
        law_flagged_erasures_capped(m, u);
    }
    lemma_no_errors(m.codeword(payload), e, m.codeword(payload).len());
    law_decode_recovers(m, payload, seen, unreliable, marks, e);
}

/// The same with confidences, whatever they are: nothing had to be corrected.
pub proof fn law_decode_conf_undoes_encode(
    m: &MarkerSpec,
    payload: Seq<u8>,
    turned: int,
    conf: Seq<u32>,
    threshold: u32,
)
    requires
        m.wf(),
        m.has_sync,
        m.sync_unique(),
        m.encodable(payload),
        0 <= turned < m.sector_count,
    ensures
        m.decoded_ranked(m.rolled(m.grid_of(payload), turned), conf, threshold).0 matches Some(
            (p, stats),
        ) && p == payload && stats.corrected == 0 && stats.erasures <= m.erasure_cap(),
        m.decoded_ranked(m.rolled(m.grid_of(payload), turned), conf, threshold).1 == (
        m.sector_count - turned) % (m.sector_count as int),
{
    let grid = m.grid_of(payload);
    let seen = m.rolled(grid, turned);
    lemma_sizes(m);
    lemma_grid_sync(m, payload, turned);
    lemma_sync_shift(m, seen, turned);
    let s = m.sync_shift(seen);
    lemma_rolled_back(m, grid, turned);
    lemma_read_grid(m, payload);
    let code = m.codeword(payload);
    let e = m.ranked_erasures(m.rolled(conf, s), threshold);
    law_ranked_erasures_capped(m, m.rolled(conf, s), threshold);
    lemma_no_errors(code, e, code.len());
    law_decode_conf_recovers(m, payload, seen, conf, threshold, e);
    lemma_no_differences(code, m.code_len());
}

/// Nothing differs from itself.
proof fn lemma_no_differences(a: Seq<u8>, n: nat)
    ensures
        differences(a, a, n) == 0,
    decreases n,
{
    if n > 0 {
        lemma_no_differences(a, (n - 1) as nat);
    }
}

/// Whatever decodes can be encoded.
pub proof fn law_decoded_encodes(m: &MarkerSpec, grid: Seq<u8>, unreliable: Option<Seq<bool>>)
    requires
        m.wf(),
        grid.len() >= m.cells(),
    ensures
        m.decoded_grid(grid, unreliable).0 matches Some(payload) ==> m.encodable(payload),
{
    let s = m.decoded_grid(grid, unreliable).1;
    let marks = match unreliable {
        Some(u) => Some(m.rolled(u, s)),
        None => None,
    };
    if let Some(u) = marks {
        law_flagged_erasures_capped(m, u);
    }
    lemma_read_has(m, m.rolled(grid, s));
    law_recovered_is_encoded(m, m.read(m.rolled(grid, s)), m.erasures(marks));
}

/// Whatever decodes with confidences can be encoded.
pub proof fn law_decoded_conf_encodes(
    m: &MarkerSpec,
    grid: Seq<u8>,
    conf: Seq<u32>,
    threshold: u32,
)
    requires
        m.wf(),
        grid.len() >= m.cells(),
    ensures
        m.decoded_ranked(grid, conf, threshold).0 matches Some((payload, stats)) ==> m.encodable(
            payload,
        ) && stats.erasures <= m.erasure_cap(),
{
    let s = m.decoded_ranked(grid, conf, threshold).1;
    lemma_sizes(m);
    lemma_read_has(m, m.rolled(grid, s));
    law_ranked_erasures_capped(m, m.rolled(conf, s), threshold);
    law_recovered_is_encoded(
        m,
        m.read(m.rolled(grid, s)),
        m.ranked_erasures(m.rolled(conf, s), threshold),
    );
}

} // verus!
