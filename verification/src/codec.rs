//! Payloads and cell grids. A grid is a flat row of cells, ring by ring:
//! `grid[ring * sector_count + sector]`. The bits of a codeword, each symbol
//! from its highest bit down, run through the data cells sector by sector, and
//! in each sector from the first data ring outwards.
use crate::digits::{
    all_digits, digits, from_digits, lemma_digits_of_value, lemma_digits_shape,
    lemma_power_monotonic, lemma_powers, power, to_digits, value,
};
use crate::gf16;
use crate::gf16::{crc4, crc4_of};
use crate::gf256;
use crate::gf256::{crc8, crc8_of};
use crate::marker::MarkerSpec;
use crate::rs::{decoded, encoded, lemma_decoded_has};
use crate::seqs::prefix;
use crate::text::{number_text, number_text_of};
use vstd::prelude::*;

verus! {

/// Why a payload cannot be encoded.
#[derive(Clone, Copy, Debug, PartialEq, Eq, Structural)]
pub enum CodecError {
    /// The payload has the wrong number of bytes.
    Length { expected: usize, got: usize },
    /// The payload, as a number, has more bits than fit.
    TooBig { bits: usize },
}

impl CodecError {
    /// The error in words.
    pub open spec fn words(self) -> Seq<char> {
        match self {
            CodecError::Length { expected, got } => "payload must be "@ + number_text_of(
                expected as nat,
                10,
            ) + " bytes, got "@ + number_text_of(got as nat, 10),
            CodecError::TooBig { bits } => "payload exceeds "@ + number_text_of(bits as nat, 10)
                + " bits"@,
        }
    }

    /// The error in words.
    pub fn text(self) -> (s: String)
        ensures
            s@ == self.words(),
    {
        match self {
            CodecError::Length { expected, got } => {
                let mut s = String::from_str("payload must be ");
                s.append(number_text(expected as u128, 10).as_str());
                s.append(" bytes, got ");
                s.append(number_text(got as u128, 10).as_str());
                s
            },
            CodecError::TooBig { bits } => {
                let mut s = String::from_str("payload exceeds ");
                s.append(number_text(bits as u128, 10).as_str());
                s.append(" bits");
                s
            },
        }
    }
}

/// The Reed-Solomon work done for a successful decode.
#[derive(Clone, Copy, Debug, PartialEq, Eq, Structural)]
pub struct RsStats {
    /// The number of symbols erased up front.
    pub erasures: usize,
    /// The number of symbols whose value the decoder changed.
    pub corrected: usize,
}

impl Default for RsStats {
    fn default() -> (r: RsStats)
        ensures
            r.erasures == 0,
            r.corrected == 0,
    {
        RsStats { erasures: 0, corrected: 0 }
    }
}

impl MarkerSpec {
    /// The number of values of a symbol.
    pub open spec fn base(&self) -> nat {
        if self.symbol_bits == 4 {
            16
        } else {
            256
        }
    }

    /// The cell that holds the `k`-th bit of a codeword.
    pub open spec fn cell(&self, k: int) -> int {
        (self.first_ring() + k % (self.data_rings() as int)) * self.sector_count + k / (
        self.data_rings() as int)
    }

    /// Whether a payload can be encoded.
    pub open spec fn encodable(&self, payload: Seq<u8>) -> bool {
        payload.len() == self.bytes() && value(payload, 256) < power(2, self.bits())
    }

    /// Whether a payload is refused for a reason.
    pub open spec fn refuses(&self, payload: Seq<u8>, reason: CodecError) -> bool {
        match reason {
            CodecError::Length { expected, got } => {
                &&& payload.len() != self.bytes()
                &&& expected == self.bytes()
                &&& got == payload.len()
            },
            CodecError::TooBig { bits } => {
                &&& payload.len() == self.bytes()
                &&& value(payload, 256) >= power(2, self.bits())
                &&& bits == self.bits()
            },
        }
    }

    /// The symbols of a payload.
    pub open spec fn payload_symbols(&self, payload: Seq<u8>) -> Seq<u8> {
        digits(value(payload, 256), self.base(), (self.rs_k - 1) as nat)
    }

    /// The payload that symbols stand for.
    pub open spec fn payload_of(&self, syms: Seq<u8>) -> Seq<u8> {
        digits(value(syms, self.base()), 256, self.bytes())
    }

    /// The checksum of symbols.
    pub open spec fn checksum(&self, syms: Seq<u8>) -> u8 {
        if self.symbol_bits == 4 {
            crc4_of(syms)
        } else {
            crc8_of(syms)
        }
    }

    /// The codeword of a payload: its symbols, their checksum, the parity.
    pub open spec fn codeword(&self, payload: Seq<u8>) -> Seq<u8> {
        let syms = self.payload_symbols(payload);
        encoded(self.field(), syms.push(self.checksum(syms)), self.rs_nsym as nat)
    }

    /// The grid of a payload: the sync pattern, if any, and the codeword.
    pub open spec fn grid_of(&self, payload: Seq<u8>) -> Seq<u8> {
        let bits = unpacked(self.codeword(payload), self.symbol_bits as nat);
        Seq::new(
            self.cells(),
            |i: int|
                {
                    let (ring, sector) = (
                        i / (self.sector_count as int),
                        i % (self.sector_count as int),
                    );
                    if ring < self.first_ring() {
                        self.sync@[sector]
                    } else {
                        bits[sector * (self.data_rings() as int) + ring - self.first_ring()]
                    }
                },
        )
    }

    /// The values of some grid at the data cells, in the order of the bits of
    /// a codeword.
    pub open spec fn at_cells<T>(&self, grid: Seq<T>) -> Seq<T> {
        Seq::new(self.data_cells(), |k: int| grid[self.cell(k)])
    }

    /// The symbols that a grid holds.
    pub open spec fn read(&self, grid: Seq<u8>) -> Seq<u8> {
        packed(self.at_cells(grid), self.symbol_bits as nat)
    }

    /// The most symbols that are erased: one fewer than there are parity
    /// symbols. With all of them erased anything would decode.
    pub open spec fn erasure_cap(&self) -> nat {
        if self.rs_nsym == 0 {
            0
        } else {
            (self.rs_nsym - 1) as nat
        }
    }

    /// What is made of received symbols, some of them erased: the payload and
    /// the corrected codeword, if it decodes and its checksum holds.
    pub open spec fn recovered(&self, code: Seq<u8>, erasures: Seq<usize>) -> Option<
        (Seq<u8>, Seq<u8>),
    > {
        match decoded(self.field(), code, self.rs_nsym as nat, erasures, self.max_errors) {
            None => None,
            Some(word) => {
                let syms = word.take(self.rs_k - 1);
                if self.checksum(syms) == word[self.rs_k - 1] {
                    Some((self.payload_of(syms), word))
                } else {
                    None
                }
            },
        }
    }

    /// Whether symbol `i` has a cell that is marked as unreliable.
    pub open spec fn flagged(&self, unreliable: Seq<bool>, i: int) -> bool {
        exists|k: int|
            i * self.symbol_bits <= k < (i + 1) * self.symbol_bits && #[trigger] self.at_cells(
                unreliable,
            )[k]
    }

    /// The symbols to erase for marked cells: the first ones that have such a
    /// cell, up to the cap.
    pub open spec fn flagged_erasures(&self, unreliable: Seq<bool>) -> Seq<usize> {
        let all = listed(|i: int| self.flagged(unreliable, i), self.code_len());
        if all.len() > self.erasure_cap() {
            all.take(self.erasure_cap() as int)
        } else {
            all
        }
    }

    /// The confidence in each symbol: that in its weakest cell.
    pub open spec fn reliabilities(&self, conf: Seq<u32>) -> Seq<u32> {
        Seq::new(
            self.code_len(),
            |i: int|
                least(
                    self.at_cells(conf).subrange(
                        i * self.symbol_bits,
                        (i + 1) * self.symbol_bits,
                    ),
                ),
        )
    }

    /// The symbols to erase for given confidences: those under the threshold
    /// among the weakest, up to the cap.
    pub open spec fn ranked_erasures(&self, conf: Seq<u32>, threshold: u32) -> Seq<usize> {
        let rel = self.reliabilities(conf);
        listed(
            |i: int| rel[i] < threshold && rank(rel, i, self.code_len()) < self.erasure_cap(),
            self.code_len(),
        )
    }

    /// The erasures of the two ways to give them, if any.
    pub open spec fn erasures(&self, unreliable: Option<Seq<bool>>) -> Seq<usize> {
        match unreliable {
            Some(u) => self.flagged_erasures(u),
            None => seq![],
        }
    }

    /// A grid turned by some sectors: each ring read from sector `shift` on.
    /// What there is beyond the cells is left out.
    pub open spec fn rolled<T>(&self, grid: Seq<T>, shift: int) -> Seq<T> {
        let n = self.sector_count as int;
        Seq::new(self.cells(), |i: int| grid[(i / n) * n + (i % n + shift) % n])
    }

    /// What an aligned grid decodes to.
    pub open spec fn decoded_at(
        &self,
        grid: Seq<u8>,
        unreliable: Option<Seq<bool>>,
        shift: int,
    ) -> Option<Seq<u8>> {
        let marks = match unreliable {
            Some(u) => Some(self.rolled(u, shift)),
            None => None,
        };
        match self.recovered(self.read(self.rolled(grid, shift)), self.erasures(marks)) {
            Some((payload, word)) => Some(payload),
            None => None,
        }
    }

    /// What an aligned grid with confidences decodes to.
    pub open spec fn decoded_ranked_at(
        &self,
        grid: Seq<u8>,
        conf: Seq<u32>,
        threshold: u32,
        shift: int,
    ) -> Option<(Seq<u8>, RsStats)> {
        let code = self.read(self.rolled(grid, shift));
        let erasures = self.ranked_erasures(self.rolled(conf, shift), threshold);
        match self.recovered(code, erasures) {
            Some((payload, word)) => Some(
                (
                    payload,
                    RsStats {
                        erasures: erasures.len() as usize,
                        corrected: differences(code, word, code.len()) as usize,
                    },
                ),
            ),
            None => None,
        }
    }

    /// The shift that the sync ring calls for.
    pub open spec fn sync_shift(&self, grid: Seq<u8>) -> int {
        first_best(correlations(self.sync@, grid, self.sector_count as nat), self.sector_count as nat)
    }

    /// The payload of a grid, if any, and the rotation: the one that the sync
    /// ring calls for or, without a sync ring, the first under which the grid
    /// decodes.
    pub open spec fn decoded_grid(
        &self,
        grid: Seq<u8>,
        unreliable: Option<Seq<bool>>,
    ) -> (Option<Seq<u8>>, int) {
        if self.has_sync {
            let s = self.sync_shift(grid);
            (self.decoded_at(grid, unreliable, s), s)
        } else {
            let s = first_hit(
                |t: int| self.decoded_at(grid, unreliable, t) is Some,
                0,
                self.sector_count as int,
            );
            if s < self.sector_count {
                (self.decoded_at(grid, unreliable, s), s)
            } else {
                (None, 0)
            }
        }
    }

    /// The same for a grid with confidences.
    pub open spec fn decoded_ranked(
        &self,
        grid: Seq<u8>,
        conf: Seq<u32>,
        threshold: u32,
    ) -> (Option<(Seq<u8>, RsStats)>, int) {
        if self.has_sync {
            let s = self.sync_shift(grid);
            (self.decoded_ranked_at(grid, conf, threshold, s), s)
        } else {
            let s = first_hit(
                |t: int| self.decoded_ranked_at(grid, conf, threshold, t) is Some,
                0,
                self.sector_count as int,
            );
            if s < self.sector_count {
                (self.decoded_ranked_at(grid, conf, threshold, s), s)
            } else {
                (None, 0)
            }
        }
    }
}

/// The lowest bits of cells.
pub open spec fn parities(bits: Seq<u8>) -> Seq<u8> {
    Seq::new(bits.len(), |i: int| (bits[i] % 2) as u8)
}

/// Bits packed into symbols of `sb` bits, the highest first.
pub open spec fn packed(bits: Seq<u8>, sb: nat) -> Seq<u8> {
    Seq::new(
        bits.len() / sb,
        |i: int| value(parities(bits.subrange(i * sb, (i + 1) * sb)), 2) as u8,
    )
}

/// The bits of symbols of `sb` bits, the highest first.
pub open spec fn unpacked(syms: Seq<u8>, sb: nat) -> Seq<u8> {
    Seq::new(syms.len() * sb, |k: int| digits(syms[k / (sb as int)] as nat, 2, sb)[k % (sb as int)])
}

/// The numbers below `n` that satisfy `p`, in ascending order.
pub open spec fn listed(p: spec_fn(int) -> bool, n: nat) -> Seq<usize>
    decreases n,
{
    if n == 0 {
        seq![]
    } else {
        let before = listed(p, (n - 1) as nat);
        if p(n - 1) {
            before.push((n - 1) as usize)
        } else {
            before
        }
    }
}

/// The least entry.
pub open spec fn least(s: Seq<u32>) -> u32
    decreases s.len(),
{
    if s.len() <= 1 {
        s[0]
    } else {
        let before = least(s.drop_last());
        if s.last() < before {
            s.last()
        } else {
            before
        }
    }
}

/// How many of the first `n` entries come before entry `i` in ascending
/// order, equal ones in the order of their positions.
pub open spec fn rank(s: Seq<u32>, i: int, n: nat) -> nat
    decreases n,
{
    if n == 0 {
        0
    } else {
        let j = n - 1;
        rank(s, i, (n - 1) as nat) + if s[j] < s[i] || (s[j] == s[i] && j < i) {
            1nat
        } else {
            0nat
        }
    }
}

/// The number of the first `n` positions where two sequences differ.
pub open spec fn differences(a: Seq<u8>, b: Seq<u8>, n: nat) -> nat
    decreases n,
{
    if n == 0 {
        0
    } else {
        differences(a, b, (n - 1) as nat) + if a[n - 1] != b[n - 1] {
            1nat
        } else {
            0nat
        }
    }
}

/// The sign of a cell.
pub open spec fn sign(b: u8) -> int {
    if b > 0 {
        1
    } else {
        -1
    }
}

/// The correlation of the first `k` cells of a pattern with the observed
/// ring, read from sector `shift` on.
pub open spec fn correlation(sync: Seq<u8>, ring: Seq<u8>, shift: int, n: nat, k: nat) -> int
    decreases k,
{
    if k == 0 {
        0
    } else {
        correlation(sync, ring, shift, n, (k - 1) as nat) + sign(sync[k - 1]) * sign(
            ring[(k - 1 + shift) % (n as int)],
        )
    }
}

/// The correlations under each of the `n` rotations.
pub open spec fn correlations(sync: Seq<u8>, ring: Seq<u8>, n: nat) -> Seq<int> {
    Seq::new(n, |s: int| correlation(sync, ring, s, n, n))
}

/// The first of the largest among the first `n` entries.
pub open spec fn first_best(s: Seq<int>, n: nat) -> int
    decreases n,
{
    if n <= 1 {
        0
    } else {
        let best = first_best(s, (n - 1) as nat);
        if s[n - 1] > s[best] {
            n - 1
        } else {
            best
        }
    }
}

/// The first number from `i` on that satisfies `p`, or `n` if there is none
/// below it.
pub open spec fn first_hit(p: spec_fn(int) -> bool, i: int, n: int) -> int
    decreases n - i,
{
    if i >= n || p(i) {
        i
    } else {
        first_hit(p, i + 1, n)
    }
}

/// The sizes that the parts of a well-formed format have.
pub proof fn lemma_sizes(m: &MarkerSpec)
    requires
        m.wf(),
    ensures
        m.data_rings() >= 1,
        m.first_ring() + m.data_rings() == m.ring_count,
        1 <= m.sector_count <= 2040,
        1 <= m.ring_count <= 2041,
        m.cells() <= 1_000_000,
        m.data_cells() <= m.cells(),
        2 <= m.code_len() <= 255,
        m.base() == power(2, m.symbol_bits as nat),
        1 <= m.bytes() <= 16,
        m.rs_k - 1 <= 32,
        m.bits() == (m.rs_k - 1) * m.symbol_bits,
        power(m.base(), (m.rs_k - 1) as nat) == power(2, m.bits()),
        power(2, m.bits()) <= power(256, m.bytes()) <= u128::MAX + 1,
{
    lemma_powers();
    let (r, n, dr) = (m.ring_count as int, m.sector_count as int, m.data_rings() as int);
    assert(dr >= 1) by {
        if dr == 0 {
            assert(dr * n == 0) by (nonlinear_arith)
                requires
                    dr == 0,
            ;
            assert(m.code_len() * (m.symbol_bits as nat) >= 2 * 4) by (nonlinear_arith)
                requires
                    m.code_len() >= 2,
                    m.symbol_bits >= 4,
            ;
        }
    }
    assert(m.code_len() * (m.symbol_bits as nat) <= 255 * 8) by (nonlinear_arith)
        requires
            m.code_len() <= 255,
            m.symbol_bits <= 8,
    ;
    assert(n <= dr * n && dr <= dr * n && dr * n <= r * n && r * n <= dr * n + n)
        by (nonlinear_arith)
        requires
            1 <= dr <= r <= dr + 1,
            1 <= n,
    ;
    let k = (m.rs_k - 1) as nat;
    assert(k * m.symbol_bits <= 128 ==> k <= 32) by (nonlinear_arith)
        requires
            m.symbol_bits >= 4,
    ;
    assert(k * m.symbol_bits >= 1) by (nonlinear_arith)
        requires
            m.symbol_bits >= 4,
            k >= 1,
    ;
    lemma_power_power(m.symbol_bits as nat, k);
    lemma_power_power(8, m.bytes());
    assert(m.bits() <= 8 * m.bytes());
    lemma_power_monotonic(2, m.bits(), 8 * m.bytes());
    lemma_power_monotonic(256, m.bytes(), 16);
    assert(m.symbol_bits as nat * k == m.bits()) by (nonlinear_arith)
        requires
            m.bits() == (m.rs_k - 1) * m.symbol_bits,
            k == m.rs_k - 1,
    ;
}

/// Powers of powers of two.
proof fn lemma_power_power(a: nat, k: nat)
    ensures
        power(power(2, a), k) == power(2, a * k),
    decreases k,
{
    if k == 0 {
        assert(a * k == 0) by (nonlinear_arith)
            requires
                k == 0,
        ;
    } else {
        let j = (k - 1) as nat;
        lemma_power_power(a, j);
        assert(a * j + a == a * k) by (nonlinear_arith)
            requires
                k == j + 1,
        ;
        crate::digits::lemma_power_add(2, a * j, a);
    }
}

/// Data cells lie in the grid.
pub proof fn lemma_cell(m: &MarkerSpec, k: int)
    requires
        m.wf(),
        0 <= k < m.data_cells(),
    ensures
        0 <= m.cell(k) < m.cells(),
        0 <= k % (m.data_rings() as int) < m.data_rings(),
        0 <= k / (m.data_rings() as int) < m.sector_count,
{
    lemma_sizes(m);
    let (dr, n, f) = (m.data_rings() as int, m.sector_count as int, m.first_ring() as int);
    let (q, r) = (k / dr, k % dr);
    vstd::arithmetic::div_mod::lemma_fundamental_div_mod(k, dr);
    assert(0 <= r < dr && 0 <= q < n) by (nonlinear_arith)
        requires
            k == dr * q + r,
            0 <= k < dr * n,
            dr >= 1,
            r == k % dr,
    ;
    assert(0 <= (f + r) * n + q < (f + dr) * n) by (nonlinear_arith)
        requires
            0 <= r < dr,
            0 <= q < n,
            f >= 0,
    ;
}

/// Packs bits into symbols of `sb` bits, the highest first.
fn bits_to_syms(bits: &[u8], sb: usize) -> (out: Vec<u8>)
    requires
        sb == 4 || sb == 8,
        bits@.len() % (sb as nat) == 0,
    ensures
        out@ == packed(bits@, sb as nat),
{
    let len = bits.len();
    let n = len / sb;
    let mut out: Vec<u8> = Vec::new();
    let mut i: usize = 0;
    while i < n
        invariant
            sb == 4 || sb == 8,
            len == bits@.len(),
            n == bits@.len() / (sb as nat),
            n * sb == len,
            i <= n,
            out@ == packed(bits@, sb as nat).take(i as int),
        decreases n - i,
    {
        assert(i * sb + sb <= n * sb) by (nonlinear_arith)
            requires
                i < n,
        ;
        let start = i * sb;
        let ghost chunk = bits@.subrange(i * sb, (i + 1) * sb);
        assert((i + 1) * sb == i * sb + sb) by (nonlinear_arith);
        let mut b: u8 = 0;
        let mut j: usize = 0;
        assert(parities(chunk).take(0) =~= seq![]);
        while j < sb
            invariant
                sb == 4 || sb == 8,
                j <= sb,
                start == i * sb,
                start + sb <= bits@.len(),
                chunk == bits@.subrange(start as int, start + sb),
                b == value(parities(chunk).take(j as int), 2),
            decreases sb - j,
        {
            proof {
                let t = parities(chunk).take(j + 1);
                assert(t.drop_last() =~= parities(chunk).take(j as int));
                assert(t.last() == bits@[start + j] % 2);
                assert(all_digits(t, 2));
                lemma_digits_of_value(t, 2);
                lemma_power_monotonic(2, (j + 1) as nat, 8);
                lemma_powers();
            }
            b = b * 2 + bits[start + j] % 2;
            j += 1;
        }
        assert(parities(chunk).take(j as int) =~= parities(chunk));
        out.push(b);
        i += 1;
        assert(out@ =~= packed(bits@, sb as nat).take(i as int));
    }
    assert(out@ =~= packed(bits@, sb as nat));
    out
}

/// The bits of symbols of `sb` bits, the highest first.
fn syms_to_bits(syms: &[u8], sb: usize) -> (bits: Vec<u8>)
    requires
        1 <= sb <= 8,
    ensures
        bits@ == unpacked(syms@, sb as nat),
{
    let mut bits: Vec<u8> = Vec::new();
    let mut i: usize = 0;
    assert(0 * (sb as nat) == 0) by (nonlinear_arith);
    assert(bits@ =~= unpacked(syms@.take(0), sb as nat));
    while i < syms.len()
        invariant
            1 <= sb <= 8,
            i <= syms@.len(),
            bits@ == unpacked(syms@.take(i as int), sb as nat),
        decreases syms.len() - i,
    {
        let mut d = to_digits(syms[i] as u128, 2, sb);
        let ghost dd = d@;
        let ghost before = bits@;
        bits.append(&mut d);
        proof {
            let (t, u) = (syms@.take(i as int), syms@.take(i + 1));
            assert((i + 1) * sb == i * sb + sb) by (nonlinear_arith);
            assert forall|k: int| 0 <= k < bits@.len() implies bits@[k] == unpacked(
                u,
                sb as nat,
            )[k] by {
                lemma_split(k, sb as int, i as int);
                if k < i * sb {
                    assert(before[k] == unpacked(t, sb as nat)[k]);
                    assert(t[k / (sb as int)] == u[k / (sb as int)]);
                } else {
                    assert(u[i as int] == syms@[i as int]);
                }
            }
            assert(bits@ =~= unpacked(u, sb as nat));
        }
        i += 1;
    }
    assert(syms@.take(i as int) =~= syms@);
    bits
}

/// Where position `k` of rows of length `b` stands.
proof fn lemma_split(k: int, b: int, i: int)
    requires
        b >= 1,
        0 <= k < (i + 1) * b,
        i >= 0,
    ensures
        0 <= k / b <= i,
        0 <= k % b < b,
        k == (k / b) * b + k % b,
        k < i * b ==> k / b < i,
        k >= i * b ==> k / b == i && k % b == k - i * b,
{
    vstd::arithmetic::div_mod::lemma_fundamental_div_mod(k, b);
    let (q, r) = (k / b, k % b);
    assert(0 <= r < b && 0 <= q <= i && (k < i * b ==> q < i) && (k >= i * b ==> q == i))
        by (nonlinear_arith)
        requires
            k == b * q + r,
            r == k % b,
            b >= 1,
            0 <= k < (i + 1) * b,
            i >= 0,
    ;
    assert(b * q == q * b) by (nonlinear_arith);
    assert(k >= i * b ==> q * b == i * b) by (nonlinear_arith)
        requires
            k >= i * b ==> q == i,
    ;
}

/// The symbols of a payload.
fn payload_to_syms(payload: &[u8], marker: &MarkerSpec) -> (r: Result<Vec<u8>, CodecError>)
    requires
        marker.wf(),
    ensures
        match r {
            Ok(syms) => marker.encodable(payload@) && syms@ == marker.payload_symbols(payload@),
            Err(e) => marker.refuses(payload@, e),
        },
{
    proof {
        lemma_sizes(marker);
    }
    let n = marker.payload_bytes();
    if payload.len() != n {
        return Err(CodecError::Length { expected: n, got: payload.len() });
    }
    let v = from_digits(payload, 256);
    let bits = marker.payload_bits();
    proof {
        lemma_pow2_is_power(bits as nat);
        if bits < 128 {
            vstd::bits::lemma_u128_shr_is_div(v, bits as u128);
            vstd::arithmetic::power2::lemma_pow2_pos(bits as nat);
            let p = power(2, bits as nat);
            assert((v as nat) / p == 0 <==> v < p) by (nonlinear_arith)
                requires
                    p >= 1,
            ;
        }
    }
    if bits < 128 && v >> (bits as u128) != 0 {
        return Err(CodecError::TooBig { bits });
    }
    Ok(to_digits(v, symbol_base(marker), marker.rs_k - 1))
}

/// Powers of two by either name.
proof fn lemma_pow2_is_power(n: nat)
    ensures
        vstd::arithmetic::power2::pow2(n) == power(2, n),
        power(2, 128) == u128::MAX + 1,
    decreases n,
{
    lemma_power_power(8, 16);
    lemma_powers();
    if n == 0 {
        vstd::arithmetic::power2::lemma2_to64();
    } else {
        lemma_pow2_is_power((n - 1) as nat);
        vstd::arithmetic::power2::lemma_pow2_unfold(n);
    }
}

/// The number of values of a symbol.
fn symbol_base(marker: &MarkerSpec) -> (b: u16)
    requires
        marker.wf(),
    ensures
        b == marker.base(),
{
    if marker.symbol_bits == 4 {
        16
    } else {
        256
    }
}

/// The payload that symbols stand for.
fn syms_to_payload(syms: &[u8], marker: &MarkerSpec) -> (payload: Vec<u8>)
    requires
        marker.wf(),
        syms@.len() == marker.rs_k - 1,
        marker.field().has_all(syms@),
    ensures
        payload@ == marker.payload_of(syms@),
{
    proof {
        lemma_sizes(marker);
        assert forall|i: int| 0 <= i < syms@.len() implies (#[trigger] syms@[i] as nat)
            < marker.base() by {
            assert(marker.field().has(syms@[i]));
        }
    }
    let v = from_digits(syms, symbol_base(marker));
    to_digits(v, 256, marker.payload_bytes())
}

/// The checksum of symbols.
fn crc_of(syms: &[u8], marker: &MarkerSpec) -> (c: u8)
    ensures
        c == marker.checksum(syms@),
{
    if marker.symbol_bits == 4 {
        crc4(syms)
    } else {
        crc8(syms)
    }
}

/// The codeword of data symbols.
fn rs_encode_spec(data: &[u8], marker: &MarkerSpec) -> (code: Vec<u8>)
    requires
        marker.wf(),
        data@.len() == marker.rs_k,
    ensures
        code@ == encoded(marker.field(), data@, marker.rs_nsym as nat),
        code@.len() == marker.code_len(),
{
    if marker.symbol_bits == 4 {
        gf16::rs_encode(data, marker.rs_nsym)
    } else {
        gf256::rs_encode(data, marker.rs_nsym)
    }
}

/// Corrects received symbols.
fn rs_decode_spec(code: &[u8], marker: &MarkerSpec, erase_pos: &[usize]) -> (r: Result<
    (Vec<u8>, Vec<u8>),
    (),
>)
    requires
        marker.wf(),
        code@.len() == marker.code_len(),
        forall|i: int| 0 <= i < erase_pos@.len() ==> #[trigger] erase_pos@[i] < code@.len(),
    ensures
        ({
            let d = decoded(
                marker.field(),
                code@,
                marker.rs_nsym as nat,
                erase_pos@,
                marker.max_errors,
            );
            match r {
                Ok((data, word)) => d == Some(word@) && word@.len() == code@.len() && data@
                    == word@.take(marker.rs_k as int),
                Err(_) => d is None,
            }
        }),
{
    if marker.symbol_bits == 4 {
        gf16::rs_decode(code, marker.rs_nsym, erase_pos, marker.max_errors)
    } else {
        gf256::rs_decode_capped(code, marker.rs_nsym, erase_pos, marker.max_errors)
    }
}

/// The data cell of a ring and sector.
proof fn lemma_cell_of(m: &MarkerSpec, ring: int, sector: int)
    requires
        m.wf(),
        m.first_ring() <= ring < m.ring_count,
        0 <= sector < m.sector_count,
    ensures
        0 <= sector * m.data_rings() + ring - m.first_ring() < m.data_cells(),
        m.cell(sector * m.data_rings() + ring - m.first_ring()) == ring * m.sector_count + sector,
        (ring * m.sector_count + sector) / (m.sector_count as int) == ring,
        (ring * m.sector_count + sector) % (m.sector_count as int) == sector,
        0 <= ring * m.sector_count + sector < m.cells(),
{
    lemma_sizes(m);
    let (dr, n, f) = (m.data_rings() as int, m.sector_count as int, m.first_ring() as int);
    let rd = ring - f;
    let k = sector * dr + rd;
    assert(0 <= k < dr * n && k == dr * sector + rd) by (nonlinear_arith)
        requires
            0 <= sector < n,
            0 <= rd < dr,
            k == sector * dr + rd,
    ;
    vstd::arithmetic::div_mod::lemma_fundamental_div_mod_converse(k, dr, sector, rd);
    let i = ring * n + sector;
    assert(i == n * ring + sector && 0 <= i < (f + dr) * n) by (nonlinear_arith)
        requires
            i == ring * n + sector,
            0 <= sector < n,
            0 <= ring < f + dr,
    ;
    vstd::arithmetic::div_mod::lemma_fundamental_div_mod_converse(i, n, ring, sector);
}

/// The grid of a payload: its symbols, a checksum and the parity, laid out on
/// the data cells, with the sync ring set.
pub fn encode(payload: &[u8], marker: &MarkerSpec) -> (r: Result<Vec<u8>, CodecError>)
    requires
        marker.wf(),
    ensures
        match r {
            Ok(grid) => marker.encodable(payload@) && grid@ == marker.grid_of(payload@),
            Err(e) => marker.refuses(payload@, e),
        },
{
    proof {
        lemma_sizes(marker);
    }
    let mut data = match payload_to_syms(payload, marker) {
        Ok(syms) => syms,
        Err(e) => return Err(e),
    };
    proof {
        lemma_digits_shape(value(payload@, 256), marker.base(), (marker.rs_k - 1) as nat);
    }
    let crc = crc_of(&data, marker);
    data.push(crc);
    let code = rs_encode_spec(&data, marker);
    let bits = syms_to_bits(&code, marker.symbol_bits);
    let n = marker.sector_count;
    let dr = marker.data_ring_count();
    let r0 = marker.first_data_ring();
    let mut grid: Vec<u8> = Vec::new();
    let ghost whole = marker.grid_of(payload@);
    let mut ring: usize = 0;
    while ring < marker.ring_count
        invariant
            marker.wf(),
            n == marker.sector_count,
            dr == marker.data_rings(),
            r0 == marker.first_ring(),
            ring <= marker.ring_count,
            grid@.len() == ring * n,
            ring * n <= marker.cells(),
            whole == marker.grid_of(payload@),
            bits@ == unpacked(marker.codeword(payload@), marker.symbol_bits as nat),
            bits@.len() == marker.data_cells(),
            grid@ == whole.take(ring * n),
        decreases marker.ring_count - ring,
    {
        assert((ring + 1) * n == ring * n + n && (ring + 1) * n <= marker.ring_count * n)
            by (nonlinear_arith)
            requires
                ring < marker.ring_count,
        ;
        let mut sector: usize = 0;
        while sector < n
            invariant
                marker.wf(),
                n == marker.sector_count,
                dr == marker.data_rings(),
                r0 == marker.first_ring(),
                ring < marker.ring_count,
                sector <= n,
                (ring + 1) * n == ring * n + n,
                (ring + 1) * n <= marker.cells(),
                grid@.len() == ring * n + sector,
                whole == marker.grid_of(payload@),
                bits@ == unpacked(marker.codeword(payload@), marker.symbol_bits as nat),
                bits@.len() == marker.data_cells(),
                grid@ == whole.take(ring * n + sector),
            decreases n - sector,
        {
            proof {
                lemma_sizes(marker);
                let i = ring * n + sector;
                assert(i == n * ring + sector) by (nonlinear_arith)
                    requires
                        i == ring * n + sector,
                ;
                vstd::arithmetic::div_mod::lemma_fundamental_div_mod_converse(
                    i,
                    n as int,
                    ring as int,
                    sector as int,
                );
                if ring >= r0 {
                    lemma_cell_of(marker, ring as int, sector as int);
                }
            }
            let b: u8 = if ring < r0 {
                marker.sync[sector]
            } else {
                bits[sector * dr + (ring - r0)]
            };
            grid.push(b);
            assert(grid@ =~= whole.take(ring * n + sector + 1));
            sector += 1;
        }
        ring += 1;
    }
    assert(grid@ =~= whole);
    Ok(grid)
}

/// The rotation that aligns an observed sync ring with the sync pattern, the
/// first if several correlate best, and the correlations of all rotations.
pub fn find_rotation(ring0: &[u8], marker: &MarkerSpec) -> (r: (usize, Vec<i32>))
    requires
        marker.sync@.len() == marker.sector_count,
        ring0@.len() >= marker.sector_count,
        marker.sector_count <= 0x3fff_ffff,
    ensures
        r.0 == marker.sync_shift(ring0@),
        marker.sector_count > 0 ==> r.0 < marker.sector_count,
        r.1@.len() == marker.sector_count,
        forall|s: int|
            0 <= s < marker.sector_count ==> #[trigger] r.1@[s] == correlation(
                marker.sync@,
                ring0@,
                s,
                marker.sector_count as nat,
                marker.sector_count as nat,
            ),
{
    let n = marker.sector_count;
    let mut scores: Vec<i32> = Vec::new();
    let ghost all = correlations(marker.sync@, ring0@, n as nat);
    let mut best: usize = 0;
    let mut s: usize = 0;
    while s < n
        invariant
            n == marker.sector_count,
            n <= 0x3fff_ffff,
            marker.sync@.len() == n,
            ring0@.len() >= n,
            all == correlations(marker.sync@, ring0@, n as nat),
            s <= n,
            scores@.len() == s,
            forall|k: int| 0 <= k < s ==> #[trigger] scores@[k] == all[k],
            best == first_best(all, s as nat),
            s > 0 ==> best < s,
            s == 0 ==> best == 0,
        decreases n - s,
    {
        let mut acc: i32 = 0;
        let mut i: usize = 0;
        while i < n
            invariant
                n == marker.sector_count,
                n <= 0x3fff_ffff,
                marker.sync@.len() == n,
                ring0@.len() >= n,
                s < n,
                i <= n,
                acc == correlation(marker.sync@, ring0@, s as int, n as nat, i as nat),
                -i <= acc <= i,
            decreases n - i,
        {
            let same = (marker.sync[i] > 0) == (ring0[(i + s) % n] > 0);
            if same {
                acc += 1;
            } else {
                acc -= 1;
            }
            i += 1;
        }
        scores.push(acc);
        assert(scores@[s as int] == all[s as int]);
        if acc > scores[best] {
            best = s;
        }
        s += 1;
    }
    (best, scores)
}

/// Cells turned by some sectors.
fn roll<T: Copy>(cells: &[T], marker: &MarkerSpec, shift: usize) -> (out: Vec<T>)
    requires
        marker.wf(),
        cells@.len() >= marker.cells(),
    ensures
        out@ == marker.rolled(cells@, shift as int),
{
    proof {
        lemma_sizes(marker);
    }
    let n = marker.sector_count;
    let total = marker.ring_count * marker.sector_count;
    let mut out: Vec<T> = Vec::new();
    let mut i: usize = 0;
    while i < total
        invariant
            marker.wf(),
            n == marker.sector_count,
            total <= cells@.len(),
            total == marker.cells(),
            total <= 1_000_000,
                n <= 2040,
            i <= total,
            out@ == marker.rolled(cells@, shift as int).take(i as int),
        decreases total - i,
    {
        proof {
            lemma_rolled_index(marker, i as int, shift as int);
        }
        let ring = i / n;
        let sector = i % n;
        proof {
            vstd::arithmetic::div_mod::lemma_add_mod_noop_right(
                sector as int,
                shift as int,
                n as int,
            );
        }
        out.push(cells[ring * n + (sector + shift % n) % n]);
        i += 1;
        assert(out@ =~= marker.rolled(cells@, shift as int).take(i as int));
    }
    assert(out@ =~= marker.rolled(cells@, shift as int));
    out
}

/// Rolling stays on the ring.
pub proof fn lemma_rolled_index(m: &MarkerSpec, i: int, shift: int)
    requires
        m.wf(),
        0 <= i < m.cells(),
        0 <= shift,
    ensures
        ({
            let n = m.sector_count as int;
            let j = (i / n) * n + (i % n + shift) % n;
            &&& 0 <= i / n < m.ring_count
            &&& 0 <= i % n < n
            &&& 0 <= (i / n) * n <= j < m.cells()
            &&& j / n == i / n
            &&& j % n == (i % n + shift) % n
        }),
{
    let (n, r) = (m.sector_count as int, m.ring_count as int);
    vstd::arithmetic::div_mod::lemma_fundamental_div_mod(i, n);
    let (q, t) = (i / n, i % n);
    let u = (t + shift) % n;
    assert(0 <= t < n && 0 <= q < r) by (nonlinear_arith)
        requires
            i == n * q + t,
            t == i % n,
            0 <= i < r * n,
            n >= 1,
    ;
    assert(0 <= u < n);
    assert(0 <= q * n && q * n + u < r * n && q * n == n * q) by (nonlinear_arith)
        requires
            0 <= q < r,
            0 <= u < n,
    ;
    vstd::arithmetic::div_mod::lemma_fundamental_div_mod_converse(n * q + u, n, q, u);
}

/// A grid turned by some sectors: each ring is read from sector `shift` on.
pub fn roll_grid(grid: &[u8], marker: &MarkerSpec, shift: usize) -> (out: Vec<u8>)
    requires
        marker.wf(),
        grid@.len() >= marker.cells(),
    ensures
        out@ == marker.rolled(grid@, shift as int),
{
    roll(grid, marker, shift)
}

/// Marks turned along with their grid.
fn roll_erasure(marks: &[bool], marker: &MarkerSpec, shift: usize) -> (out: Vec<bool>)
    requires
        marker.wf(),
        marks@.len() >= marker.cells(),
    ensures
        out@ == marker.rolled(marks@, shift as int),
{
    roll(marks, marker, shift)
}

/// Confidences turned along with their grid.
fn roll_conf(conf: &[u32], marker: &MarkerSpec, shift: usize) -> (out: Vec<u32>)
    requires
        marker.wf(),
        conf@.len() >= marker.cells(),
    ensures
        out@ == marker.rolled(conf@, shift as int),
{
    roll(conf, marker, shift)
}

/// The values at the data cells, in the order of the bits of a codeword.
fn data_cells<T: Copy>(cells: &[T], marker: &MarkerSpec) -> (out: Vec<T>)
    requires
        marker.wf(),
        cells@.len() == marker.cells(),
    ensures
        out@ == marker.at_cells(cells@),
        out@.len() == marker.code_len() * (marker.symbol_bits as nat),
        out@.len() <= 1_000_000,
{
    proof {
        lemma_sizes(marker);
    }
    let dr = marker.data_ring_count();
    let r0 = marker.first_data_ring();
    let n = marker.sector_count;
    let mut out: Vec<T> = Vec::new();
    let mut s: usize = 0;
    assert(0 * dr == 0) by (nonlinear_arith);
    while s < n
        invariant
            marker.wf(),
            cells@.len() == marker.cells(),
            marker.cells() <= 1_000_000,
            dr == marker.data_rings(),
            r0 == marker.first_ring(),
            r0 + dr == marker.ring_count,
            n == marker.sector_count,
            s <= n,
            out@.len() == s * dr,
            s * dr <= marker.data_cells(),
            out@ == marker.at_cells(cells@).take(s * dr),
        decreases n - s,
    {
        assert((s + 1) * dr == s * dr + dr && (s + 1) * dr <= dr * n) by (nonlinear_arith)
            requires
                s < n,
        ;
        let mut rd: usize = 0;
        while rd < dr
            invariant
                marker.wf(),
                cells@.len() == marker.cells(),
                marker.cells() <= 1_000_000,
                dr == marker.data_rings(),
                r0 == marker.first_ring(),
                r0 + dr == marker.ring_count,
                n == marker.sector_count,
                s < n,
                rd <= dr,
                (s + 1) * dr == s * dr + dr,
                (s + 1) * dr <= marker.data_cells(),
                out@.len() == s * dr + rd,
                out@ == marker.at_cells(cells@).take(s * dr + rd),
            decreases dr - rd,
        {
            proof {
                lemma_cell_of(marker, r0 + rd, s as int);
            }
            out.push(cells[(r0 + rd) * n + s]);
            assert(out@ =~= marker.at_cells(cells@).take(s * dr + rd + 1));
            rd += 1;
        }
        s += 1;
    }
    assert(s * dr == dr * n) by (nonlinear_arith)
        requires
            s == n,
    ;
    assert(out@ =~= marker.at_cells(cells@));
    out
}

/// The symbols that a grid holds.
fn read_code(grid: &[u8], marker: &MarkerSpec) -> (code: Vec<u8>)
    requires
        marker.wf(),
        grid@.len() == marker.cells(),
    ensures
        code@ == marker.read(grid@),
        code@.len() == marker.code_len(),
{
    let bits = data_cells(grid, marker);
    proof {
        let (c, sb) = (marker.code_len() as int, marker.symbol_bits as int);
        vstd::arithmetic::div_mod::lemma_fundamental_div_mod_converse(c * sb, sb, c, 0);
    }
    bits_to_syms(&bits, marker.symbol_bits)
}

/// The payload and codeword recovered from received symbols, if they decode
/// and the checksum holds.
fn recover(code: &[u8], marker: &MarkerSpec, erase_pos: &[usize]) -> (r: Option<
    (Vec<u8>, Vec<u8>),
>)
    requires
        marker.wf(),
        code@.len() == marker.code_len(),
        marker.field().has_all(code@),
        forall|i: int| 0 <= i < erase_pos@.len() ==> #[trigger] erase_pos@[i] < code@.len(),
    ensures
        match r {
            Some((payload, word)) => marker.recovered(code@, erase_pos@) == Some(
                (payload@, word@),
            ) && word@.len() == code@.len(),
            None => marker.recovered(code@, erase_pos@) is None,
        },
{
    match rs_decode_spec(code, marker, erase_pos) {
        Err(_) => None,
        Ok((data, word)) => {
            let nds = marker.rs_k - 1;
            let syms = prefix(&data, nds);
            assert(syms@ =~= word@.take(nds as int));
            if crc_of(&syms, marker) != data[nds] {
                return None;
            }
            proof {
                lemma_decoded_has(
                    marker.field(),
                    code@,
                    marker.rs_nsym as nat,
                    erase_pos@,
                    marker.max_errors,
                );
                assert forall|i: int| 0 <= i < syms@.len() implies marker.field().has(
                    #[trigger] syms@[i],
                ) by {
                    assert(marker.field().has(word@[i]));
                }
            }
            Some((syms_to_payload(&syms, marker), word))
        },
    }
}

/// A listed number is below the bound.
pub proof fn lemma_listed(p: spec_fn(int) -> bool, n: nat)
    requires
        n <= usize::MAX,
    ensures
        listed(p, n).len() <= n,
        forall|t: int| 0 <= t < listed(p, n).len() ==> #[trigger] listed(p, n)[t] < n && p(
            listed(p, n)[t] as int,
        ),
        forall|t: int, u: int|
            0 <= t < u < listed(p, n).len() ==> #[trigger] listed(p, n)[t] < #[trigger] listed(
                p,
                n,
            )[u],
        forall|i: int| 0 <= i < n && #[trigger] p(i) ==> listed(p, n).contains(i as usize),
    decreases n,
{
    if n > 0 {
        let m = (n - 1) as nat;
        lemma_listed(p, m);
        let (before, after) = (listed(p, m), listed(p, n));
        assert forall|i: int| 0 <= i < n && #[trigger] p(i) implies after.contains(i as usize) by {
            if i < m {
                let w = choose|w: int| 0 <= w < before.len() && before[w] == i as usize;
                assert(after[w] == i as usize);
            } else {
                assert(after[before.len() as int] == i as usize);
            }
        }
    }
}

/// Packed symbols are elements of the field.
pub proof fn lemma_read_has(m: &MarkerSpec, grid: Seq<u8>)
    requires
        m.wf(),
    ensures
        m.field().has_all(m.read(grid)),
        m.read(grid).len() == m.code_len(),
{
    lemma_sizes(m);
    lemma_powers();
    let sb = m.symbol_bits as nat;
    let bits = m.at_cells(grid);
    let (c, b) = (m.code_len() as int, sb as int);
    vstd::arithmetic::div_mod::lemma_fundamental_div_mod_converse(c * b, b, c, 0);
    let syms = m.read(grid);
    assert forall|i: int| 0 <= i < syms.len() implies m.field().has(#[trigger] syms[i]) by {
        assert((i + 1) * b == i * b + b && 0 <= i * b && (i + 1) * b <= c * b) by (nonlinear_arith)
            requires
                0 <= i < c,
                b >= 1,
        ;
        let d = parities(bits.subrange(i * sb, (i + 1) * sb));
        assert(d.len() == sb);
        assert(all_digits(d, 2));
        lemma_digits_of_value(d, 2);
    }
}

/// Decodes an aligned grid, with the cells that are marked as unreliable, if
/// marks are given. Of the symbols that have such a cell the first ones are
/// erased, up to one fewer than there are parity symbols: with as many
/// erasures as that any grid would decode to something.
fn decode_aligned(grid: &[u8], marker: &MarkerSpec, erasure: Option<&[bool]>) -> (r: Option<
    Vec<u8>,
>)
    requires
        marker.wf(),
        grid@.len() == marker.cells(),
        erasure matches Some(e) ==> e@.len() == marker.cells(),
    ensures
        ({
            let marks = match erasure {
                Some(e) => Some(e@),
                None => None,
            };
            match (r, marker.recovered(marker.read(grid@), marker.erasures(marks))) {
                (Some(payload), Some((p, w))) => payload@ == p,
                (None, None) => true,
                _ => false,
            }
        }),
{
    let code = read_code(grid, marker);
    let erase_pos: Vec<usize> = match erasure {
        Some(e) => flagged_symbols(e, marker),
        None => Vec::new(),
    };
    proof {
        lemma_read_has(marker, grid@);
        if erasure is None {
            assert(erase_pos@ =~= seq![]);
        }
    }
    match recover(&code, marker, &erase_pos) {
        Some((payload, _)) => Some(payload),
        None => None,
    }
}

/// The symbols to erase for marked cells.
fn flagged_symbols(marks: &[bool], marker: &MarkerSpec) -> (r: Vec<usize>)
    requires
        marker.wf(),
        marks@.len() == marker.cells(),
    ensures
        r@ == marker.flagged_erasures(marks@),
        forall|i: int| 0 <= i < r@.len() ==> #[trigger] r@[i] < marker.code_len(),
        r@.len() <= marker.erasure_cap(),
{
    let unreliable = data_cells(marks, marker);
    let sb = marker.symbol_bits;
    let n = marker.rs_k + marker.rs_nsym;
    let cap = if marker.rs_nsym == 0 {
        0
    } else {
        marker.rs_nsym - 1
    };
    let ghost p = |i: int| marker.flagged(marks@, i);
    let mut out: Vec<usize> = Vec::new();
    let mut i: usize = 0;
    while i < n
        invariant
            marker.wf(),
            n == marker.code_len(),
            n <= 255,
            sb == marker.symbol_bits,
            unreliable@ == marker.at_cells(marks@),
            unreliable@.len() == n * sb,
            n * sb <= 1_000_000,
            i <= n,
            p == (|i: int| marker.flagged(marks@, i)),
            out@ == listed(p, i as nat),
        decreases n - i,
    {
        assert((i + 1) * sb == i * sb + sb && (i + 1) * sb <= n * sb) by (nonlinear_arith)
            requires
                i < n,
        ;
        let start = i * sb;
        let mut j: usize = 0;
        let mut hit = false;
        while j < sb
            invariant
                start == i * sb,
                (i + 1) * sb == start + sb,
                start + sb <= unreliable@.len() <= 1_000_000,
                j <= sb,
                hit <==> exists|k: int| start <= k < start + j && #[trigger] unreliable@[k],
            decreases sb - j,
        {
            if unreliable[start + j] {
                hit = true;
            }
            j += 1;
        }
        assert(hit == p(i as int));
        if hit {
            out.push(i);
        }
        i += 1;
    }
    proof {
        lemma_listed(p, n as nat);
        assert(marker.flagged_erasures(marks@) == if out@.len() > cap {
            out@.take(cap as int)
        } else {
            out@
        });
    }
    if out.len() > cap {
        let r = prefix_positions(&out, cap);
        assert forall|i: int| 0 <= i < r@.len() implies #[trigger] r@[i] < n by {
            assert(r@[i] == out@[i]);
        }
        r
    } else {
        out
    }
}

/// The first `n` positions.
fn prefix_positions(s: &[usize], n: usize) -> (r: Vec<usize>)
    requires
        n <= s@.len(),
    ensures
        r@ == s@.take(n as int),
{
    let mut r: Vec<usize> = Vec::new();
    let mut i: usize = 0;
    while i < n
        invariant
            i <= n <= s@.len(),
            r@ == s@.take(i as int),
        decreases n - i,
    {
        r.push(s[i]);
        i += 1;
        assert(r@ =~= s@.take(i as int));
    }
    r
}

/// The confidence in each symbol: that in its weakest cell.
fn sym_reliability(conf: &[u32], marker: &MarkerSpec) -> (rel: Vec<u32>)
    requires
        marker.wf(),
        conf@.len() == marker.cells(),
    ensures
        rel@ == marker.reliabilities(conf@),
{
    let cells = data_cells(conf, marker);
    let sb = marker.symbol_bits;
    let n = marker.rs_k + marker.rs_nsym;
    let mut rel: Vec<u32> = Vec::new();
    let mut i: usize = 0;
    while i < n
        invariant
            marker.wf(),
            n == marker.code_len(),
            sb == marker.symbol_bits,
            cells@ == marker.at_cells(conf@),
            cells@.len() == n * sb,
            n * sb <= 1_000_000,
            i <= n,
            rel@ == marker.reliabilities(conf@).take(i as int),
        decreases n - i,
    {
        assert((i + 1) * sb == i * sb + sb && (i + 1) * sb <= n * sb) by (nonlinear_arith)
            requires
                i < n,
        ;
        let start = i * sb;
        let ghost chunk = cells@.subrange(i * sb, (i + 1) * sb);
        let mut low = cells[start];
        let mut j: usize = 1;
        assert(chunk.take(1) =~= seq![chunk[0]]);
        while j < sb
            invariant
                start + sb <= cells@.len() <= 1_000_000,
                chunk == cells@.subrange(start as int, start + sb),
                1 <= j <= sb,
                low == least(chunk.take(j as int)),
            decreases sb - j,
        {
            assert(chunk.take(j + 1).drop_last() =~= chunk.take(j as int));
            if cells[start + j] < low {
                low = cells[start + j];
            }
            j += 1;
        }
        assert(chunk.take(j as int) =~= chunk);
        rel.push(low);
        i += 1;
        assert(rel@ =~= marker.reliabilities(conf@).take(i as int));
    }
    assert(rel@ =~= marker.reliabilities(conf@));
    rel
}

/// The symbols to erase for given confidences.
fn weakest_symbols(conf: &[u32], marker: &MarkerSpec, conf_erasure: u32) -> (r: Vec<usize>)
    requires
        marker.wf(),
        conf@.len() == marker.cells(),
    ensures
        r@ == marker.ranked_erasures(conf@, conf_erasure),
        forall|i: int| 0 <= i < r@.len() ==> #[trigger] r@[i] < marker.code_len(),
{
    let rel = sym_reliability(conf, marker);
    let n = marker.rs_k + marker.rs_nsym;
    let cap = if marker.rs_nsym == 0 {
        0
    } else {
        marker.rs_nsym - 1
    };
    let ghost rels = marker.reliabilities(conf@);
    let ghost p = |i: int|
        rels[i] < conf_erasure && rank(rels, i, marker.code_len()) < marker.erasure_cap();
    let mut out: Vec<usize> = Vec::new();
    let mut i: usize = 0;
    while i < n
        invariant
            marker.wf(),
            n == marker.code_len(),
            n <= 255,
            cap == marker.erasure_cap(),
            rel@ == rels,
            rels.len() == n,
            i <= n,
            p == (|i: int|
                rels[i] < conf_erasure && rank(rels, i, marker.code_len()) < marker.erasure_cap()),
            out@ == listed(p, i as nat),
        decreases n - i,
    {
        let mut before: usize = 0;
        let mut j: usize = 0;
        while j < n
            invariant
                n <= 255,
                rel@ == rels,
                rels.len() == n,
                i < n,
                j <= n,
                before <= j,
                before == rank(rels, i as int, j as nat),
            decreases n - j,
        {
            if rel[j] < rel[i] || (rel[j] == rel[i] && j < i) {
                before += 1;
            }
            j += 1;
        }
        if rel[i] < conf_erasure && before < cap {
            out.push(i);
        }
        i += 1;
    }
    proof {
        lemma_listed(p, n as nat);
    }
    out
}

/// Decodes an aligned grid with the confidences of its cells. Of the symbols
/// under the threshold the weakest are erased, up to one fewer than there are
/// parity symbols.
fn decode_aligned_ranked(grid: &[u8], marker: &MarkerSpec, conf: &[u32], conf_erasure: u32) -> (r:
    Option<(Vec<u8>, RsStats)>)
    requires
        marker.wf(),
        grid@.len() == marker.cells(),
        conf@.len() == marker.cells(),
    ensures
        ({
            let code = marker.read(grid@);
            let erasures = marker.ranked_erasures(conf@, conf_erasure);
            match (r, marker.recovered(code, erasures)) {
                (Some((payload, stats)), Some((p, word))) => payload@ == p && stats.erasures
                    == erasures.len() && stats.corrected == differences(code, word, code.len()),
                (None, None) => true,
                _ => false,
            }
        }),
{
    let code = read_code(grid, marker);
    let erase_pos = weakest_symbols(conf, marker, conf_erasure);
    proof {
        lemma_read_has(marker, grid@);
    }
    match recover(&code, marker, &erase_pos) {
        Some((payload, word)) => {
            let mut corrected: usize = 0;
            let mut i: usize = 0;
            while i < code.len()
                invariant
                    code@.len() == word@.len(),
                    i <= code@.len(),
                    corrected <= i,
                    corrected == differences(code@, word@, i as nat),
                decreases code.len() - i,
            {
                if code[i] != word[i] {
                    corrected += 1;
                }
                i += 1;
            }
            Some((payload, RsStats { erasures: erase_pos.len(), corrected }))
        },
        None => None,
    }
}

/// Decodes a grid under one rotation.
fn decode_at(grid: &[u8], marker: &MarkerSpec, erasure: Option<&[bool]>, shift: usize) -> (r:
    Option<Vec<u8>>)
    requires
        marker.wf(),
        grid@.len() >= marker.cells(),
        erasure matches Some(e) ==> e@.len() >= marker.cells(),
        shift <= marker.sector_count,
    ensures
        match (r, marker.decoded_at(grid@, viewed(erasure), shift as int)) {
            (Some(payload), Some(p)) => payload@ == p,
            (None, None) => true,
            _ => false,
        },
{
    let aligned = roll_grid(grid, marker, shift);
    match erasure {
        Some(e) => {
            let marks = roll_erasure(e, marker, shift);
            decode_aligned(&aligned, marker, Some(&marks))
        },
        None => decode_aligned(&aligned, marker, None),
    }
}

/// The marks as a sequence.
pub open spec fn viewed(erasure: Option<&[bool]>) -> Option<Seq<bool>> {
    match erasure {
        Some(e) => Some(e@),
        None => None,
    }
}

/// Decodes a grid: the payload, if any, and the rotation. With a sync ring
/// only the rotation that it calls for is tried.
pub fn decode(grid: &[u8], marker: &MarkerSpec, erasure: Option<&[bool]>) -> (r: (
    Option<Vec<u8>>,
    usize,
))
    requires
        marker.wf(),
        grid@.len() >= marker.cells(),
        erasure matches Some(e) ==> e@.len() >= marker.cells(),
    ensures
        ({
            let (hit, shift) = marker.decoded_grid(grid@, viewed(erasure));
            r.1 == shift && match (r.0, hit) {
                (Some(payload), Some(p)) => payload@ == p,
                (None, None) => true,
                _ => false,
            }
        }),
{
    proof {
        lemma_sizes(marker);
        lemma_first_ring(marker);
    }
    if marker.has_sync {
        let (shift, _) = find_rotation(grid, marker);
        return (decode_at(grid, marker, erasure, shift), shift);
    }
    let n = marker.sector_count;
    let ghost p = |t: int| marker.decoded_at(grid@, viewed(erasure), t) is Some;
    let mut shift: usize = 0;
    while shift < n
        invariant
            marker.wf(),
            !marker.has_sync,
            n == marker.sector_count,
            grid@.len() >= marker.cells(),
            erasure matches Some(e) ==> e@.len() >= marker.cells(),
            shift <= n,
            p == (|t: int| marker.decoded_at(grid@, viewed(erasure), t) is Some),
            first_hit(p, 0, n as int) == first_hit(p, shift as int, n as int),
        decreases n - shift,
    {
        let hit = decode_at(grid, marker, erasure, shift);
        if hit.is_some() {
            assert(p(shift as int));
            return (hit, shift);
        }
        assert(!p(shift as int));
        shift += 1;
    }
    (None, 0)
}

/// The first ring lies in the grid.
proof fn lemma_first_ring(m: &MarkerSpec)
    requires
        m.wf(),
    ensures
        m.sector_count <= m.cells(),
{
    let (r, n) = (m.ring_count as int, m.sector_count as int);
    assert(n <= r * n) by (nonlinear_arith)
        requires
            r >= 1,
            n >= 0,
    ;
}

/// Decodes a grid under one rotation, with confidences.
fn decode_ranked_at(
    grid: &[u8],
    marker: &MarkerSpec,
    conf: &[u32],
    conf_erasure: u32,
    shift: usize,
) -> (r: Option<(Vec<u8>, RsStats)>)
    requires
        marker.wf(),
        grid@.len() >= marker.cells(),
        conf@.len() >= marker.cells(),
        shift <= marker.sector_count,
    ensures
        match (r, marker.decoded_ranked_at(grid@, conf@, conf_erasure, shift as int)) {
            (Some((payload, stats)), Some((p, s))) => payload@ == p && stats == s,
            (None, None) => true,
            _ => false,
        },
{
    let aligned = roll_grid(grid, marker, shift);
    let conf_s = roll_conf(conf, marker, shift);
    decode_aligned_ranked(&aligned, marker, &conf_s, conf_erasure)
}

/// Decodes a grid with the confidences of its cells: the payload, if any, with
/// the Reed-Solomon work it took, and the rotation. Confidences are given by
/// keys that order them.
pub fn decode_conf(grid: &[u8], marker: &MarkerSpec, conf: &[u32], conf_erasure: u32) -> (r: (
    Option<(Vec<u8>, RsStats)>,
    usize,
))
    requires
        marker.wf(),
        grid@.len() >= marker.cells(),
        conf@.len() >= marker.cells(),
    ensures
        ({
            let (hit, shift) = marker.decoded_ranked(grid@, conf@, conf_erasure);
            r.1 == shift && match (r.0, hit) {
                (Some((payload, stats)), Some((p, s))) => payload@ == p && stats == s,
                (None, None) => true,
                _ => false,
            }
        }),
{
    proof {
        lemma_sizes(marker);
        lemma_first_ring(marker);
    }
    if marker.has_sync {
        let (shift, _) = find_rotation(grid, marker);
        return (decode_ranked_at(grid, marker, conf, conf_erasure, shift), shift);
    }
    let n = marker.sector_count;
    let ghost p = |t: int| marker.decoded_ranked_at(grid@, conf@, conf_erasure, t) is Some;
    let mut shift: usize = 0;
    while shift < n
        invariant
            marker.wf(),
            !marker.has_sync,
            n == marker.sector_count,
            grid@.len() >= marker.cells(),
            conf@.len() >= marker.cells(),
            shift <= n,
            p == (|t: int| marker.decoded_ranked_at(grid@, conf@, conf_erasure, t) is Some),
            first_hit(p, 0, n as int) == first_hit(p, shift as int, n as int),
        decreases n - shift,
    {
        let hit = decode_ranked_at(grid, marker, conf, conf_erasure, shift);
        if hit.is_some() {
            assert(p(shift as int));
            return (hit, shift);
        }
        assert(!p(shift as int));
        shift += 1;
    }
    (None, 0)
}

} // verus!
