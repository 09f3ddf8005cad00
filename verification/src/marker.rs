//! The marker format: the variants, their ring layout, data grid and code.
use crate::field::Gf;
use crate::text::same_text;
use vstd::prelude::*;

verus! {

/// The confidence 0.4, as the bits of a single-precision number.
pub const CONF_040: u32 = 0x3ECC_CCCD;

/// The correlation 0.76, as the bits of a double-precision number.
pub const CORR_076: u64 = 0x3FE8_51EB_851E_B852;

/// The correlation 0.78, as the bits of a double-precision number.
pub const CORR_078: u64 = 0x3FE8_F5C2_8F5C_28F6;

/// One variant of the marker. Lengths are in hundredths of the tag's outer
/// radius.
#[derive(Debug)]
pub struct MarkerSpec {
    /// The canonical name: `sim`, the number of cells with the sync ring, `c`,
    /// the number of payload bits.
    pub name: &'static str,
    /// The short name.
    pub alias: &'static str,
    /// The radius of the bullseye.
    pub r_bullseye: u32,
    /// The inner radius of the data rings.
    pub r_data_in: u32,
    /// The outer radius of the data rings.
    pub r_data_out: u32,
    /// The inner radius of the outer ring.
    pub r_ring_in: u32,
    /// The number of rings of cells, with the sync ring.
    pub ring_count: usize,
    /// The number of cells per ring.
    pub sector_count: usize,
    /// Whether the innermost ring holds the sync pattern.
    pub has_sync: bool,
    /// Whether payloads start with a header byte.
    pub use_header: bool,
    /// The number of bits per code symbol: 8 for bytes over GF(256) with
    /// CRC-8, 4 for nibbles over GF(16) with CRC-4.
    pub symbol_bits: usize,
    /// The number of data symbols of the code, with the checksum.
    pub rs_k: usize,
    /// The number of parity symbols of the code.
    pub rs_nsym: usize,
    /// The number of checksum symbols.
    pub crc_bytes: usize,
    /// A cap on the errors at unknown positions that are corrected. Erasures
    /// do not count towards it.
    pub max_errors: Option<usize>,
    /// The least decode-verify correlation, where it differs from the common
    /// one, as the bits of a double-precision number.
    pub verify_min: Option<u64>,
    /// The confidence below which cells are erased, where it differs from the
    /// common one, as the bits of a single-precision number. Zero turns ranked
    /// erasures off.
    pub conf_erasure: Option<u32>,
    /// The sync pattern.
    pub sync: Vec<u8>,
}

/// Whether two sync patterns are the same, read from some sector on.
pub open spec fn same_from(a: Seq<u8>, b: Seq<u8>, s: int) -> bool {
    forall|i: int| 0 <= i < a.len() ==> (a[i] > 0) == (#[trigger] b[(i + s) % (a.len() as int)] > 0)
}

impl MarkerSpec {
    /// The number of rings of data cells.
    pub open spec fn data_rings(&self) -> nat {
        if self.has_sync {
            (self.ring_count - 1) as nat
        } else {
            self.ring_count as nat
        }
    }

    /// The ring on which the data cells start.
    pub open spec fn first_ring(&self) -> nat {
        if self.has_sync {
            1
        } else {
            0
        }
    }

    /// The number of payload bits.
    pub open spec fn bits(&self) -> nat {
        ((self.rs_k - self.crc_bytes) * self.symbol_bits) as nat
    }

    /// The number of payload bytes.
    pub open spec fn bytes(&self) -> nat {
        (self.bits() + 7) / 8
    }

    /// The number of cells.
    pub open spec fn cells(&self) -> nat {
        (self.ring_count * self.sector_count) as nat
    }

    /// The number of data cells.
    pub open spec fn data_cells(&self) -> nat {
        self.data_rings() * (self.sector_count as nat)
    }

    /// The number of symbols of a codeword.
    pub open spec fn code_len(&self) -> nat {
        (self.rs_k + self.rs_nsym) as nat
    }

    /// The field of the code symbols.
    pub open spec fn field(&self) -> Gf {
        if self.symbol_bits == 4 {
            Gf::Nibble
        } else {
            Gf::Byte
        }
    }

    /// Whether the sync pattern tells every rotation from every other.
    pub open spec fn sync_unique(&self) -> bool {
        forall|s: int| 0 < s < self.sector_count ==> !#[trigger] same_from(self.sync@, self.sync@, s)
    }

    /// Whether the parts of the format fit together: the grid holds exactly
    /// one codeword, the code is no longer than its field allows, the payload
    /// fits a 128-bit number, and headers have a byte to stand in.
    pub open spec fn wf(&self) -> bool {
        &&& 1 <= self.sector_count
        &&& 1 <= self.ring_count
        &&& self.symbol_bits == 4 || self.symbol_bits == 8
        &&& self.crc_bytes == 1
        &&& 2 <= self.rs_k
        &&& self.code_len() <= self.field().order()
        &&& self.data_cells() == self.code_len() * (self.symbol_bits as nat)
        &&& self.bits() <= 128
        &&& self.has_sync ==> self.sync@.len() == self.sector_count
    }

    /// The number of rings of data cells.
    pub fn data_ring_count(&self) -> (r: usize)
        requires
            self.has_sync ==> self.ring_count >= 1,
        ensures
            r == self.data_rings(),
    {
        if self.has_sync {
            self.ring_count - 1
        } else {
            self.ring_count
        }
    }

    /// The ring on which the data cells start.
    pub fn first_data_ring(&self) -> (r: usize)
        ensures
            r == self.first_ring(),
    {
        if self.has_sync {
            1
        } else {
            0
        }
    }

    /// The number of payload bits.
    pub fn payload_bits(&self) -> (r: usize)
        requires
            self.crc_bytes <= self.rs_k,
            (self.rs_k - self.crc_bytes) * self.symbol_bits <= usize::MAX,
        ensures
            r == self.bits(),
    {
        (self.rs_k - self.crc_bytes) * self.symbol_bits
    }

    /// The number of bytes of a payload, which is a big-endian number whose
    /// spare high bits are zero.
    pub fn payload_bytes(&self) -> (r: usize)
        requires
            self.crc_bytes <= self.rs_k,
            (self.rs_k - self.crc_bytes) * self.symbol_bits + 7 <= usize::MAX,
        ensures
            r == self.bytes(),
    {
        (self.payload_bits() + 7) / 8
    }
}

/// A variant on the common ring layout, with a sync ring and one checksum
/// symbol.
fn variant(
    name: &'static str,
    alias: &'static str,
    rings: usize,
    sectors: usize,
    use_header: bool,
    symbol_bits: usize,
    rs_k: usize,
    rs_nsym: usize,
    sync: Vec<u8>,
) -> (m: MarkerSpec)
    ensures
        m.name == name,
        m.alias == alias,
        m.r_bullseye == 22,
        m.r_data_in == 30,
        m.r_data_out == 78,
        m.r_ring_in == 86,
        m.ring_count == rings,
        m.sector_count == sectors,
        m.has_sync,
        m.use_header == use_header,
        m.symbol_bits == symbol_bits,
        m.rs_k == rs_k,
        m.rs_nsym == rs_nsym,
        m.crc_bytes == 1,
        m.max_errors is None,
        m.verify_min is None,
        m.conf_erasure is None,
        m.sync == sync,
{
    MarkerSpec {
        name,
        alias,
        r_bullseye: 22,
        r_data_in: 30,
        r_data_out: 78,
        r_ring_in: 86,
        ring_count: rings,
        sector_count: sectors,
        has_sync: true,
        use_header,
        symbol_bits,
        rs_k,
        rs_nsym,
        crc_bytes: 1,
        max_errors: None,
        verify_min: None,
        conf_erasure: None,
        sync,
    }
}

/// What sets the variants apart.
pub struct Parameters {
    pub name: Seq<char>,
    pub alias: Seq<char>,
    pub rings: nat,
    pub sectors: nat,
    pub use_header: bool,
    pub symbol_bits: nat,
    pub rs_k: nat,
    pub rs_nsym: nat,
    pub verify_min: Option<u64>,
    pub conf_erasure: Option<u32>,
    pub sync: Seq<u8>,
}

impl MarkerSpec {
    /// Whether this is the variant with the given parameters, on the common
    /// ring layout.
    pub open spec fn is(&self, p: Parameters) -> bool {
        &&& self.name@ == p.name
        &&& self.alias@ == p.alias
        &&& self.r_bullseye == 22
        &&& self.r_data_in == 30
        &&& self.r_data_out == 78
        &&& self.r_ring_in == 86
        &&& self.ring_count == p.rings
        &&& self.sector_count == p.sectors
        &&& self.has_sync
        &&& self.use_header == p.use_header
        &&& self.symbol_bits == p.symbol_bits
        &&& self.rs_k == p.rs_k
        &&& self.rs_nsym == p.rs_nsym
        &&& self.crc_bytes == 1
        &&& self.max_errors is None
        &&& self.verify_min == p.verify_min
        &&& self.conf_erasure == p.conf_erasure
        &&& self.sync@ == p.sync
    }
}

/// The parameters of `sim48c8`.
pub open spec fn sim48c8_parameters() -> Parameters {
    Parameters {
        name: "sim48c8"@,
        alias: "s256"@,
        rings: 3,
        sectors: 16,
        use_header: false,
        symbol_bits: 8,
        rs_k: 2,
        rs_nsym: 2,
        verify_min: Some(CORR_076),
        conf_erasure: Some(0),
        sync: seq![1, 1, 0, 0, 0, 0, 1, 1, 0, 0, 1, 1, 0, 1, 1, 1],
    }
}

/// The parameters of `sim96c32`.
pub open spec fn sim96c32_parameters() -> Parameters {
    Parameters {
        name: "sim96c32"@,
        alias: "s16m"@,
        rings: 4,
        sectors: 24,
        use_header: true,
        symbol_bits: 8,
        rs_k: 5,
        rs_nsym: 4,
        verify_min: None,
        conf_erasure: None,
        sync: seq![1, 1, 1, 0, 1, 0, 1, 1, 0, 0, 1, 0, 1, 1, 0, 1, 0, 0, 0, 1, 0, 0, 1, 0],
    }
}

/// The parameters of `sim180c88`.
pub open spec fn sim180c88_parameters() -> Parameters {
    Parameters {
        name: "sim180c88"@,
        alias: "sdata"@,
        rings: 5,
        sectors: 36,
        use_header: true,
        symbol_bits: 8,
        rs_k: 12,
        rs_nsym: 6,
        verify_min: None,
        conf_erasure: None,
        sync: seq![
            1, 1, 1, 1, 0, 0, 1, 1, 1, 0, 1, 1, 1, 0, 0, 0, 0, 0, 1, 1, 1, 0, 1, 1, 0, 1, 0, 0, 1,
            1, 0, 1, 1, 0, 1, 0,
        ],
    }
}

/// The parameters of `sim48c16`.
pub open spec fn sim48c16_parameters() -> Parameters {
    Parameters {
        name: "sim48c16"@,
        alias: "s64k"@,
        rings: 3,
        sectors: 16,
        use_header: false,
        symbol_bits: 4,
        rs_k: 5,
        rs_nsym: 3,
        verify_min: Some(CORR_078),
        conf_erasure: Some(CONF_040),
        sync: seq![0, 1, 0, 1, 1, 0, 1, 0, 1, 0, 0, 0, 0, 0, 1, 0],
    }
}

/// The parameters of `sim48c12`.
pub open spec fn sim48c12_parameters() -> Parameters {
    Parameters {
        name: "sim48c12"@,
        alias: "s4k"@,
        rings: 3,
        sectors: 16,
        use_header: false,
        symbol_bits: 4,
        rs_k: 4,
        rs_nsym: 4,
        verify_min: Some(CORR_078),
        conf_erasure: Some(CONF_040),
        sync: seq![1, 0, 0, 1, 0, 0, 0, 1, 1, 0, 0, 0, 1, 0, 1, 0],
    }
}

/// One cell that differs is enough.
proof fn lemma_apart(a: Seq<u8>, s: int, i: int)
    requires
        0 <= i < a.len(),
        (a[i] > 0) != (a[(i + s) % (a.len() as int)] > 0),
    ensures
        !same_from(a, a, s),
{
}

/// The sync pattern of `sim48c8` differs from all its rotations.
proof fn lemma_sim48c8_sync(m: MarkerSpec)
    requires
        m.is(sim48c8_parameters()),
    ensures
        m.sync_unique(),
{
    let a = m.sync@;
    assert(a =~= sim48c8_parameters().sync);
    lemma_apart(a, 1, 1);
    lemma_apart(a, 2, 0);
    lemma_apart(a, 3, 0);
    lemma_apart(a, 4, 0);
    lemma_apart(a, 5, 0);
    lemma_apart(a, 6, 4);
    lemma_apart(a, 7, 1);
    lemma_apart(a, 8, 0);
    lemma_apart(a, 9, 0);
    lemma_apart(a, 10, 3);
    lemma_apart(a, 11, 1);
    lemma_apart(a, 12, 0);
    lemma_apart(a, 13, 2);
    lemma_apart(a, 14, 2);
    lemma_apart(a, 15, 2);
}

/// The sync pattern of `sim96c32` differs from all its rotations.
proof fn lemma_sim96c32_sync(m: MarkerSpec)
    requires
        m.is(sim96c32_parameters()),
    ensures
        m.sync_unique(),
{
    let a = m.sync@;
    assert(a =~= sim96c32_parameters().sync);
    lemma_apart(a, 1, 2);
    lemma_apart(a, 2, 1);
    lemma_apart(a, 3, 0);
    lemma_apart(a, 4, 1);
    lemma_apart(a, 5, 0);
    lemma_apart(a, 6, 2);
    lemma_apart(a, 7, 1);
    lemma_apart(a, 8, 0);
    lemma_apart(a, 9, 0);
    lemma_apart(a, 10, 1);
    lemma_apart(a, 11, 0);
    lemma_apart(a, 12, 2);
    lemma_apart(a, 13, 1);
    lemma_apart(a, 14, 0);
    lemma_apart(a, 15, 1);
    lemma_apart(a, 16, 0);
    lemma_apart(a, 17, 0);
    lemma_apart(a, 18, 0);
    lemma_apart(a, 19, 1);
    lemma_apart(a, 20, 0);
    lemma_apart(a, 21, 0);
    lemma_apart(a, 22, 1);
    lemma_apart(a, 23, 0);
}

/// The sync pattern of `sim180c88` differs from all its rotations.
proof fn lemma_sim180c88_sync(m: MarkerSpec)
    requires
        m.is(sim180c88_parameters()),
    ensures
        m.sync_unique(),
{
    let a = m.sync@;
    assert(a =~= sim180c88_parameters().sync);
    lemma_apart(a, 1, 3);
    lemma_apart(a, 2, 2);
    lemma_apart(a, 3, 1);
    lemma_apart(a, 4, 0);
    lemma_apart(a, 5, 0);
    lemma_apart(a, 6, 3);
    lemma_apart(a, 7, 2);
    lemma_apart(a, 8, 1);
    lemma_apart(a, 9, 0);
    lemma_apart(a, 10, 3);
    lemma_apart(a, 11, 2);
    lemma_apart(a, 12, 1);
    lemma_apart(a, 13, 0);
    lemma_apart(a, 14, 0);
    lemma_apart(a, 15, 0);
    lemma_apart(a, 16, 0);
    lemma_apart(a, 17, 0);
    lemma_apart(a, 18, 3);
    lemma_apart(a, 19, 2);
    lemma_apart(a, 20, 1);
    lemma_apart(a, 21, 0);
    lemma_apart(a, 22, 2);
    lemma_apart(a, 23, 1);
    lemma_apart(a, 24, 0);
    lemma_apart(a, 25, 1);
    lemma_apart(a, 26, 0);
    lemma_apart(a, 27, 0);
    lemma_apart(a, 28, 2);
    lemma_apart(a, 29, 1);
    lemma_apart(a, 30, 0);
    lemma_apart(a, 31, 2);
    lemma_apart(a, 32, 1);
    lemma_apart(a, 33, 0);
    lemma_apart(a, 34, 1);
    lemma_apart(a, 35, 0);
}

/// The sync pattern of `sim48c16` differs from all its rotations.
proof fn lemma_sim48c16_sync(m: MarkerSpec)
    requires
        m.is(sim48c16_parameters()),
    ensures
        m.sync_unique(),
{
    let a = m.sync@;
    assert(a =~= sim48c16_parameters().sync);
    lemma_apart(a, 1, 0);
    lemma_apart(a, 2, 2);
    lemma_apart(a, 3, 0);
    lemma_apart(a, 4, 0);
    lemma_apart(a, 5, 4);
    lemma_apart(a, 6, 0);
    lemma_apart(a, 7, 3);
    lemma_apart(a, 8, 0);
    lemma_apart(a, 9, 1);
    lemma_apart(a, 10, 1);
    lemma_apart(a, 11, 1);
    lemma_apart(a, 12, 1);
    lemma_apart(a, 13, 3);
    lemma_apart(a, 14, 0);
    lemma_apart(a, 15, 1);
}

/// The sync pattern of `sim48c12` differs from all its rotations.
proof fn lemma_sim48c12_sync(m: MarkerSpec)
    requires
        m.is(sim48c12_parameters()),
    ensures
        m.sync_unique(),
{
    let a = m.sync@;
    assert(a =~= sim48c12_parameters().sync);
    lemma_apart(a, 1, 0);
    lemma_apart(a, 2, 0);
    lemma_apart(a, 3, 3);
    lemma_apart(a, 4, 0);
    lemma_apart(a, 5, 0);
    lemma_apart(a, 6, 0);
    lemma_apart(a, 7, 1);
    lemma_apart(a, 8, 3);
    lemma_apart(a, 9, 0);
    lemma_apart(a, 10, 0);
    lemma_apart(a, 11, 0);
    lemma_apart(a, 12, 2);
    lemma_apart(a, 13, 0);
    lemma_apart(a, 14, 2);
    lemma_apart(a, 15, 0);
}

/// `sim48c8` / `s256`: a one-byte ID on the 3x16 grid, for the longest range.
pub fn sim48c8() -> (m: MarkerSpec)
    ensures
        m.is(sim48c8_parameters()),
        m.wf(),
        m.sync_unique(),
{
    let sync: Vec<u8> = vec![1u8, 1, 0, 0, 0, 0, 1, 1, 0, 0, 1, 1, 0, 1, 1, 1];
    let mut m = variant("sim48c8", "s256", 3, 16, false, 8, 2, 2, sync);
    m.verify_min = Some(CORR_076);
    m.conf_erasure = Some(0);
    assert(m.sync@ =~= sim48c8_parameters().sync);
    proof {
        lemma_sim48c8_sync(m);
    }
    m
}

/// `sim96c32` / `s16m`: a header and three body bytes on the 4x24 grid.
pub fn sim96c32() -> (m: MarkerSpec)
    ensures
        m.is(sim96c32_parameters()),
        m.wf(),
        m.sync_unique(),
{
    let sync: Vec<u8> = vec![
        1u8, 1, 1, 0, 1, 0, 1, 1, 0, 0, 1, 0, 1, 1, 0, 1, 0, 0, 0, 1, 0, 0, 1, 0,
    ];
    let m = variant("sim96c32", "s16m", 4, 24, true, 8, 5, 4, sync);
    assert(m.sync@ =~= sim96c32_parameters().sync);
    proof {
        lemma_sim96c32_sync(m);
    }
    m
}

/// `sim180c88` / `sdata`: a header and ten body bytes on the 5x36 grid.
pub fn sim180c88() -> (m: MarkerSpec)
    ensures
        m.is(sim180c88_parameters()),
        m.wf(),
        m.sync_unique(),
{
    let sync: Vec<u8> = vec![
        1u8, 1, 1, 1, 0, 0, 1, 1, 1, 0, 1, 1, 1, 0, 0, 0, 0, 0, 1, 1, 1, 0, 1, 1, 0, 1, 0, 0,
        1, 1, 0, 1, 1, 0, 1, 0,
    ];
    let m = variant("sim180c88", "sdata", 5, 36, true, 8, 12, 6, sync);
    assert(m.sync@ =~= sim180c88_parameters().sync);
    proof {
        lemma_sim180c88_sync(m);
    }
    m
}

/// `sim48c16` / `s64k`: a 16-bit ID in nibbles on the 3x16 grid.
pub fn sim48c16() -> (m: MarkerSpec)
    ensures
        m.is(sim48c16_parameters()),
        m.wf(),
        m.sync_unique(),
{
    let sync: Vec<u8> = vec![0u8, 1, 0, 1, 1, 0, 1, 0, 1, 0, 0, 0, 0, 0, 1, 0];
    let mut m = variant("sim48c16", "s64k", 3, 16, false, 4, 5, 3, sync);
    m.verify_min = Some(CORR_078);
    m.conf_erasure = Some(CONF_040);
    assert(m.sync@ =~= sim48c16_parameters().sync);
    proof {
        lemma_sim48c16_sync(m);
    }
    m
}

/// `sim48c12` / `s4k`: a 12-bit ID in nibbles on the 3x16 grid, with a heavier
/// code than `sim48c16`.
pub fn sim48c12() -> (m: MarkerSpec)
    ensures
        m.is(sim48c12_parameters()),
        m.wf(),
        m.sync_unique(),
{
    let sync: Vec<u8> = vec![1u8, 0, 0, 1, 0, 0, 0, 1, 1, 0, 0, 0, 1, 0, 1, 0];
    let mut m = variant("sim48c12", "s4k", 3, 16, false, 4, 4, 4, sync);
    m.verify_min = Some(CORR_078);
    m.conf_erasure = Some(CONF_040);
    assert(m.sync@ =~= sim48c12_parameters().sync);
    proof {
        lemma_sim48c12_sync(m);
    }
    m
}

/// Every variant, in the order in which they are tried.
pub fn variants() -> (r: Vec<MarkerSpec>)
    ensures
        r@.len() == 5,
        r@[0].is(sim48c8_parameters()),
        r@[1].is(sim96c32_parameters()),
        r@[2].is(sim180c88_parameters()),
        r@[3].is(sim48c16_parameters()),
        r@[4].is(sim48c12_parameters()),
        forall|i: int| 0 <= i < r@.len() ==> (#[trigger] r@[i]).wf() && r@[i].sync_unique(),
{
    vec![sim48c8(), sim96c32(), sim180c88(), sim48c16(), sim48c12()]
}

/// The variants that are looked for by default: one on the 3x16 grid, and the
/// two with headers. The others are looked for where they are asked for.
pub fn default_variants() -> (r: Vec<MarkerSpec>)
    ensures
        r@.len() == 3,
        r@[0].is(sim48c12_parameters()),
        r@[1].is(sim96c32_parameters()),
        r@[2].is(sim180c88_parameters()),
        forall|i: int| 0 <= i < r@.len() ==> (#[trigger] r@[i]).wf() && r@[i].sync_unique(),
{
    vec![sim48c12(), sim96c32(), sim180c88()]
}

/// The parameters of the variant that goes by `name`: its canonical name, its
/// alias, or for the first three the letters of old.
pub open spec fn parameters_of(name: Seq<char>) -> Option<Parameters> {
    if name == "sim48c8"@ || name == "s256"@ || name == "T"@ {
        Some(sim48c8_parameters())
    } else if name == "sim96c32"@ || name == "s16m"@ || name == "M"@ {
        Some(sim96c32_parameters())
    } else if name == "sim180c88"@ || name == "sdata"@ || name == "D"@ {
        Some(sim180c88_parameters())
    } else if name == "sim48c16"@ || name == "s64k"@ {
        Some(sim48c16_parameters())
    } else if name == "sim48c12"@ || name == "s4k"@ {
        Some(sim48c12_parameters())
    } else {
        None
    }
}

/// The variant that goes by `name`.
pub fn by_name(name: &str) -> (r: Option<MarkerSpec>)
    ensures
        match parameters_of(name@) {
            Some(p) => r matches Some(m) && m.is(p) && m.wf() && m.sync_unique(),
            None => r is None,
        },
{
    if same_text(name, "sim48c8") || same_text(name, "s256") || same_text(name, "T") {
        Some(sim48c8())
    } else if same_text(name, "sim96c32") || same_text(name, "s16m") || same_text(name, "M") {
        Some(sim96c32())
    } else if same_text(name, "sim180c88") || same_text(name, "sdata") || same_text(name, "D") {
        Some(sim180c88())
    } else if same_text(name, "sim48c16") || same_text(name, "s64k") {
        Some(sim48c16())
    } else if same_text(name, "sim48c12") || same_text(name, "s4k") {
        Some(sim48c12())
    } else {
        None
    }
}

} // verus!
