//! The decisions of the detector: which attempts are made on a candidate, what
//! passes the gates, and in which order the retries come. Sampling and geometry
//! are left to the caller, who hands in what was sampled and takes the next
//! decision.
use crate::codec::{correlation, decode_conf, encode, find_rotation, lemma_sizes, RsStats};
use crate::codec_laws::law_decoded_conf_encodes;
use crate::marker::MarkerSpec;
use crate::payload::{interpret, Value};
use crate::select::{are_largest_apart, largest_apart};
use vstd::prelude::*;

verus! {

/// The least decode-verify correlation of variants that do not have one of
/// their own: 0.73, as the bits of a double-precision number. The bits of
/// numbers that are not negative order them.
pub const VERIFY_MIN: u64 = 0x3FE7_5C28_F5C2_8F5C;

/// The longest axis of candidates that are tried after the removal of defocus:
/// 160 pixels, as the bits of a double-precision number.
pub const DECONV_MAX_PX: u64 = 0x4064_0000_0000_0000;

/// The longest axis from which on a refined outline is trusted alone: 100
/// pixels, as the bits of a double-precision number.
pub const REFINED_ALONE_PX: u64 = 0x4059_0000_0000_0000;

/// How much the gradients of a smeared candidate agree in direction at least:
/// 0.25, as the bits of a double-precision number.
pub const SMEAR_COHERENCE: u64 = 0x3FD0_0000_0000_0000;

/// The number of scales at which a grid is sampled.
pub const SCALES: usize = 4;

/// The number of phases, per sector, at which a grid is sampled.
pub const PHASES: usize = 6;

/// The least decode-verify correlation of a variant.
pub open spec fn floor_of(marker: &MarkerSpec) -> u64 {
    match marker.verify_min {
        Some(v) => v,
        None => VERIFY_MIN,
    }
}

/// The least decode-verify correlation of a variant: its own or else the common
/// one.
pub fn verify_floor(marker: &MarkerSpec) -> (v: u64)
    ensures
        v == floor_of(marker),
{
    match marker.verify_min {
        Some(v) => v,
        None => VERIFY_MIN,
    }
}

/// Whether the decode-verify correlation of a reading is good enough for its
/// variant. The correlation is given by its bits, and zero where it is
/// negative.
pub fn passes_floor(marker: &MarkerSpec, corr: u64) -> (b: bool)
    ensures
        b == (corr >= floor_of(marker)),
{
    corr >= verify_floor(marker)
}

/// The confidence below which the cells of a variant are erased.
pub open spec fn threshold_of(marker: &MarkerSpec, common: u32) -> u32 {
    match marker.conf_erasure {
        Some(v) => v,
        None => common,
    }
}

/// The confidence below which the cells of a variant are erased: its own or
/// else the common one.
pub fn erasure_threshold(marker: &MarkerSpec, common: u32) -> (v: u32)
    ensures
        v == threshold_of(marker, common),
{
    match marker.conf_erasure {
        Some(v) => v,
        None => common,
    }
}

/// The best correlation of a ring with the sync pattern under any rotation.
pub open spec fn best_correlation(marker: &MarkerSpec, ring: Seq<u8>) -> int {
    correlation(
        marker.sync@,
        ring,
        marker.sync_shift(ring),
        marker.sector_count as nat,
        marker.sector_count as nat,
    )
}

/// Whether a ring passes for a sync ring: it correlates with the pattern in at
/// least seven tenths of the cells.
pub open spec fn syncs(marker: &MarkerSpec, ring: Seq<u8>) -> bool {
    10 * best_correlation(marker, ring) >= 7 * marker.sector_count
}

/// The correlation of a ring with the sync pattern, if it passes for one.
pub fn sync_gate(ring: &[u8], marker: &MarkerSpec) -> (r: Option<i32>)
    requires
        marker.wf(),
        marker.has_sync,
        ring@.len() >= marker.sector_count,
    ensures
        match r {
            Some(best) => syncs(marker, ring@) && best == best_correlation(marker, ring@),
            None => !syncs(marker, ring@),
        },
{
    proof {
        lemma_sizes(marker);
    }
    let (shift, scores) = find_rotation(ring, marker);
    let best = scores[shift];
    proof {
        crate::codec_laws::lemma_correlation_range(
            marker.sync@,
            ring@,
            shift as int,
            marker.sector_count as nat,
            marker.sector_count as nat,
        );
    }
    if 10 * best >= 7 * marker.sector_count as i32 {
        Some(best)
    } else {
        None
    }
}

/// What a sampled grid says.
#[derive(Debug)]
pub struct Reading {
    /// The payload.
    pub payload: Vec<u8>,
    /// The grid of the payload, for comparison with the image.
    pub reference: Vec<u8>,
    /// The rotation of the grid in sectors.
    pub shift: usize,
    /// The Reed-Solomon work that it took.
    pub stats: RsStats,
}

/// Reads a sampled grid: its payload, and the grid that the payload has, to
/// compare the image with.
pub fn read_grid(grid: &[u8], conf: &[u32], marker: &MarkerSpec, common: u32) -> (r: Option<
    Reading,
>)
    requires
        marker.wf(),
        grid@.len() >= marker.cells(),
        conf@.len() >= marker.cells(),
    ensures
        ({
            let (hit, shift) = marker.decoded_ranked(grid@, conf@, threshold_of(marker, common));
            match (r, hit) {
                (Some(reading), Some((p, s))) => {
                    &&& reading.payload@ == p
                    &&& reading.reference@ == marker.grid_of(p)
                    &&& reading.shift == shift
                    &&& reading.stats == s
                },
                (None, None) => true,
                _ => false,
            }
        }),
{
    let threshold = erasure_threshold(marker, common);
    let (hit, shift) = decode_conf(grid, marker, conf, threshold);
    match hit {
        None => None,
        Some((payload, stats)) => {
            proof {
                law_decoded_conf_encodes(marker, grid@, conf@, threshold);
            }
            match encode(&payload, marker) {
                Ok(reference) => Some(Reading { payload, reference, shift, stats }),
                Err(_) => None,
            }
        },
    }
}

/// A decoded tag.
#[derive(Debug)]
pub struct Tag {
    /// The canonical name of the variant.
    pub variant: &'static str,
    /// The mode.
    pub mode: &'static str,
    /// The value.
    pub value: Value,
    /// The Reed-Solomon work that it took.
    pub stats: RsStats,
}

/// The tag of a reading whose comparison with the image was good enough.
pub fn accept(reading: Reading, marker: &MarkerSpec) -> (tag: Tag)
    requires
        marker.wf(),
    ensures
        tag.variant@ == marker.name@,
        (tag.mode@, tag.value@) == marker.reported(reading.payload@),
        tag.stats == reading.stats,
{
    let (mode, value) = interpret(reading.payload, marker);
    Tag { variant: marker.name, mode, value, stats: reading.stats }
}

/// The attempts on one candidate: for each homography each scale, and for each
/// scale each phase.
pub fn attempt(at: usize) -> (r: (usize, usize, usize))
    ensures
        at == r.0 * (SCALES * PHASES) + r.1 * PHASES + r.2,
        r.1 < SCALES,
        r.2 < PHASES,
{
    let per = SCALES * PHASES;
    let h = at / per;
    let rest = at % per;
    (h, rest / PHASES, rest % PHASES)
}

/// How a tag was found.
#[derive(Clone, Copy, Debug, PartialEq, Eq, Structural)]
pub enum Path {
    /// At the candidate itself.
    Direct,
    /// At a smaller contour inside it: the tag on a round label.
    Sticker,
    /// By taking the candidate for the bullseye of a tag whose outer ring is
    /// covered.
    Bullseye,
    /// After removing the blur of defocus from the image.
    Deconv,
    /// After removing the blur of motion from the image.
    Motion,
    /// With a threshold that follows the illumination across the tag.
    Shadow,
}

/// The name of a path.
pub open spec fn path_name(path: Path) -> Seq<char> {
    match path {
        Path::Direct => "direct"@,
        Path::Sticker => "sticker"@,
        Path::Bullseye => "bullseye"@,
        Path::Deconv => "deconv"@,
        Path::Motion => "motion"@,
        Path::Shadow => "shadow"@,
    }
}

impl Path {
    /// The name of the path.
    pub fn name(self) -> (s: &'static str)
        ensures
            s@ == path_name(self),
    {
        match self {
            Path::Direct => "direct",
            Path::Sticker => "sticker",
            Path::Bullseye => "bullseye",
            Path::Deconv => "deconv",
            Path::Motion => "motion",
            Path::Shadow => "shadow",
        }
    }
}

/// What is known of a candidate before it is decoded.
#[derive(Clone, Copy, Debug, PartialEq, Eq, Structural)]
pub struct Prospect {
    /// Whether it has a smaller round contour that may be the tag.
    pub has_alt: bool,
    /// Whether it is too small to be anything but a bullseye.
    pub bullseye_only: bool,
    /// Whether it is small enough for the removal of defocus.
    pub deblurs: bool,
    /// Whether it is smeared in one direction. This can be left open until an
    /// attempt has failed.
    pub smeared: bool,
}

/// What is known of a candidate before its first attempt, from the bits of its
/// longest axis in pixels.
pub fn prospect(has_alt: bool, bullseye_only: bool, longest: u64) -> (p: Prospect)
    ensures
        p.has_alt == has_alt,
        p.bullseye_only == bullseye_only,
        p.deblurs == (longest <= DECONV_MAX_PX),
        !p.smeared,
{
    Prospect { has_alt, bullseye_only, deblurs: longest <= DECONV_MAX_PX, smeared: false }
}

/// Whether the outline of a candidate is tried as it was found, besides its
/// refinement: where there is one, and the candidate is small. The longest axis
/// is given by its bits.
pub fn tries_coarse(refined: bool, longest: u64) -> (b: bool)
    ensures
        b == (refined && longest < REFINED_ALONE_PX),
{
    refined && longest < REFINED_ALONE_PX
}

/// Whether a candidate is smeared, from the bits of how much its gradients
/// agree in direction.
pub fn is_smeared(coherence: u64) -> (b: bool)
    ensures
        b == (coherence >= SMEAR_COHERENCE),
{
    coherence >= SMEAR_COHERENCE
}

/// Whether a path is open to a candidate.
pub open spec fn is_open(p: Prospect, path: Path) -> bool {
    match path {
        Path::Direct => !p.bullseye_only,
        Path::Sticker => !p.bullseye_only && p.has_alt,
        Path::Bullseye => true,
        Path::Deconv => !p.bullseye_only && p.deblurs,
        Path::Motion => !p.bullseye_only && p.smeared,
        Path::Shadow => !p.bullseye_only,
    }
}

/// The place of a path in the order in which they are tried.
pub open spec fn rung(path: Path) -> int {
    match path {
        Path::Direct => 0,
        Path::Sticker => 1,
        Path::Bullseye => 2,
        Path::Deconv => 3,
        Path::Motion => 4,
        Path::Shadow => 5,
    }
}

/// Whether `next` is the path to try after all those up to rung `tried` have
/// failed: the first one left that is open.
pub open spec fn is_next(p: Prospect, tried: int, next: Option<Path>) -> bool {
    match next {
        Some(path) => {
            &&& rung(path) > tried
            &&& is_open(p, path)
            &&& forall|other: Path|
                #![trigger rung(other)]
                tried < rung(other) < rung(path) ==> !is_open(p, other)
        },
        None => forall|other: Path|
            #![trigger rung(other)]
            tried < rung(other) ==> !is_open(p, other),
    }
}

/// The path to try first.
pub fn first_path(p: Prospect) -> (next: Option<Path>)
    ensures
        is_next(p, -1, next),
{
    if !p.bullseye_only {
        Some(Path::Direct)
    } else {
        Some(Path::Bullseye)
    }
}

/// The path to try after one has failed.
pub fn next_path(p: Prospect, failed: Path) -> (next: Option<Path>)
    ensures
        is_next(p, rung(failed), next),
{
    match failed {
        Path::Direct => if !p.bullseye_only && p.has_alt {
            Some(Path::Sticker)
        } else {
            Some(Path::Bullseye)
        },
        Path::Sticker => Some(Path::Bullseye),
        Path::Bullseye => if p.bullseye_only {
            None
        } else if p.deblurs {
            Some(Path::Deconv)
        } else if p.smeared {
            Some(Path::Motion)
        } else {
            Some(Path::Shadow)
        },
        Path::Deconv => if p.bullseye_only {
            None
        } else if p.smeared {
            Some(Path::Motion)
        } else {
            Some(Path::Shadow)
        },
        Path::Motion => if p.bullseye_only {
            None
        } else {
            Some(Path::Shadow)
        },
        Path::Shadow => None,
    }
}

/// Every path that is open is tried in the end, if all before it fail: it is
/// the first one, or the one that comes after another that is open.
pub proof fn law_every_open_path_is_tried(p: Prospect, path: Path)
    requires
        is_open(p, path),
    ensures
        is_next(p, -1, Some(path)) || exists|failed: Path|
            {
                &&& #[trigger] is_open(p, failed)
                &&& rung(failed) < rung(path)
                &&& is_next(p, rung(failed), Some(path))
            },
{
    let before = match path {
        Path::Direct => Path::Direct,
        Path::Sticker => Path::Direct,
        Path::Bullseye => if p.bullseye_only {
            Path::Bullseye
        } else if p.has_alt {
            Path::Sticker
        } else {
            Path::Direct
        },
        Path::Deconv => Path::Bullseye,
        Path::Motion => if p.deblurs {
            Path::Deconv
        } else {
            Path::Bullseye
        },
        Path::Shadow => if p.smeared {
            Path::Motion
        } else if p.deblurs {
            Path::Deconv
        } else {
            Path::Bullseye
        },
    };
    assert(is_open(p, before));
}

/// Which paths are open: to a candidate that may only be a bullseye that one
/// alone; to any other the direct one, the bullseye and the shadow, and each of
/// the rest where there is cause for it.
pub proof fn law_open_paths(p: Prospect)
    ensures
        is_open(p, Path::Bullseye),
        p.bullseye_only ==> forall|path: Path| #[trigger]
            is_open(p, path) ==> path == Path::Bullseye,
        !p.bullseye_only ==> {
            &&& is_open(p, Path::Direct)
            &&& is_open(p, Path::Sticker) == p.has_alt
            &&& is_open(p, Path::Deconv) == p.deblurs
            &&& is_open(p, Path::Motion) == p.smeared
            &&& is_open(p, Path::Shadow)
        },
{
}

/// The order in which the paths are tried.
pub proof fn law_paths_in_order()
    ensures
        rung(Path::Direct) < rung(Path::Sticker) < rung(Path::Bullseye) < rung(Path::Deconv) < rung(
            Path::Motion,
        ) < rung(Path::Shadow),
{
}

/// Whether a candidate is reported: with a tag always, and without one where
/// poses alone are asked for and the candidate has a round contour inside.
pub fn reports(has_tag: bool, has_inner: bool, pose_only: bool) -> (b: bool)
    ensures
        b == (has_tag || (has_inner && pose_only)),
{
    has_tag || (has_inner && pose_only)
}

/// The key by which detections are ordered: those with a tag first, then by
/// size.
pub open spec fn detection_key(decoded: bool, size: u64) -> u128 {
    (if decoded {
        0x1_0000_0000_0000_0000u128
    } else {
        0
    } + size) as u128
}

/// Of detections that are close to each other only one is kept: those with a
/// tag come first, then the larger ones. `clash[i * n + k]` says whether
/// detection `i` is close to detection `k`.
pub fn dedup(found: &[(bool, u64)], clash: &[bool]) -> (kept: Vec<usize>)
    requires
        clash@.len() == found@.len() * found@.len(),
    ensures
        are_largest_apart(
            Seq::new(found@.len(), |i: int| detection_key(found@[i].0, found@[i].1)),
            clash@,
            found@.len() as int,
            kept@,
        ),
{
    let n = found.len();
    let mut keys: Vec<u128> = Vec::new();
    let mut i: usize = 0;
    while i < n
        invariant
            n == found@.len(),
            i <= n,
            keys@ == Seq::new(i as nat, |i: int| detection_key(found@[i].0, found@[i].1)),
        decreases n - i,
    {
        let base: u128 = if found[i].0 {
            0x1_0000_0000_0000_0000
        } else {
            0
        };
        keys.push(base + found[i].1 as u128);
        i += 1;
        assert(keys@ =~= Seq::new(i as nat, |i: int| detection_key(found@[i].0, found@[i].1)));
    }
    largest_apart(&keys, clash, n)
}

/// Detections are ordered by whether they have a tag, and those that are alike
/// in this by size.
pub proof fn law_detections_ordered(a: (bool, u64), b: (bool, u64))
    ensures
        detection_key(a.0, a.1) > detection_key(b.0, b.1) <==> (a.0 && !b.0) || (a.0 == b.0 && a.1
            > b.1),
        detection_key(a.0, a.1) == detection_key(b.0, b.1) <==> a == b,
{
}

/// A candidate with a tag comes before every one without.
pub proof fn law_tags_come_first(a: u64, b: u64)
    ensures
        detection_key(true, a) > detection_key(false, b),
{
}

} // verus!
