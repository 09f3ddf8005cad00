//! Test vectors of grids: payloads, their grids, and what is read back of
//! turned and damaged ones.
use crate::codec::{decode_conf, encode, lemma_sizes};
use crate::json::{
    integer_at, items_at, json_integer, json_items, json_texts, json_whole, nothing_at, texts,
    texts_at, whole_at,
};
use crate::marker::MarkerSpec;
use crate::pairing::{tally, Outcome};
use crate::scenario::{cell_index, damage, damaged, marks_of, on_grid, replay};
use crate::seqs::{all_read, lemma_read_on};
use crate::text::{cells_text, grid_to_rows, row_end, same_text};
use crate::vectors::{bytes_at, bytes_in, is_outcome, writes};
use vstd::prelude::*;

verus! {

/// A cell that is written as ring and sector, where it stands in the grid.
pub open spec fn cell_of(marker: &MarkerSpec, item: Seq<char>) -> Option<(usize, usize)> {
    match (json_whole(item, "/0"@), json_whole(item, "/1"@)) {
        (Some(r), Some(s)) => if r * marker.sector_count + s < marker.cells() {
            Some((r as usize, s as usize))
        } else {
            None
        },
        _ => None,
    }
}

/// The cell that an item writes.
pub open spec fn cell_read(marker: &MarkerSpec) -> spec_fn(Seq<char>) -> Option<(usize, usize)> {
    |item: Seq<char>| cell_of(marker, item)
}

/// The cells that a member lists.
pub open spec fn cells_in(marker: &MarkerSpec, case: Seq<char>, path: Seq<char>) -> Option<
    Seq<(usize, usize)>,
> {
    match json_items(case, path) {
        Some(items) => all_read(items, cell_read(marker)),
        None => None,
    }
}

/// A cell that is written as ring and sector.
fn cell_at(marker: &MarkerSpec, item: &str) -> (r: Option<(usize, usize)>)
    requires
        marker.wf(),
    ensures
        r == cell_of(marker, item@),
        r matches Some(c) ==> cell_index(marker, c) < marker.cells(),
{
    proof {
        lemma_sizes(marker);
    }
    let n = marker.sector_count as u64;
    let cells = (marker.ring_count * marker.sector_count) as u64;
    match (whole_at(item, "/0"), whole_at(item, "/1")) {
        (Some(r), Some(s)) => {
            assert(r <= r * n && 0 <= r * n) by (nonlinear_arith)
                requires
                    n >= 1,
                    r >= 0,
            ;
            if r >= cells || s >= cells {
                return None;
            }
            assert(r * n <= 1_000_000 * 2040) by (nonlinear_arith)
                requires
                    0 <= r <= 1_000_000,
                    0 <= n <= 2040,
            ;
            if r * n + s < cells {
                Some((r as usize, s as usize))
            } else {
                None
            }
        },
        _ => None,
    }
}

/// The cells that a member lists.
fn cells_at(marker: &MarkerSpec, case: &str, path: &str) -> (r: Option<Vec<(usize, usize)>>)
    requires
        marker.wf(),
    ensures
        match r {
            Some(v) => cells_in(marker, case@, path@) == Some(v@) && on_grid(marker, v@),
            None => cells_in(marker, case@, path@) is None,
        },
{
    let items = match items_at(case, path) {
        Some(items) => items,
        None => return None,
    };
    let n = items.len();
    let mut v: Vec<(usize, usize)> = Vec::new();
    let mut i: usize = 0;
    assert(texts(items@).take(0) =~= seq![]);
    assert(v@ =~= seq![]);
    while i < n
        invariant
            marker.wf(),
            n == items@.len(),
            json_items(case@, path@) == Some(texts(items@)),
            i <= n,
            all_read(texts(items@).take(i as int), cell_read(marker)) == Some(v@),
            on_grid(marker, v@),
        decreases n - i,
    {
        proof {
            lemma_read_on(texts(items@), cell_read(marker), i as int);
        }
        match cell_at(marker, items[i].as_str()) {
            Some(c) => v.push(c),
            None => return None,
        }
        i += 1;
    }
    assert(texts(items@).take(n as int) =~= texts(items@));
    Some(v)
}

/// The rows of a grid in text.
pub open spec fn rows_of(grid: Seq<u8>, sectors: int) -> Seq<Seq<char>> {
    Seq::new(
        ((grid.len() + sectors - 1) / sectors) as nat,
        |k: int|
            cells_text(grid.subrange(k * sectors, row_end(grid.len() as int, sectors, k))),
    )
}

/// Whether the grid of the payload in a case has the rows `grid`.
pub open spec fn rows_hold(marker: &MarkerSpec, case: Seq<char>) -> bool {
    bytes_in(case, "/payload"@) matches Some(p) && {
        let grid = marker.grid_of(p);
        &&& marker.encodable(p)
        &&& forall|i: int| 0 <= i < grid.len() ==> #[trigger] grid[i] <= 9
        &&& json_texts(case, "/grid"@) == Some(rows_of(grid, marker.sector_count as int))
    }
}

/// Whether cells can be written with one digit each.
fn are_digits(grid: &[u8]) -> (b: bool)
    ensures
        b == (forall|i: int| 0 <= i < grid@.len() ==> #[trigger] grid@[i] <= 9),
{
    let n = grid.len();
    let mut i: usize = 0;
    while i < n
        invariant
            n == grid@.len(),
            i <= n,
            forall|k: int| 0 <= k < i ==> #[trigger] grid@[k] <= 9,
        decreases n - i,
    {
        if grid[i] > 9 {
            return false;
        }
        i += 1;
    }
    true
}

/// Whether two lists of strings are the same.
fn same_texts(a: &Vec<String>, b: &Vec<String>) -> (r: bool)
    ensures
        r == (texts(a@) == texts(b@)),
{
    let n = a.len();
    if n != b.len() {
        assert(texts(a@).len() != texts(b@).len());
        return false;
    }
    let mut i: usize = 0;
    while i < n
        invariant
            n == a@.len(),
            n == b@.len(),
            i <= n,
            forall|k: int| 0 <= k < i ==> #[trigger] texts(a@)[k] == texts(b@)[k],
        decreases n - i,
    {
        if !same_text(a[i].as_str(), b[i].as_str()) {
            assert(texts(a@)[i as int] != texts(b@)[i as int]);
            return false;
        }
        i += 1;
    }
    assert(texts(a@) =~= texts(b@));
    true
}

/// Whether the grid of a payload has the rows `grid`.
fn check_rows(marker: &MarkerSpec, case: &str, payload: &[u8]) -> (b: bool)
    requires
        marker.wf(),
        bytes_in(case@, "/payload"@) == Some(payload@),
    ensures
        b == rows_hold(marker, case@),
{
    let grid = match encode(payload, marker) {
        Ok(grid) => grid,
        Err(_) => return false,
    };
    if !are_digits(&grid) {
        return false;
    }
    let rows = grid_to_rows(&grid, marker.sector_count);
    assert(texts(rows@) =~= rows_of(grid@, marker.sector_count as int));
    match texts_at(case, "/grid") {
        Some(want) => same_texts(&want, &rows),
        None => false,
    }
}

/// Whether a payload whose grid is turned by `shift` sectors, with the cells
/// `flips` flipped and the cells `erasures` marked as unreliable, is read back
/// as `out`, at the rotation `out_shift`.
pub open spec fn trip_holds(marker: &MarkerSpec, payload: Seq<u8>, case: Seq<char>) -> bool {
    match (
        json_whole(case, "/shift"@),
        cells_in(marker, case, "/flips"@),
        cells_in(marker, case, "/erasures"@),
    ) {
        (Some(shift), Some(flips), Some(erased)) => {
            let (hit, rotation) = marker.decoded_grid(
                damaged(marker, payload, shift as int % marker.sector_count as int, flips),
                marks_of(marker, erased),
            );
            &&& marker.encodable(payload)
            &&& is_outcome(hit, case, "/out"@)
            &&& json_integer(case, "/out_shift"@) matches Some(s) && s == rotation
        },
        _ => false,
    }
}

/// Whether a payload is read back as it should be.
fn check_trip(marker: &MarkerSpec, payload: &[u8], case: &str) -> (b: bool)
    requires
        marker.wf(),
    ensures
        b == trip_holds(marker, payload@, case@),
{
    let shift = match whole_at(case, "/shift") {
        Some(shift) => shift,
        None => return false,
    };
    let flips = match cells_at(marker, case, "/flips") {
        Some(flips) => flips,
        None => return false,
    };
    let erased = match cells_at(marker, case, "/erasures") {
        Some(erased) => erased,
        None => return false,
    };
    proof {
        lemma_sizes(marker);
    }
    let turn = (shift % marker.sector_count as u64) as usize;
    let (out, rotation) = match replay(payload, marker, turn, &flips, &erased) {
        Ok(r) => r,
        Err(_) => return false,
    };
    let same = match out {
        Some(p) => writes(case, "/out", &p),
        None => nothing_at(case, "/out"),
    };
    let aligned = match integer_at(case, "/out_shift") {
        Some(s) => s >= 0 && s as u64 == rotation as u64,
        None => false,
    };
    same && aligned
}

/// Whether a payload whose grid is turned by `shift` sectors, with the cells
/// `flips` flipped, is read back by confidences as `out`, at the rotation
/// `out_shift`.
pub open spec fn ranked_trip_holds(
    marker: &MarkerSpec,
    payload: Seq<u8>,
    case: Seq<char>,
    conf: Seq<u32>,
    conf_erasure: u32,
) -> bool {
    match (json_whole(case, "/shift"@), cells_in(marker, case, "/flips"@)) {
        (Some(shift), Some(flips)) => {
            let (hit, rotation) = marker.decoded_ranked(
                damaged(marker, payload, shift as int % marker.sector_count as int, flips),
                conf,
                conf_erasure,
            );
            &&& marker.encodable(payload)
            &&& is_outcome(
                match hit {
                    Some((p, _)) => Some(p),
                    None => None,
                },
                case,
                "/out"@,
            )
            &&& json_integer(case, "/out_shift"@) matches Some(s) && s == rotation
        },
        _ => false,
    }
}

/// Whether a payload is read back by confidences as it should be. The
/// confidences, and the one below which cells are erased, are given by keys
/// that order them.
pub fn check_ranked_trip(
    marker: &MarkerSpec,
    payload: &[u8],
    case: &str,
    conf: &[u32],
    conf_erasure: u32,
) -> (b: bool)
    requires
        marker.wf(),
        conf@.len() == marker.cells(),
    ensures
        b == ranked_trip_holds(marker, payload@, case@, conf@, conf_erasure),
{
    let (shift, flips) = match (whole_at(case, "/shift"), cells_at(marker, case, "/flips")) {
        (Some(shift), Some(flips)) => (shift, flips),
        _ => return false,
    };
    proof {
        lemma_sizes(marker);
    }
    let turn = (shift % marker.sector_count as u64) as usize;
    let grid = match damage(payload, marker, turn, &flips) {
        Ok(grid) => grid,
        Err(_) => return false,
    };
    let (out, rotation) = decode_conf(&grid, marker, conf, conf_erasure);
    let same = match out {
        Some((p, _)) => writes(case, "/out", &p),
        None => nothing_at(case, "/out"),
    };
    let aligned = match integer_at(case, "/out_shift") {
        Some(s) => s >= 0 && s as u64 == rotation as u64,
        None => false,
    };
    same && aligned
}

/// Whether the trips of a payload hold.
pub open spec fn trips_hold(
    marker: &MarkerSpec,
    payload: Seq<u8>,
    cases: Seq<Seq<char>>,
) -> Seq<bool> {
    Seq::new(cases.len(), |i: int| trip_holds(marker, payload, cases[i]))
}

/// What holds of a payload: its rows, and each of its trips. Only a failure
/// where there is no payload, or no list of trips.
pub open spec fn payload_verdicts(marker: &MarkerSpec, case: Seq<char>) -> Seq<bool> {
    match (bytes_in(case, "/payload"@), json_items(case, "/cases"@)) {
        (Some(p), Some(trips)) => seq![rows_hold(marker, case)] + trips_hold(marker, p, trips),
        _ => seq![false],
    }
}

/// What holds of payloads, one after the other.
pub open spec fn payloads_verdicts(marker: &MarkerSpec, cases: Seq<Seq<char>>) -> Seq<bool>
    decreases cases.len(),
{
    if cases.len() == 0 {
        seq![]
    } else {
        payloads_verdicts(marker, cases.drop_last()) + payload_verdicts(marker, cases.last())
    }
}

/// What holds of a payload.
fn check_payload(marker: &MarkerSpec, case: &str) -> (ok: Vec<bool>)
    requires
        marker.wf(),
    ensures
        ok@ == payload_verdicts(marker, case@),
{
    let mut ok: Vec<bool> = Vec::new();
    let (payload, trips) = match (bytes_at(case, "/payload"), items_at(case, "/cases")) {
        (Some(p), Some(trips)) => (p, trips),
        _ => {
            ok.push(false);
            assert(ok@ =~= seq![false]);
            return ok;
        },
    };
    ok.push(check_rows(marker, case, &payload));
    let ghost head = seq![rows_hold(marker, case@)];
    let ghost all = trips_hold(marker, payload@, texts(trips@));
    let n = trips.len();
    let mut i: usize = 0;
    assert(ok@ =~= head + all.take(0));
    while i < n
        invariant
            marker.wf(),
            n == trips@.len(),
            all == trips_hold(marker, payload@, texts(trips@)),
            i <= n,
            ok@ == head + all.take(i as int),
        decreases n - i,
    {
        let b = check_trip(marker, &payload, trips[i].as_str());
        ok.push(b);
        assert(all[i as int] == b);
        assert(ok@ =~= head + all.take(i + 1));
        i += 1;
    }
    assert(all.take(n as int) =~= all);
    ok
}

/// Appends a list to another.
fn extend(list: &mut Vec<bool>, more: &Vec<bool>)
    ensures
        final(list)@ == old(list)@ + more@,
{
    let ghost before = list@;
    let n = more.len();
    let mut i: usize = 0;
    assert(list@ =~= before + more@.take(0));
    while i < n
        invariant
            n == more@.len(),
            i <= n,
            list@ == before + more@.take(i as int),
        decreases n - i,
    {
        list.push(more[i]);
        assert(list@ =~= before + more@.take(i + 1));
        i += 1;
    }
    assert(more@.take(n as int) =~= more@);
}

/// The path of the payloads of a variant.
pub open spec fn grids_path(marker: &MarkerSpec) -> Seq<char> {
    "/grids/"@ + marker.name@
}

/// What holds of the payloads of a variant. None where they are missing.
pub open spec fn variant_read(text: Seq<char>) -> spec_fn(MarkerSpec) -> Option<Seq<bool>> {
    |m: MarkerSpec|
        match json_items(text, grids_path(&m)) {
            Some(cases) => Some(payloads_verdicts(&m, cases)),
            None => None,
        }
}

/// What holds of the payloads of variants, one after the other. None where
/// the payloads of a variant are missing.
pub open spec fn grid_verdicts(text: Seq<char>, markers: Seq<MarkerSpec>) -> Option<Seq<bool>> {
    match all_read(markers, variant_read(text)) {
        Some(parts) => Some(parts.flatten()),
        None => None,
    }
}

/// What holds of payloads.
fn check_payloads(marker: &MarkerSpec, cases: &Vec<String>) -> (ok: Vec<bool>)
    requires
        marker.wf(),
    ensures
        ok@ == payloads_verdicts(marker, texts(cases@)),
{
    let ghost all = texts(cases@);
    let n = cases.len();
    let mut ok: Vec<bool> = Vec::new();
    let mut i: usize = 0;
    assert(all.take(0) =~= seq![]);
    assert(ok@ =~= seq![]);
    while i < n
        invariant
            marker.wf(),
            n == cases@.len(),
            all == texts(cases@),
            i <= n,
            ok@ == payloads_verdicts(marker, all.take(i as int)),
        decreases n - i,
    {
        assert(all.take(i + 1).drop_last() =~= all.take(i as int));
        let more = check_payload(marker, cases[i].as_str());
        extend(&mut ok, &more);
        i += 1;
    }
    assert(all.take(n as int) =~= all);
    ok
}

/// The test vectors of the grids of variants. None where those of a variant
/// are missing.
pub fn grid_vectors(text: &str, markers: &Vec<MarkerSpec>) -> (r: Option<Outcome>)
    requires
        forall|i: int| 0 <= i < markers@.len() ==> (#[trigger] markers@[i]).wf(),
    ensures
        match grid_verdicts(text@, markers@) {
            None => r is None,
            Some(ok) => r matches Some(o) && o.tallies("grid"@, ok),
        },
{
    let n = markers.len();
    let mut ok: Vec<bool> = Vec::new();
    let ghost mut parts: Seq<Seq<bool>> = seq![];
    let mut i: usize = 0;
    assert(markers@.take(0) =~= seq![]);
    assert(ok@ =~= parts.flatten());
    while i < n
        invariant
            forall|i: int| 0 <= i < markers@.len() ==> (#[trigger] markers@[i]).wf(),
            n == markers@.len(),
            i <= n,
            all_read(markers@.take(i as int), variant_read(text@)) == Some(parts),
            ok@ == parts.flatten(),
        decreases n - i,
    {
        proof {
            lemma_read_on(markers@, variant_read(text@), i as int);
        }
        let mut path = String::from_str("/grids/");
        path.append(markers[i].name);
        match items_at(text, path.as_str()) {
            Some(cases) => {
                let more = check_payloads(&markers[i], &cases);
                proof {
                    parts.lemma_flatten_push(more@);
                    parts = parts.push(more@);
                }
                extend(&mut ok, &more);
            },
            None => return None,
        }
        i += 1;
    }
    assert(markers@.take(n as int) =~= markers@);
    Some(tally("grid", &ok))
}

} // verus!
