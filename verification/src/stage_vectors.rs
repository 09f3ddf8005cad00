//! Test vectors of the parameters of variants and of the stages before
//! decoding: block sizes and contours.
use crate::contours::Contour;
use crate::image::{adaptive_block, block};
use crate::json::{
    flag_at, integer_at, integers_at, items_at, json_flag, json_integer, json_integers, json_items,
    json_nothing, json_text, json_whole, json_written, nothing_at, text_at, texts, whole_at,
    written_at,
};
use crate::marker::MarkerSpec;
use crate::pairing::{pair_up, parent_partner, partners, same_tree};
use crate::text::same_text;
use crate::vectors::same_bytes;
use vstd::prelude::*;
use vstd::relations::{sorted_by, total_ordering};

verus! {

/// Whether a member is a number.
pub open spec fn is_number(part: Seq<char>, path: Seq<char>, n: int) -> bool {
    json_integer(part, path) matches Some(v) && v == n
}

/// Whether a member is a number.
fn number_is(part: &str, path: &str, n: usize) -> (b: bool)
    ensures
        b == is_number(part@, path@, n as int),
{
    match integer_at(part, path) {
        Some(v) => v >= 0 && v as u64 == n as u64,
        None => false,
    }
}

/// Whether the most errors that are corrected are as written, or neither is
/// given.
pub open spec fn errors_hold(m: &MarkerSpec, part: Seq<char>) -> bool {
    match m.max_errors {
        Some(n) => json_whole(part, "/MAX_ERRORS"@) matches Some(v) && v == n,
        None => json_nothing(part, "/MAX_ERRORS"@),
    }
}

/// The low byte of a number.
pub open spec fn low_byte(v: i64) -> u8 {
    (v as int % 256) as u8
}

/// The low bytes of the integers that a member lists.
pub open spec fn signed_in(part: Seq<char>, path: Seq<char>) -> Option<Seq<u8>> {
    match json_integers(part, path) {
        Some(v) => Some(Seq::new(v.len(), |i: int| low_byte(v[i]))),
        None => None,
    }
}

/// The low byte of a number.
fn to_low_byte(v: i64) -> (b: u8)
    ensures
        b == low_byte(v),
{
    let u = v as u64;
    assert(u as int % 256 == v as int % 256) by {
        assert(u == v || u == v + 0x1_0000_0000_0000_0000) by (bit_vector)
            requires
                u == v as u64,
        ;
    }
    (u % 256) as u8
}

/// The low bytes of the integers that a member lists.
fn signed_at(part: &str, path: &str) -> (r: Option<Vec<u8>>)
    ensures
        match r {
            Some(b) => signed_in(part@, path@) == Some(b@),
            None => signed_in(part@, path@) is None,
        },
{
    let v = match integers_at(part, path) {
        Some(v) => v,
        None => return None,
    };
    let n = v.len();
    let mut b: Vec<u8> = Vec::new();
    let mut i: usize = 0;
    while i < n
        invariant
            n == v@.len(),
            i <= n,
            b@ == Seq::new(i as nat, |k: int| low_byte(v@[k])),
        decreases n - i,
    {
        b.push(to_low_byte(v[i]));
        assert(b@ =~= Seq::new((i + 1) as nat, |k: int| low_byte(v@[k])));
        i += 1;
    }
    Some(b)
}

/// Whether the layout of a variant is as written: the rings, the sectors, the
/// data and the parity symbols, the flags and the alias.
pub open spec fn layout_verdicts(m: &MarkerSpec, part: Seq<char>) -> Seq<bool> {
    seq![
        is_number(part, "/RING_COUNT"@, m.ring_count as int),
        is_number(part, "/SECTOR_COUNT"@, m.sector_count as int),
        is_number(part, "/RS_K"@, m.rs_k as int),
        is_number(part, "/RS_NSYM"@, m.rs_nsym as int),
        json_flag(part, "/HAS_SYNC"@) == Some(m.has_sync) && json_flag(part, "/USE_HEADER"@)
            == Some(m.use_header),
        json_text(part, "/ALIAS"@) == Some(m.alias@),
    ]
}

/// Whether the sizes of a variant are as written: the bits of a symbol, the
/// payload bits, the most errors, the sync pattern, the data rings, the first
/// of them, and the payload bytes.
pub open spec fn size_verdicts(m: &MarkerSpec, part: Seq<char>) -> Seq<bool> {
    seq![
        is_number(part, "/SYMBOL_BITS"@, m.symbol_bits as int),
        is_number(part, "/payload_bits"@, m.bits() as int),
        errors_hold(m, part),
        signed_in(part, "/SYNC"@) == Some(m.sync@),
        is_number(part, "/data_ring_count"@, m.data_rings() as int),
        is_number(part, "/first_data_ring"@, m.first_ring() as int),
        is_number(part, "/payload_bytes"@, m.bytes() as int),
    ]
}

/// Whether a member is a flag.
fn flag_is(part: &str, path: &str, flag: bool) -> (b: bool)
    ensures
        b == (json_flag(part@, path@) == Some(flag)),
{
    match flag_at(part, path) {
        Some(v) => v == flag,
        None => false,
    }
}

/// Whether the most errors that are corrected are as written.
fn check_errors(m: &MarkerSpec, part: &str) -> (b: bool)
    ensures
        b == errors_hold(m, part@),
{
    match m.max_errors {
        Some(n) => match whole_at(part, "/MAX_ERRORS") {
            Some(v) => v == n as u64,
            None => false,
        },
        None => nothing_at(part, "/MAX_ERRORS"),
    }
}

/// Whether the layout of a variant is as written.
fn check_layout(m: &MarkerSpec, p: &str) -> (ok: Vec<bool>)
    ensures
        ok@ == layout_verdicts(m, p@),
{
    let alias = match text_at(p, "/ALIAS") {
        Some(s) => same_text(s.as_str(), m.alias),
        None => false,
    };
    let rings = number_is(p, "/RING_COUNT", m.ring_count);
    let sectors = number_is(p, "/SECTOR_COUNT", m.sector_count);
    let data = number_is(p, "/RS_K", m.rs_k);
    let parity = number_is(p, "/RS_NSYM", m.rs_nsym);
    let flags = flag_is(p, "/HAS_SYNC", m.has_sync) && flag_is(p, "/USE_HEADER", m.use_header);
    let ok: Vec<bool> = vec![rings, sectors, data, parity, flags, alias];
    assert(ok@ =~= seq![rings, sectors, data, parity, flags, alias]);
    ok
}

/// Whether the sizes of a variant are as written.
fn check_sizes(m: &MarkerSpec, p: &str) -> (ok: Vec<bool>)
    requires
        m.wf(),
    ensures
        ok@ == size_verdicts(m, p@),
{
    proof {
        crate::codec::lemma_sizes(m);
    }
    let sync = match signed_at(p, "/SYNC") {
        Some(s) => same_bytes(&s, &m.sync),
        None => false,
    };
    let symbol = number_is(p, "/SYMBOL_BITS", m.symbol_bits);
    let bits = number_is(p, "/payload_bits", m.payload_bits());
    let errors = check_errors(m, p);
    let rings = number_is(p, "/data_ring_count", m.data_ring_count());
    let first = number_is(p, "/first_data_ring", m.first_data_ring());
    let bytes = number_is(p, "/payload_bytes", m.payload_bytes());
    let ok: Vec<bool> = vec![symbol, bits, errors, sync, rings, first, bytes];
    assert(ok@ =~= seq![symbol, bits, errors, sync, rings, first, bytes]);
    ok
}

/// The test vectors of the parameters of a variant, but for the radii and the
/// thresholds, which stand under its name: those of its layout and those of
/// its sizes. None where there are none.
pub fn spec_vectors(text: &str, m: &MarkerSpec) -> (r: Option<(Vec<bool>, Vec<bool>)>)
    requires
        m.wf(),
    ensures
        match json_written(text@, "/"@ + m.name@) {
            None => r is None,
            Some(part) => r matches Some((layout, sizes)) && layout@ == layout_verdicts(m, part)
                && sizes@ == size_verdicts(m, part),
        },
{
    let mut path = String::from_str("/");
    path.append(m.name);
    match written_at(text, path.as_str()) {
        Some(part) => Some((check_layout(m, part.as_str()), check_sizes(m, part.as_str()))),
        None => None,
    }
}

/// Whether the block size of an image is the one that is written.
pub fn block_holds(text: &str, w: usize, h: usize) -> (b: bool)
    ensures
        b == (json_whole(text@, "/block"@) matches Some(v) && v == block(w as int, h as int)),
{
    match whole_at(text, "/block") {
        Some(v) => v == adaptive_block(w, h) as u64,
        None => false,
    }
}

/// The points with some coordinates, of which the low 32 bits count.
pub open spec fn points_with(v: Seq<i64>) -> Seq<(i32, i32)> {
    Seq::new(v.len() / 2, |i: int| (v[2 * i] as i32, v[2 * i + 1] as i32))
}

/// The points of a contour in text, two coordinates each.
pub open spec fn points_in(item: Seq<char>) -> Option<Seq<(i32, i32)>> {
    match json_integers(item, "/pts"@) {
        Some(v) => if v.len() % 2 == 0 {
            Some(points_with(v))
        } else {
            None
        },
        None => None,
    }
}

/// The points of a contour in text.
fn points_at(item: &str) -> (r: Option<Vec<(i32, i32)>>)
    ensures
        match r {
            Some(p) => points_in(item@) == Some(p@),
            None => points_in(item@) is None,
        },
{
    let v = match integers_at(item, "/pts") {
        Some(v) => v,
        None => return None,
    };
    let n = v.len();
    if n % 2 != 0 {
        return None;
    }
    let mut p: Vec<(i32, i32)> = Vec::new();
    let mut i: usize = 0;
    while i < n
        invariant
            n == v@.len(),
            n % 2 == 0,
            i % 2 == 0,
            i <= n,
            p@ == points_with(v@).take(i as int / 2),
        decreases n - i,
    {
        let (x, y) = (v[i] as i32, v[i + 1] as i32);
        p.push((x, y));
        assert(points_with(v@)[i as int / 2] == (x, y));
        assert(p@ =~= points_with(v@).take((i + 2) / 2));
        i += 2;
    }
    assert(p@ =~= points_with(v@));
    Some(p)
}

/// The order of points, by column and then by row.
pub open spec fn point_order() -> spec_fn((i32, i32), (i32, i32)) -> bool {
    |a: (i32, i32), b: (i32, i32)| a.0 < b.0 || (a.0 == b.0 && a.1 <= b.1)
}

/// Points in order.
fn sort_points(pts: &Vec<(i32, i32)>) -> (s: Vec<(i32, i32)>)
    ensures
        s@.to_multiset() == pts@.to_multiset(),
        sorted_by(s@, point_order()),
{
    let n = pts.len();
    let mut s: Vec<(i32, i32)> = Vec::new();
    let mut i: usize = 0;
    assert(pts@.take(0) =~= seq![]);
    assert(s@ =~= seq![]);
    while i < n
        invariant
            n == pts@.len(),
            i <= n,
            s@.len() == i,
            s@.to_multiset() == pts@.take(i as int).to_multiset(),
            sorted_by(s@, point_order()),
        decreases n - i,
    {
        let p = pts[i];
        let mut at: usize = i;
        while at > 0 && (p.0 < s[at - 1].0 || (p.0 == s[at - 1].0 && p.1 < s[at - 1].1))
            invariant
                at <= i,
                s@.len() == i,
                forall|k: int| at <= k < i ==> point_order()(p, #[trigger] s@[k]),
            decreases at,
        {
            at -= 1;
        }
        let ghost before = s@;
        proof {
            assert(at > 0 ==> point_order()(before[at - 1], p));
            assert(pts@.take(i + 1) =~= pts@.take(i as int).push(p));
            vstd::seq_lib::to_multiset_build(pts@.take(i as int), p);
            vstd::seq_lib::to_multiset_insert(before, at as int, p);
        }
        s.insert(at, p);
        proof {
            assert(s@ =~= before.insert(at as int, p));
            let le = point_order();
            assert forall|a: int, b: int| 0 <= a < b < s@.len() implies #[trigger] le(
                s@[a],
                s@[b],
            ) by {
                if a < at && b > at {
                    assert(le(before[a], before[b - 1]));
                } else if a < at && b == at {
                    if a < at - 1 {
                        assert(le(before[a], before[at - 1]));
                    }
                } else if a < at {
                    assert(le(before[a], before[b]));
                } else if a > at {
                    assert(le(before[a - 1], before[b - 1]));
                }
            }
        }
        i += 1;
    }
    assert(pts@.take(n as int) =~= pts@);
    s
}

/// Whether sorted points are the same.
fn same_sorted(a: &Vec<(i32, i32)>, b: &Vec<(i32, i32)>) -> (r: bool)
    requires
        sorted_by(a@, point_order()),
        sorted_by(b@, point_order()),
    ensures
        r == (a@.to_multiset() == b@.to_multiset()),
{
    proof {
        assert(total_ordering(point_order()));
        if a@.to_multiset() == b@.to_multiset() {
            vstd::seq_lib::lemma_sorted_unique(a@, b@, point_order());
        }
    }
    let n = a.len();
    if n != b.len() {
        return false;
    }
    let mut i: usize = 0;
    while i < n
        invariant
            n == a@.len(),
            n == b@.len(),
            i <= n,
            a@.to_multiset() == b@.to_multiset() ==> a@ =~= b@,
            forall|k: int| 0 <= k < i ==> #[trigger] a@[k] == b@[k],
        decreases n - i,
    {
        if a[i].0 != b[i].0 || a[i].1 != b[i].1 {
            assert(a@[i as int] != b@[i as int]);
            return false;
        }
        i += 1;
    }
    assert(a@ =~= b@);
    true
}

/// Whether a contour has the points that a text lists, in any order.
pub open spec fn same_points(c: Contour, item: Seq<char>) -> bool {
    points_in(item) matches Some(p) && p.to_multiset() == c.pts@.to_multiset()
}

/// Which expected contour has the points of which contour. Of expected
/// contours with the same points the last counts first.
pub open spec fn point_suits(contours: Seq<Contour>, want: Seq<Seq<char>>) -> Seq<bool> {
    let n = contours.len();
    Seq::new(
        n * n,
        |q: int| same_points(contours[q / (n as int)], want[n - 1 - q % (n as int)]),
    )
}

/// The expected contours that the contours are paired with, if all are.
pub open spec fn contour_partners(contours: Seq<Contour>, want: Seq<Seq<char>>) -> Option<
    Seq<usize>,
> {
    let n = contours.len();
    match partners(point_suits(contours, want), n as int, n) {
        Ok(p) => Some(Seq::new(p.len(), |g: int| (n - 1 - p[g]) as usize)),
        Err(_) => None,
    }
}

/// The parents of contours.
pub open spec fn parents(contours: Seq<Contour>) -> Seq<i32> {
    Seq::new(contours.len(), |g: int| contours[g].parent)
}

/// Whether pairing contours with expected ones keeps who is whose parent.
pub open spec fn nesting_holds(
    contours: Seq<Contour>,
    want: Seq<Seq<char>>,
    partner: Seq<usize>,
) -> bool {
    forall|g: int|
        0 <= g < contours.len() ==> {
            let p = #[trigger] parent_partner(parents(contours), partner, g);
            json_integer(want[partner[g] as int], "/hier/3"@) matches Some(q) && p == q
        }
}

/// How contours agree with expected ones.
#[derive(Debug)]
pub struct Agreement {
    /// The expected contours that the contours are paired with, if there are
    /// as many and all are paired.
    pub partner: Option<Vec<usize>>,
    /// Whether the pairing keeps who is whose parent.
    pub nested: bool,
}

/// Whether contours in text have points.
pub open spec fn have_points(want: Seq<Seq<char>>) -> bool {
    forall|w: int| 0 <= w < want.len() ==> points_in(#[trigger] want[w]) is Some
}

/// Whether contours in text have parents, or are said to have none.
pub open spec fn have_parents(want: Seq<Seq<char>>) -> bool {
    forall|w: int| 0 <= w < want.len() ==> json_integer(#[trigger] want[w], "/hier/3"@) is Some
}

/// The sorted points of contours in text, the last contour first.
fn read_points(want: &Vec<String>) -> (r: Option<Vec<Vec<(i32, i32)>>>)
    ensures
        match r {
            Some(points) => {
                &&& have_points(texts(want@))
                &&& points@.len() == want@.len()
                &&& forall|w: int|
                    0 <= w < want@.len() ==> {
                        let p = #[trigger] points@[w];
                        sorted_by(p@, point_order()) && (points_in(want@[want@.len() - 1 - w]@)
                            matches Some(q) && q.to_multiset() == p@.to_multiset())
                    }
            },
            None => !have_points(texts(want@)),
        },
{
    let n = want.len();
    let mut points: Vec<Vec<(i32, i32)>> = Vec::new();
    let mut i: usize = 0;
    while i < n
        invariant
            n == want@.len(),
            i <= n,
            points@.len() == i,
            forall|w: int|
                0 <= w < i ==> {
                    let p = #[trigger] points@[w];
                    sorted_by(p@, point_order()) && (points_in(want@[n - 1 - w]@) matches Some(q)
                        && q.to_multiset() == p@.to_multiset())
                },
        decreases n - i,
    {
        match points_at(want[n - 1 - i].as_str()) {
            Some(p) => points.push(sort_points(&p)),
            None => {
                assert(points_in(texts(want@)[n - 1 - i]) is None);
                return None;
            },
        }
        i += 1;
    }
    proof {
        assert forall|w: int| 0 <= w < texts(want@).len() implies points_in(
            #[trigger] texts(want@)[w],
        ) is Some by {
            let p = points@[n - 1 - w];
        }
    }
    Some(points)
}

/// The parents of contours in text.
fn read_parents(want: &Vec<String>) -> (r: Option<Vec<i64>>)
    ensures
        match r {
            Some(parents) => {
                &&& have_parents(texts(want@))
                &&& parents@.len() == want@.len()
                &&& forall|w: int|
                    0 <= w < want@.len() ==> json_integer(want@[w]@, "/hier/3"@) == Some(
                        #[trigger] parents@[w],
                    )
            },
            None => !have_parents(texts(want@)),
        },
{
    let n = want.len();
    let mut parents: Vec<i64> = Vec::new();
    let mut k: usize = 0;
    while k < n
        invariant
            n == want@.len(),
            k <= n,
            parents@.len() == k,
            forall|w: int|
                0 <= w < k ==> json_integer(want@[w]@, "/hier/3"@) == Some(#[trigger] parents@[w]),
        decreases n - k,
    {
        match integer_at(want[k].as_str(), "/hier/3") {
            Some(p) => parents.push(p),
            None => {
                assert(json_integer(texts(want@)[k as int], "/hier/3"@) is None);
                return None;
            },
        }
        k += 1;
    }
    proof {
        assert forall|w: int| 0 <= w < texts(want@).len() implies json_integer(
            #[trigger] texts(want@)[w],
            "/hier/3"@,
        ) is Some by {
            let q = parents@[w];
        }
    }
    Some(parents)
}

/// The table of which expected contour has the points of which contour.
fn suit_table(contours: &Vec<Contour>, want: &Vec<String>, points: &Vec<Vec<(i32, i32)>>) -> (r:
    Vec<bool>)
    requires
        contours@.len() == want@.len(),
        points@.len() == want@.len(),
        contours@.len() * contours@.len() <= usize::MAX,
        forall|w: int|
            0 <= w < want@.len() ==> {
                let p = #[trigger] points@[w];
                sorted_by(p@, point_order()) && (points_in(want@[want@.len() - 1 - w]@) matches Some(
                    q,
                ) && q.to_multiset() == p@.to_multiset())
            },
    ensures
        r@ == point_suits(contours@, texts(want@)),
{
    let n = contours.len();
    let ghost all = point_suits(contours@, texts(want@));
    let mut suits: Vec<bool> = Vec::new();
    let mut g: usize = 0;
    assert(suits@ =~= all.take(0));
    while g < n
        invariant
            n == contours@.len(),
            n == want@.len(),
            points@.len() == n,
            n * n <= usize::MAX,
            g <= n,
            forall|w: int|
                0 <= w < n ==> {
                    let p = #[trigger] points@[w];
                    sorted_by(p@, point_order()) && (points_in(want@[n - 1 - w]@) matches Some(q)
                        && q.to_multiset() == p@.to_multiset())
                },
            all == point_suits(contours@, texts(want@)),
            suits@ == all.take(g * n),
        decreases n - g,
    {
        let sorted = sort_points(&contours[g].pts);
        let mut w: usize = 0;
        while w < n
            invariant
                n == contours@.len(),
                n == want@.len(),
                points@.len() == n,
                n * n <= usize::MAX,
                g < n,
                w <= n,
                sorted_by(sorted@, point_order()),
                sorted@.to_multiset() == contours@[g as int].pts@.to_multiset(),
                forall|w: int|
                    0 <= w < n ==> {
                        let p = #[trigger] points@[w];
                        sorted_by(p@, point_order()) && (points_in(want@[n - 1 - w]@) matches Some(q)
                            && q.to_multiset() == p@.to_multiset())
                    },
                all == point_suits(contours@, texts(want@)),
                suits@ == all.take(g * n + w),
            decreases n - w,
        {
            let ghost q = g * n + w;
            proof {
                let p = points@[w as int];
                assert(0 <= g * n && q < n * n && (g + 1) * n == g * n + n) by (nonlinear_arith)
                    requires
                        0 <= g < n,
                        0 <= w < n,
                        q == g * n + w,
                ;
                vstd::arithmetic::div_mod::lemma_fundamental_div_mod_converse(
                    q,
                    n as int,
                    g as int,
                    w as int,
                );
                assert(texts(want@)[n - 1 - w] == want@[n - 1 - w]@);
            }
            let same = same_sorted(&points[w], &sorted);
            suits.push(same);
            proof {
                assert(all[q] == same);
                assert(suits@ =~= all.take(q + 1));
            }
            w += 1;
        }
        proof {
            assert((g + 1) * n == g * n + n) by (nonlinear_arith);
        }
        g += 1;
    }
    assert(all.take(n * n) =~= all);
    suits
}

/// Compares contours with the expected ones in a text: their points, in any
/// order, and their nesting. None where the text lists no contours or, where
/// there are as many, they lack points, or those that are paired lack parents;
/// also where there are so many that pairs of them cannot be counted.
pub fn contour_vectors(text: &str, contours: &Vec<Contour>) -> (r: Option<Agreement>)
    requires
        forall|g: int|
            0 <= g < contours@.len() ==> (#[trigger] contours@[g]).parent < contours@.len(),
    ensures
        match json_items(text@, "/contours"@) {
            None => r is None,
            Some(want) => if contours@.len() != want.len() {
                r matches Some(a) && a.partner is None && !a.nested
            } else if !have_points(want) || contours@.len() * contours@.len() > usize::MAX {
                r is None
            } else {
                match contour_partners(contours@, want) {
                    None => r matches Some(a) && a.partner is None && !a.nested,
                    Some(p) => if have_parents(want) {
                        r matches Some(a) && (a.partner matches Some(v) && v@ == p) && a.nested
                            == nesting_holds(contours@, want, p)
                    } else {
                        r is None
                    },
                }
            },
        },
{
    let want = match items_at(text, "/contours") {
        Some(want) => want,
        None => return None,
    };
    let n = contours.len();
    if n != want.len() {
        return Some(Agreement { partner: None, nested: false });
    }
    let points = match read_points(&want) {
        Some(points) => points,
        None => return None,
    };
    match n.checked_mul(n) {
        Some(_) => {},
        None => return None,
    }
    let suits = suit_table(contours, &want, &points);
    proof {
        crate::pairing::law_pairing_suits(suits@, n as int, n as nat);
    }
    let paired = match pair_up(&suits, n, n) {
        Ok(p) => p,
        Err(_) => return Some(Agreement { partner: None, nested: false }),
    };
    let expected = match read_parents(&want) {
        Some(expected) => expected,
        None => return None,
    };
    let mut partner: Vec<usize> = Vec::new();
    let mut above: Vec<i32> = Vec::new();
    let mut g: usize = 0;
    while g < n
        invariant
            n == contours@.len(),
            n == paired@.len(),
            g <= n,
            partner@.len() == g,
            above@.len() == g,
            forall|k: int| 0 <= k < n ==> #[trigger] paired@[k] < n,
            forall|k: int| 0 <= k < g ==> #[trigger] partner@[k] == n - 1 - paired@[k],
            forall|k: int| 0 <= k < g ==> #[trigger] above@[k] == contours@[k].parent,
        decreases n - g,
    {
        partner.push(n - 1 - paired[g]);
        above.push(contours[g].parent);
        g += 1;
    }
    assert(partner@ =~= contour_partners(contours@, texts(want@)).unwrap());
    assert(above@ =~= parents(contours@));
    assert(n <= 0xffff_ffff) by (nonlinear_arith)
        requires
            n * n <= 0xffff_ffff_ffff_ffff,
            n >= 0,
    ;
    let nested = same_tree(&above, &partner, &expected);
    Some(Agreement { partner: Some(partner), nested })
}

} // verus!
