//! Choosing among candidates: an order by size, keeping apart what clashes,
//! and the round contours that may be tags.
//!
//! Sizes are given by keys that order them.
use crate::codec::{lemma_listed, listed};
use crate::contour_laws::law_contours_nested;
use crate::contours::{borders_of, children_of, trace_all, traceable, Contour};
use crate::image::Gray;
use vstd::prelude::*;

verus! {

/// Whether item `i` comes before item `j`: it has the larger key or, with
/// equal keys, the smaller index.
pub open spec fn comes_before(keys: Seq<u128>, i: int, j: int) -> bool {
    keys[i] > keys[j] || (keys[i] == keys[j] && i < j)
}

/// Whether `order` lists the items from the largest to the smallest key, each
/// of them once, and equal ones in the order of their indices.
pub open spec fn is_ranking(keys: Seq<u128>, order: Seq<usize>) -> bool {
    &&& order.len() == keys.len()
    &&& forall|a: int| 0 <= a < order.len() ==> #[trigger] order[a] < keys.len()
    &&& forall|a: int, b: int|
        0 <= a < b < order.len() ==> comes_before(
            keys,
            #[trigger] order[a] as int,
            #[trigger] order[b] as int,
        )
}

/// The items from the largest to the smallest key.
pub fn ranked(keys: &[u128]) -> (order: Vec<usize>)
    ensures
        is_ranking(keys@, order@),
{
    let n = keys.len();
    let mut order: Vec<usize> = Vec::new();
    let mut i: usize = 0;
    while i < n
        invariant
            n == keys@.len(),
            i <= n,
            order@.len() == i,
            forall|a: int| 0 <= a < i ==> #[trigger] order@[a] < i,
            forall|a: int, b: int|
                0 <= a < b < i ==> comes_before(
                    keys@,
                    #[trigger] order@[a] as int,
                    #[trigger] order@[b] as int,
                ),
        decreases n - i,
    {
        let mut at: usize = i;
        while at > 0 && keys[order[at - 1]] < keys[i]
            invariant
                i < n,
                n == keys@.len(),
                at <= i,
                order@.len() == i,
                forall|a: int| 0 <= a < i ==> #[trigger] order@[a] < i,
                forall|a: int| at <= a < i ==> keys@[#[trigger] order@[a] as int] < keys@[i as int],
            decreases at,
        {
            at -= 1;
        }
        let ghost before = order@;
        order.insert(at, i);
        proof {
            assert forall|a: int, b: int| 0 <= a < b < i + 1 implies comes_before(
                keys@,
                #[trigger] order@[a] as int,
                #[trigger] order@[b] as int,
            ) by {
                if b == at {
                    assert(order@[a] == before[a]);
                    let last = before[at - 1] as int;
                    if a < at - 1 {
                        assert(comes_before(keys@, before[a] as int, before[at - 1] as int));
                    }
                } else if a == at {
                    assert(order@[b] == before[b - 1]);
                } else {
                    let (u, v) = (
                        if a < at {
                            a
                        } else {
                            a - 1
                        },
                        if b < at {
                            b
                        } else {
                            b - 1
                        },
                    );
                    assert(order@[a] == before[u] && order@[b] == before[v]);
                }
            }
        }
        i += 1;
    }
    order
}

/// Every item is listed in a ranking.
pub proof fn law_ranking_complete(keys: Seq<u128>, order: Seq<usize>, i: int)
    requires
        is_ranking(keys, order),
        keys.len() <= usize::MAX,
        0 <= i < keys.len(),
    ensures
        order.contains(i as usize),
{
    assert(order.no_duplicates()) by {
        assert forall|a: int, b: int|
            0 <= a < order.len() && 0 <= b < order.len() && a != b implies order[a] != order[b] by {
            if a < b {
                assert(comes_before(keys, order[a] as int, order[b] as int));
            } else {
                assert(comes_before(keys, order[b] as int, order[a] as int));
            }
        }
    }
    let wide = Seq::new(order.len(), |a: int| order[a] as int);
    assert(wide.no_duplicates());
    wide.unique_seq_to_set();
    let range = vstd::set_lib::set_int_range(0, keys.len() as int);
    vstd::set_lib::lemma_int_range(0, keys.len() as int);
    assert(wide.to_set().subset_of(range)) by {
        assert forall|x: int| wide.to_set().contains(x) implies range.contains(x) by {
            let a = choose|a: int| 0 <= a < wide.len() && wide[a] == x;
            assert(order[a] < keys.len());
        }
    }
    vstd::set_lib::lemma_subset_equality(wide.to_set(), range);
    assert(wide.to_set().contains(i));
    let a = choose|a: int| 0 <= a < wide.len() && wide[a] == i;
    assert(order[a] == i as usize);
}

/// Whether item `i` clashes with one of the kept items.
pub open spec fn clashes_with(clash: Seq<bool>, n: int, i: int, kept: Seq<usize>) -> bool {
    exists|k: int| 0 <= k < kept.len() && clash[i * n + #[trigger] kept[k]]
}

/// The items that are kept of the first `m` in the order: each one that does
/// not clash with those kept before it.
pub open spec fn kept_of(order: Seq<usize>, clash: Seq<bool>, n: int, m: nat) -> Seq<usize>
    decreases m,
{
    if m == 0 {
        seq![]
    } else {
        let before = kept_of(order, clash, n, (m - 1) as nat);
        if clashes_with(clash, n, order[m - 1] as int, before) {
            before
        } else {
            before.push(order[m - 1])
        }
    }
}

/// Goes through `n` items in the given order and keeps each one that does not
/// clash with one kept before, up to `limit` of them. `clash[i * n + k]` says
/// whether item `i` clashes with the kept item `k`.
pub fn keep_apart(order: &[usize], clash: &[bool], n: usize, limit: usize) -> (r: Vec<usize>)
    requires
        clash@.len() == n * n,
        forall|a: int| 0 <= a < order@.len() ==> #[trigger] order@[a] < n,
    ensures
        r@ == ({
            let all = kept_of(order@, clash@, n as int, order@.len());
            if all.len() > limit {
                all.take(limit as int)
            } else {
                all
            }
        }),
{
    let len = clash.len();
    let mut kept: Vec<usize> = Vec::new();
    let mut m: usize = 0;
    while m < order.len()
        invariant
            len == clash@.len(),
            len == n * n,
            forall|a: int| 0 <= a < order@.len() ==> #[trigger] order@[a] < n,
            m <= order@.len(),
            kept@ == kept_of(order@, clash@, n as int, m as nat),
            forall|k: int| 0 <= k < kept@.len() ==> #[trigger] kept@[k] < n,
        decreases order.len() - m,
    {
        let i = order[m];
        let mut k: usize = 0;
        let mut free = true;
        while k < kept.len()
            invariant
                len == clash@.len(),
                len == n * n,
                i < n,
                k <= kept@.len(),
                forall|k: int| 0 <= k < kept@.len() ==> #[trigger] kept@[k] < n,
                free <==> forall|j: int|
                    0 <= j < k ==> !clash@[i * n + #[trigger] kept@[j]],
            decreases kept.len() - k,
        {
            let c = kept[k];
            assert(i * n + c < n * n && 0 <= i * n) by (nonlinear_arith)
                requires
                    i < n,
                    c < n,
            ;
            if clash[i * n + c] {
                free = false;
            }
            k += 1;
        }
        if free {
            kept.push(i);
        }
        m += 1;
    }
    if kept.len() > limit {
        kept.truncate(limit);
    }
    kept
}

/// What is kept does not clash: no kept item clashes with one kept before it.
pub proof fn law_kept_apart(order: Seq<usize>, clash: Seq<bool>, n: int, m: nat)
    requires
        m <= order.len(),
    ensures
        forall|a: int, b: int|
            0 <= a < b < kept_of(order, clash, n, m).len() ==> !clash[#[trigger] kept_of(
                order,
                clash,
                n,
                m,
            )[b] * n + #[trigger] kept_of(order, clash, n, m)[a]],
    decreases m,
{
    if m > 0 {
        law_kept_apart(order, clash, n, (m - 1) as nat);
        let before = kept_of(order, clash, n, (m - 1) as nat);
        let after = kept_of(order, clash, n, m);
        assert forall|a: int, b: int| 0 <= a < b < after.len() implies !clash[#[trigger] after[b]
            * n + #[trigger] after[a]] by {
            if b == before.len() {
                assert(after[a] == before[a]);
                assert(after[b] == order[m - 1]);
                assert(!clash[order[m - 1] * n + before[a]]);
            } else {
                assert(after[a] == before[a] && after[b] == before[b]);
            }
        }
    }
}

/// Nothing is dropped for no reason: an item that is not kept clashes with one
/// that is.
pub proof fn law_dropped_clash(order: Seq<usize>, clash: Seq<bool>, n: int, m: nat, t: int)
    requires
        m <= order.len(),
        0 <= t < m,
    ensures
        kept_of(order, clash, n, m).contains(order[t]) || clashes_with(
            clash,
            n,
            order[t] as int,
            kept_of(order, clash, n, m),
        ),
    decreases m,
{
    let before = kept_of(order, clash, n, (m - 1) as nat);
    let after = kept_of(order, clash, n, m);
    if t < m - 1 {
        law_dropped_clash(order, clash, n, (m - 1) as nat, t);
        if before.contains(order[t]) {
            let k = choose|k: int| 0 <= k < before.len() && before[k] == order[t];
            assert(after[k] == order[t]);
        } else {
            let k = choose|k: int|
                0 <= k < before.len() && clash[order[t] * n + #[trigger] before[k]];
            assert(after[k] == before[k]);
        }
    } else if after.len() > before.len() {
        assert(after[before.len() as int] == order[t]);
    }
}

/// The most candidates of one image.
pub const MAX_CANDIDATES: usize = 512;

/// Whether `kept` are the largest items that do not clash, up to `limit` of
/// them.
pub open spec fn are_largest_apart(
    keys: Seq<u128>,
    clash: Seq<bool>,
    limit: int,
    kept: Seq<usize>,
) -> bool {
    forall|order: Seq<usize>| #[trigger]
        is_ranking(keys, order) ==> kept == {
            let all = kept_of(order, clash, keys.len() as int, order.len());
            if all.len() > limit {
                all.take(limit)
            } else {
                all
            }
        }
}

/// Goes through the items from the largest to the smallest and keeps each one
/// that does not clash with one kept before, up to `limit` of them.
pub fn largest_apart(keys: &[u128], clash: &[bool], limit: usize) -> (kept: Vec<usize>)
    requires
        clash@.len() == keys@.len() * keys@.len(),
    ensures
        are_largest_apart(keys@, clash@, limit as int, kept@),
{
    let order = ranked(keys);
    let kept = keep_apart(&order, clash, keys.len(), limit);
    proof {
        assert forall|other: Seq<usize>| #[trigger]
            is_ranking(keys@, other) implies kept@ == ({
            let all = kept_of(other, clash@, keys@.len() as int, other.len());
            if all.len() > limit {
                all.take(limit as int)
            } else {
                all
            }
        }) by {
            lemma_ranking_unique(keys@, order@, other);
        }
    }
    kept
}

/// There is only one ranking.
proof fn lemma_ranking_unique(keys: Seq<u128>, a: Seq<usize>, b: Seq<usize>)
    requires
        keys.len() <= usize::MAX,
        is_ranking(keys, a),
        is_ranking(keys, b),
    ensures
        a == b,
{
    assert forall|t: int| 0 <= t < a.len() implies a[t] == b[t] by {
        lemma_ranking_agrees(keys, a, b, t);
    }
    assert(a =~= b);
}

/// Rankings agree entry by entry.
proof fn lemma_ranking_agrees(keys: Seq<u128>, a: Seq<usize>, b: Seq<usize>, t: int)
    requires
        keys.len() <= usize::MAX,
        is_ranking(keys, a),
        is_ranking(keys, b),
        0 <= t < a.len(),
    ensures
        a[t] == b[t],
    decreases t,
{
    assert forall|u: int| 0 <= u < t implies a[u] == b[u] by {
        lemma_ranking_agrees(keys, a, b, u);
    }
    if a[t] != b[t] {
        law_ranking_complete(keys, a, b[t] as int);
        law_ranking_complete(keys, b, a[t] as int);
        let u = choose|u: int| 0 <= u < a.len() && a[u] == b[t];
        let v = choose|v: int| 0 <= v < b.len() && b[v] == a[t];
        if u < t {
            assert(a[u] == b[u]);
            assert(comes_before(keys, b[u] as int, b[t] as int));
        }
        if v < t {
            assert(a[v] == b[v]);
            assert(comes_before(keys, a[v] as int, a[t] as int));
        }
        assert(comes_before(keys, a[t] as int, a[u] as int));
        assert(comes_before(keys, b[t] as int, b[v] as int));
    }
}

/// An ellipse that fits a contour.
#[derive(Clone, Copy, Debug)]
pub struct Fit {
    /// The key of the radius.
    pub radius: u64,
    /// The key of nine tenths of it.
    pub most: u64,
}

/// The least radius of a tag, as a key: the bits of 8 in double precision.
pub const TAG_RADIUS: u64 = 0x4020_0000_0000_0000;

/// The least radius of a lone bullseye, as a key: the bits of 4.
pub const BULLSEYE_RADIUS: u64 = 0x4010_0000_0000_0000;

/// The contours of a candidate.
#[derive(Clone, Copy, Debug)]
pub struct Choice {
    /// The outer contour.
    pub outer: usize,
    /// The smallest round contour inside.
    pub inner: Option<usize>,
    /// The largest round contour inside that is clearly smaller than the outer
    /// one: the tag, where the outer contour is that of a label around it.
    pub alt: Option<usize>,
    /// Whether the contour is too small to be a tag, and may only be the
    /// bullseye of one.
    pub bullseye_only: bool,
}

/// Whether a contour is round and as large as a tag.
pub open spec fn is_round(fits: Seq<Option<Fit>>, i: int) -> bool {
    fits[i] matches Some(f) && f.radius >= TAG_RADIUS
}

/// Whether a contour lies inside a round one.
pub open spec fn inside_round(parents: Seq<int>, fits: Seq<Option<Fit>>, i: int) -> bool
    decreases i,
{
    let p = parents[i];
    0 <= p < i && (is_round(fits, p) || inside_round(parents, fits, p))
}

/// The contours inside contour `i` that lie in its first children, those with
/// an index below `k`: each followed by those inside it.
pub open spec fn below(parents: Seq<int>, i: int, k: nat) -> Seq<usize>
    decreases parents.len() - i, k,
{
    if k == 0 || k > parents.len() {
        seq![]
    } else {
        let before = below(parents, i, (k - 1) as nat);
        if parents[k - 1] == i && i < k - 1 {
            before + seq![(k - 1) as usize] + below(parents, k - 1, parents.len())
        } else {
            before
        }
    }
}

/// The contours inside contour `i`.
pub open spec fn inside(parents: Seq<int>, i: int) -> Seq<usize> {
    below(parents, i, parents.len())
}

/// The first of the smallest fitted contours among the first `m` of a list.
pub open spec fn smallest(fits: Seq<Option<Fit>>, list: Seq<usize>, m: nat) -> Option<usize>
    decreases m,
{
    if m == 0 {
        None
    } else {
        let best = smallest(fits, list, (m - 1) as nat);
        let j = list[m - 1];
        match (fits[j as int], best) {
            (Some(f), None) => Some(j),
            (Some(f), Some(b)) => if f.radius < fits[b as int]->Some_0.radius {
                Some(j)
            } else {
                best
            },
            _ => best,
        }
    }
}

/// The first of the largest fitted contours, up to a radius, among the first
/// `m` of a list.
pub open spec fn largest_within(
    fits: Seq<Option<Fit>>,
    list: Seq<usize>,
    most: u64,
    m: nat,
) -> Option<usize>
    decreases m,
{
    if m == 0 {
        None
    } else {
        let best = largest_within(fits, list, most, (m - 1) as nat);
        let j = list[m - 1];
        match (fits[j as int], best) {
            (Some(f), None) => if f.radius <= most {
                Some(j)
            } else {
                best
            },
            (Some(f), Some(b)) => if f.radius <= most && f.radius > fits[b as int]->Some_0.radius {
                Some(j)
            } else {
                best
            },
            _ => best,
        }
    }
}

/// What contour `i` is a candidate for, if anything. Round contours inside
/// round ones belong to the candidate around them.
pub open spec fn choice_of(parents: Seq<int>, fits: Seq<Option<Fit>>, i: int) -> Option<Choice> {
    let list = inside(parents, i);
    match fits[i] {
        None => None,
        Some(f) => {
            let inner = smallest(fits, list, list.len());
            if inside_round(parents, fits, i) {
                None
            } else if f.radius >= TAG_RADIUS {
                Some(
                    Choice {
                        outer: i as usize,
                        inner,
                        alt: largest_within(fits, list, f.most, list.len()),
                        bullseye_only: false,
                    },
                )
            } else if f.radius >= BULLSEYE_RADIUS && inner is None {
                Some(
                    Choice { outer: i as usize, inner: None, alt: None, bullseye_only: true },
                )
            } else {
                None
            }
        },
    }
}

/// The candidates among the first `n` contours.
pub open spec fn choices_of(parents: Seq<int>, fits: Seq<Option<Fit>>, n: nat) -> Seq<Choice>
    decreases n,
{
    if n == 0 {
        seq![]
    } else {
        let before = choices_of(parents, fits, (n - 1) as nat);
        match choice_of(parents, fits, n - 1) {
            Some(c) => before.push(c),
            None => before,
        }
    }
}

/// The parents of contours.
pub open spec fn parents_of(contours: Seq<Contour>) -> Seq<int> {
    Seq::new(contours.len(), |i: int| contours[i].parent as int)
}

/// Whether a contour is a child of contour `i`.
pub open spec fn child_of(parents: Seq<int>, i: int) -> spec_fn(int) -> bool {
    |j: int| parents[j] == i
}

/// Whether contours form a tree: parents come first, and each contour lists
/// its children.
pub open spec fn is_tree(contours: Seq<Contour>) -> bool {
    let parents = parents_of(contours);
    &&& forall|i: int| 0 <= i < contours.len() ==> -1 <= #[trigger] parents[i] < i
    &&& forall|i: int|
        0 <= i < contours.len() ==> (#[trigger] contours[i]).children@ == listed(
            child_of(parents, i),
            contours.len(),
        )
}

/// Lists the contours inside contour `i`.
fn descend(contours: &Vec<Contour>, i: usize, out: &mut Vec<usize>)
    requires
        is_tree(contours@),
        i < contours@.len(),
    ensures
        final(out)@ == old(out)@ + inside(parents_of(contours@), i as int),
    decreases contours@.len() - i,
{
    let total = contours.len();
    let ghost parents = parents_of(contours@);
    let ghost n = contours@.len();
    let ghost p = child_of(parents, i as int);
    let ghost start = out@;
    let ghost mut seen: nat = 0;
    let mut k: usize = 0;
    proof {
        lemma_listed(p, n);
        assert(contours@[i as int].children@ == listed(p, n));
        assert(start + below(parents, i as int, 0) =~= start);
    }
    while k < contours[i].children.len()
        invariant
            is_tree(contours@),
            i < contours@.len(),
            parents == parents_of(contours@),
            n == contours@.len(),
            n <= usize::MAX,
            p == child_of(parents, i as int),
            contours@[i as int].children@ == listed(p, n),
            seen <= n,
            k <= listed(p, n).len(),
            listed(p, seen) == listed(p, n).take(k as int),
            out@ == start + below(parents, i as int, seen),
            forall|t: int| 0 <= t < listed(p, n).len() ==> #[trigger] listed(p, n)[t] < n && p(
                listed(p, n)[t] as int,
            ),
        decreases listed(p, n).len() - k,
    {
        let ch = contours[i].children[k];
        proof {
            assert(p(listed(p, n)[k as int] as int));
            assert(parents[ch as int] == i);
            assert(-1 <= parents[ch as int] < ch);
            lemma_skip(parents, i as int, p, seen, ch as nat, k as nat);
        }
        out.push(ch);
        descend(contours, ch, out);
        proof {
            assert(out@ =~= start + below(parents, i as int, (ch + 1) as nat));
            seen = (ch + 1) as nat;
            assert(listed(p, seen) =~= listed(p, n).take(k + 1));
        }
        k += 1;
    }
    proof {
        assert(listed(p, n).take(k as int) =~= listed(p, n));
        lemma_rest(parents, i as int, p, seen, n);
    }
}

/// Between one child and the next nothing is listed.
proof fn lemma_skip(
    parents: Seq<int>,
    i: int,
    p: spec_fn(int) -> bool,
    seen: nat,
    ch: nat,
    k: nat,
)
    requires
        p == child_of(parents, i),
        parents.len() <= usize::MAX,
        seen <= parents.len(),
        k < listed(p, parents.len()).len(),
        listed(p, seen) == listed(p, parents.len()).take(k as int),
        ch == listed(p, parents.len())[k as int],
    ensures
        seen <= ch < parents.len(),
        below(parents, i, ch) == below(parents, i, seen),
        listed(p, ch) == listed(p, seen),
{
    let n = parents.len();
    lemma_listed(p, n);
    lemma_listed(p, seen);
    let all = listed(p, n);
    if ch < seen {
        assert(p(ch as int));
        let t = choose|t: int| 0 <= t < listed(p, seen).len() && listed(p, seen)[t] == ch as usize;
        assert(all.take(k as int)[t] == all[t]);
        assert(all[t] < all[k as int]);
    }
    assert forall|j: int| seen <= j < ch implies !#[trigger] p(j) by {
        if p(j) {
            let t = choose|t: int| 0 <= t < all.len() && all[t] == j as usize;
            if t < k {
                assert(all.take(k as int)[t] == all[t]);
                assert(listed(p, seen)[t] < seen);
            } else if t > k {
                assert(all[k as int] < all[t]);
            }
        }
    }
    lemma_none(parents, i, p, seen, ch);
}

/// Without children nothing is listed.
proof fn lemma_none(parents: Seq<int>, i: int, p: spec_fn(int) -> bool, a: nat, b: nat)
    requires
        p == child_of(parents, i),
        a <= b <= parents.len(),
        forall|j: int| a <= j < b ==> !#[trigger] p(j),
    ensures
        below(parents, i, b) == below(parents, i, a),
        listed(p, b) == listed(p, a),
    decreases b,
{
    if a < b {
        lemma_none(parents, i, p, a, (b - 1) as nat);
        assert(!p(b - 1));
    }
}

/// After the last child nothing is listed.
proof fn lemma_rest(parents: Seq<int>, i: int, p: spec_fn(int) -> bool, seen: nat, n: nat)
    requires
        p == child_of(parents, i),
        n == parents.len(),
        n <= usize::MAX,
        seen <= n,
        listed(p, seen) == listed(p, n),
    ensures
        below(parents, i, n) == below(parents, i, seen),
{
    lemma_listed(p, n);
    lemma_listed(p, seen);
    assert forall|j: int| seen <= j < n implies !#[trigger] p(j) by {
        if p(j) {
            let t = choose|t: int| 0 <= t < listed(p, n).len() && listed(p, n)[t] == j as usize;
            assert(listed(p, seen)[t] < seen);
        }
    }
    lemma_none(parents, i, p, seen, n);
}

/// Whether a contour lies inside a round one.
fn has_round_ancestor(contours: &Vec<Contour>, fits: &[Option<Fit>], i: usize) -> (b: bool)
    requires
        is_tree(contours@),
        fits@.len() == contours@.len(),
        i < contours@.len(),
    ensures
        b == inside_round(parents_of(contours@), fits@, i as int),
{
    let ghost parents = parents_of(contours@);
    let mut at: usize = i;
    assert(-1 <= parents[at as int] < at);
    let mut p: i32 = contours[at].parent;
    while p >= 0
        invariant
            is_tree(contours@),
            fits@.len() == contours@.len(),
            parents == parents_of(contours@),
            at < contours@.len(),
            p == parents[at as int],
            -1 <= p < at,
            inside_round(parents, fits@, i as int) == inside_round(parents, fits@, at as int),
        decreases p + 1,
    {
        let c = p as usize;
        if let Some(f) = fits[c] {
            if f.radius >= TAG_RADIUS {
                return true;
            }
        }
        at = c;
        assert(-1 <= parents[at as int] < at);
        p = contours[at].parent;
    }
    false
}

/// The candidates among the contours of an image, in the order of their outer
/// contours.
pub fn choose_candidates(contours: &Vec<Contour>, fits: &[Option<Fit>]) -> (r: Vec<Choice>)
    requires
        is_tree(contours@),
        fits@.len() == contours@.len(),
    ensures
        r@ == choices_of(parents_of(contours@), fits@, contours@.len()),
{
    let n = contours.len();
    let ghost parents = parents_of(contours@);
    let mut r: Vec<Choice> = Vec::new();
    let mut i: usize = 0;
    while i < n
        invariant
            is_tree(contours@),
            fits@.len() == contours@.len(),
            n == contours@.len(),
            parents == parents_of(contours@),
            i <= n,
            r@ == choices_of(parents, fits@, i as nat),
        decreases n - i,
    {
        if let Some(f) = fits[i] {
            if f.radius >= BULLSEYE_RADIUS && !has_round_ancestor(contours, fits, i) {
                let mut kids: Vec<usize> = Vec::new();
                descend(contours, i, &mut kids);
                assert(kids@ =~= inside(parents, i as int));
                proof {
                    lemma_below(parents, i as int, parents.len());
                }
                let (inner, alt) = pick(fits, &kids, f.most);
                if f.radius >= TAG_RADIUS {
                    r.push(Choice { outer: i, inner, alt, bullseye_only: false });
                } else if inner.is_none() {
                    r.push(Choice { outer: i, inner: None, alt: None, bullseye_only: true });
                }
            }
        }
        i += 1;
    }
    r
}

/// Contours inside another are contours.
proof fn lemma_below(parents: Seq<int>, i: int, k: nat)
    requires
        parents.len() <= usize::MAX,
    ensures
        forall|t: int|
            0 <= t < below(parents, i, k).len() ==> #[trigger] below(parents, i, k)[t]
                < parents.len(),
    decreases parents.len() - i, k,
{
    if k > 0 && k <= parents.len() {
        let before = below(parents, i, (k - 1) as nat);
        lemma_below(parents, i, (k - 1) as nat);
        if parents[k - 1] == i && i < k - 1 {
            let inner = below(parents, k - 1, parents.len());
            lemma_below(parents, k - 1, parents.len());
            let all = below(parents, i, k);
            assert forall|t: int| 0 <= t < all.len() implies #[trigger] all[t] < parents.len() by {
                if t < before.len() {
                    assert(all[t] == before[t]);
                } else if t > before.len() {
                    assert(all[t] == inner[t - before.len() - 1]);
                }
            }
        }
    }
}

/// The smallest and the largest of the fitted contours in a list, the latter
/// up to a radius.
fn pick(fits: &[Option<Fit>], list: &Vec<usize>, most: u64) -> (r: (Option<usize>, Option<usize>))
    requires
        forall|t: int| 0 <= t < list@.len() ==> #[trigger] list@[t] < fits@.len(),
    ensures
        r.0 == smallest(fits@, list@, list@.len()),
        r.1 == largest_within(fits@, list@, most, list@.len()),
{
    let mut low: Option<usize> = None;
    let mut high: Option<usize> = None;
    let mut low_r: u64 = 0;
    let mut high_r: u64 = 0;
    let mut m: usize = 0;
    while m < list.len()
        invariant
            forall|t: int| 0 <= t < list@.len() ==> #[trigger] list@[t] < fits@.len(),
            m <= list@.len(),
            low == smallest(fits@, list@, m as nat),
            high == largest_within(fits@, list@, most, m as nat),
            low matches Some(b) ==> (b < fits@.len() && (fits@[b as int] matches Some(f) && f.radius
                == low_r)),
            high matches Some(b) ==> (b < fits@.len() && (fits@[b as int] matches Some(f)
                && f.radius == high_r)),
        decreases list.len() - m,
    {
        let j = list[m];
        if let Some(f) = fits[j] {
            if low.is_none() || f.radius < low_r {
                low = Some(j);
                low_r = f.radius;
            }
            if f.radius <= most && (high.is_none() || f.radius > high_r) {
                high = Some(j);
                high_r = f.radius;
            }
        }
        m += 1;
    }
    (low, high)
}

/// Lists of what two conditions admit are the same where the conditions are.
proof fn lemma_listed_same(p: spec_fn(int) -> bool, q: spec_fn(int) -> bool, n: nat)
    requires
        forall|j: int| 0 <= j < n ==> p(j) == #[trigger] q(j),
    ensures
        listed(p, n) == listed(q, n),
    decreases n,
{
    if n > 0 {
        lemma_listed_same(p, q, (n - 1) as nat);
        assert(p(n - 1) == q(n - 1));
    }
}

/// The contours of an image form a tree.
pub proof fn law_contours_form_tree(g: &Gray, contours: Seq<Contour>)
    requires
        traceable(g),
        trace_all(contours, borders_of(g)),
        forall|i: int|
            0 <= i < contours.len() ==> (#[trigger] contours[i]).children@ == children_of(
                borders_of(g),
                i,
            ),
    ensures
        is_tree(contours),
{
    let borders = borders_of(g);
    let parents = parents_of(contours);
    assert forall|i: int| 0 <= i < contours.len() implies -1 <= #[trigger] parents[i] < i by {
        law_contours_nested(g, i);
        assert(contours[i].traces(borders[i]));
    }
    assert forall|i: int| 0 <= i < contours.len() implies (#[trigger] contours[i]).children@
        == listed(child_of(parents, i), contours.len()) by {
        let p = |j: int| borders[j].parent == i;
        let q = child_of(parents, i);
        assert forall|j: int| 0 <= j < borders.len() implies p(j) == #[trigger] q(j) by {
            assert(contours[j].traces(borders[j]));
        }
        lemma_listed_same(p, q, borders.len());
        assert(children_of(borders, i) == listed(p, borders.len()));
    }
}

/// A candidate's contour is round, and lies inside no other round contour.
pub proof fn law_choice_outermost(parents: Seq<int>, fits: Seq<Option<Fit>>, i: int)
    requires
        0 <= i < fits.len() <= usize::MAX,
    ensures
        choice_of(parents, fits, i) matches Some(c) ==> {
            &&& c.outer == i
            &&& fits[i] matches Some(f) && f.radius >= BULLSEYE_RADIUS
            &&& !inside_round(parents, fits, i)
            &&& c.bullseye_only <==> !is_round(fits, i)
        },
{
}

} // verus!
