//! What the choice of candidates guarantees, in terms of the tree of contours
//! alone.
use crate::select::{
    are_largest_apart, below, choice_of, choices_of, clashes_with, comes_before, inside,
    inside_round, is_ranking, kept_of, largest_within, law_kept_apart, law_ranking_complete,
    smallest, Fit,
};
use vstd::prelude::*;

verus! {

/// Whether parents come before their children.
pub open spec fn parents_first(parents: Seq<int>) -> bool {
    forall|j: int| 0 <= j < parents.len() ==> -1 <= #[trigger] parents[j] < j
}

/// Whether contour `j` lies inside contour `i`, right away or further down.
pub open spec fn descends(parents: Seq<int>, j: int, i: int) -> bool
    decreases j,
{
    0 <= j < parents.len() && 0 <= parents[j] < j && (parents[j] == i || descends(
        parents,
        parents[j],
        i,
    ))
}

/// Whether a contour is another, or lies inside it.
pub open spec fn within(parents: Seq<int>, j: int, i: int) -> bool {
    j == i || descends(parents, j, i)
}

/// Whether contour `a` comes before contour `b` in the order of the tree: it is
/// around `b`, or somewhere they lie in different children of one contour, `a`
/// in the one with the smaller index.
pub open spec fn precedes(parents: Seq<int>, a: int, b: int) -> bool {
    descends(parents, b, a) || exists|c: int, d: int|
        #![trigger within(parents, a, c), within(parents, b, d)]
        0 <= c < d < parents.len() && parents[c] == parents[d] && within(parents, a, c) && within(
            parents,
            b,
            d,
        )
}

/// What is inside of what is inside is inside.
proof fn lemma_descends_transitive(parents: Seq<int>, k: int, j: int, i: int)
    requires
        descends(parents, k, j),
        descends(parents, j, i),
    ensures
        descends(parents, k, i),
    decreases k,
{
    if parents[k] != j {
        lemma_descends_transitive(parents, parents[k], j, i);
    }
}

/// The child in which a contour lies.
proof fn lemma_branch(parents: Seq<int>, j: int, i: int) -> (c: int)
    requires
        descends(parents, j, i),
    ensures
        i < c <= j,
        parents[c] == i,
        within(parents, j, c),
        0 <= c < parents.len(),
    decreases j,
{
    if parents[j] == i {
        j
    } else {
        lemma_branch(parents, parents[j], i)
    }
}

/// What is listed below a contour lies inside it, in a child that has been
/// passed.
proof fn lemma_below_descends(parents: Seq<int>, i: int, k: nat, t: int)
    requires
        parents.len() <= usize::MAX,
        parents_first(parents),
        0 <= i,
        0 <= t < below(parents, i, k).len(),
    ensures
        descends(parents, below(parents, i, k)[t] as int, i),
        exists|c: int|
            #![trigger within(parents, below(parents, i, k)[t] as int, c)]
            i < c < k && parents[c] == i && within(parents, below(parents, i, k)[t] as int, c),
    decreases parents.len() - i, k,
{
    let all = below(parents, i, k);
    let before = below(parents, i, (k - 1) as nat);
    if t < before.len() {
        lemma_below_descends(parents, i, (k - 1) as nat, t);
        assert(all[t] == before[t]);
        let c = choose|c: int|
            #![trigger within(parents, before[t] as int, c)]
            i < c < k - 1 && parents[c] == i && within(parents, before[t] as int, c);
        assert(within(parents, all[t] as int, c));
    } else if t == before.len() {
        assert(all[t] == (k - 1) as usize);
        assert(within(parents, all[t] as int, k - 1));
    } else {
        let inner = below(parents, k - 1, parents.len());
        let u = t - before.len() - 1;
        assert(all[t] == inner[u]);
        lemma_below_descends(parents, k - 1, parents.len(), u);
        lemma_descends_transitive(parents, inner[u] as int, k - 1, i);
        assert(within(parents, all[t] as int, k - 1));
    }
}

/// The lists of more children go on from those of fewer.
proof fn lemma_below_prefix(parents: Seq<int>, i: int, a: nat, b: nat)
    requires
        a <= b <= parents.len(),
    ensures
        below(parents, i, a).len() <= below(parents, i, b).len(),
        forall|t: int|
            0 <= t < below(parents, i, a).len() ==> below(parents, i, a)[t] == #[trigger] below(
                parents,
                i,
                b,
            )[t],
    decreases b,
{
    if a < b {
        lemma_below_prefix(parents, i, a, (b - 1) as nat);
    }
}

/// What lies inside a contour is listed below it.
proof fn lemma_descends_below(parents: Seq<int>, i: int, j: int) -> (t: int)
    requires
        parents.len() <= usize::MAX,
        parents_first(parents),
        0 <= i,
        descends(parents, j, i),
    ensures
        0 <= t < inside(parents, i).len(),
        inside(parents, i)[t] == j,
    decreases parents.len() - i,
{
    let n = parents.len();
    let c = lemma_branch(parents, j, i);
    let before = below(parents, i, c as nat);
    let upto = below(parents, i, (c + 1) as nat);
    lemma_below_prefix(parents, i, (c + 1) as nat, n);
    if j == c {
        assert(upto[before.len() as int] == j);
        before.len() as int
    } else {
        let u = lemma_descends_below(parents, c, j);
        assert(upto[before.len() + 1 + u] == j);
        before.len() + 1 + u
    }
}

/// The list of the contours inside a contour is in the order of the tree.
proof fn lemma_below_order(parents: Seq<int>, i: int, k: nat, s: int, t: int)
    requires
        parents.len() <= usize::MAX,
        parents_first(parents),
        0 <= i,
        0 <= s < t < below(parents, i, k).len(),
    ensures
        precedes(parents, below(parents, i, k)[s] as int, below(parents, i, k)[t] as int),
    decreases parents.len() - i, k,
{
    let all = below(parents, i, k);
    let before = below(parents, i, (k - 1) as nat);
    if t < before.len() {
        lemma_below_order(parents, i, (k - 1) as nat, s, t);
        assert(all[s] == before[s] && all[t] == before[t]);
    } else {
        let (a, b) = (all[s] as int, all[t] as int);
        let inner = below(parents, k - 1, parents.len());
        if t > before.len() {
            assert(b == inner[t - before.len() - 1]);
            lemma_below_descends(parents, k - 1, parents.len(), t - before.len() - 1);
        }
        assert(within(parents, b, k - 1));
        if s < before.len() {
            assert(a == before[s]);
            lemma_below_descends(parents, i, (k - 1) as nat, s);
            let c = choose|c: int|
                #![trigger within(parents, before[s] as int, c)]
                i < c < k - 1 && parents[c] == i && within(parents, before[s] as int, c);
            assert(within(parents, a, c));
        } else if s > before.len() {
            let (u, v) = (s - before.len() - 1, t - before.len() - 1);
            assert(a == inner[u] && b == inner[v]);
            lemma_below_order(parents, k - 1, parents.len(), u, v);
        }
    }
}

/// The contours listed inside a contour are those that have it among the
/// contours around them, in the order of the tree.
pub proof fn law_inside_lists_descendants(parents: Seq<int>, i: int)
    requires
        parents.len() <= usize::MAX,
        parents_first(parents),
        0 <= i < parents.len(),
    ensures
        forall|j: int|
            0 <= j < parents.len() ==> (#[trigger] descends(parents, j, i) <==> inside(
                parents,
                i,
            ).contains(j as usize)),
        forall|s: int, t: int|
            0 <= s < t < inside(parents, i).len() ==> precedes(
                parents,
                #[trigger] inside(parents, i)[s] as int,
                #[trigger] inside(parents, i)[t] as int,
            ),
{
    let list = inside(parents, i);
    assert forall|j: int| 0 <= j < parents.len() implies (#[trigger] descends(parents, j, i)
        <==> list.contains(j as usize)) by {
        if descends(parents, j, i) {
            let t = lemma_descends_below(parents, i, j);
            assert(list[t] == j as usize);
        }
        if list.contains(j as usize) {
            let t = choose|t: int| 0 <= t < list.len() && list[t] == j as usize;
            lemma_below_descends(parents, i, parents.len(), t);
        }
    }
    assert forall|s: int, t: int| 0 <= s < t < list.len() implies precedes(
        parents,
        #[trigger] list[s] as int,
        #[trigger] list[t] as int,
    ) by {
        lemma_below_order(parents, i, parents.len(), s, t);
    }
}

/// What the search for the smallest finds.
proof fn lemma_smallest(fits: Seq<Option<Fit>>, list: Seq<usize>, m: nat)
    requires
        m <= list.len(),
    ensures
        smallest(fits, list, m) is None <==> forall|t: int|
            0 <= t < m ==> fits[#[trigger] list[t] as int] is None,
        smallest(fits, list, m) matches Some(b) ==> exists|t: int|
            {
                &&& 0 <= t < m
                &&& #[trigger] list[t] == b
                &&& fits[b as int] is Some
                &&& forall|u: int|
                    0 <= u < m && fits[#[trigger] list[u] as int] is Some ==> {
                        &&& fits[b as int]->Some_0.radius <= fits[list[u] as int]->Some_0.radius
                        &&& u < t ==> fits[b as int]->Some_0.radius
                            < fits[list[u] as int]->Some_0.radius
                    }
            },
    decreases m,
{
    if m > 0 {
        lemma_smallest(fits, list, (m - 1) as nat);
        let best = smallest(fits, list, (m - 1) as nat);
        let now = smallest(fits, list, m);
        let j = list[m - 1];
        if now is Some && now == best {
            let b = best.unwrap();
            let t = choose|t: int|
                {
                    &&& 0 <= t < m - 1
                    &&& #[trigger] list[t] == b
                    &&& fits[b as int] is Some
                    &&& forall|u: int|
                        0 <= u < m - 1 && fits[#[trigger] list[u] as int] is Some ==> {
                            &&& fits[b as int]->Some_0.radius
                                <= fits[list[u] as int]->Some_0.radius
                            &&& u < t ==> fits[b as int]->Some_0.radius
                                < fits[list[u] as int]->Some_0.radius
                        }
                };
            assert(list[t] == b);
            if j == b {
                assert(list[t] == list[m - 1]);
            }
        } else if now is Some {
            assert(list[m - 1] == now.unwrap());
        }
        if now is None {
            assert(fits[list[m - 1] as int] is None);
        }
    }
}

/// What the search for the largest finds.
proof fn lemma_largest(fits: Seq<Option<Fit>>, list: Seq<usize>, most: u64, m: nat)
    requires
        m <= list.len(),
    ensures
        largest_within(fits, list, most, m) is None <==> forall|t: int|
            0 <= t < m ==> fits[#[trigger] list[t] as int] is None || fits[list[t] as int]->
            Some_0.radius > most,
        largest_within(fits, list, most, m) matches Some(b) ==> exists|t: int|
            {
                &&& 0 <= t < m
                &&& #[trigger] list[t] == b
                &&& fits[b as int] is Some
                &&& fits[b as int]->Some_0.radius <= most
                &&& forall|u: int|
                    0 <= u < m && fits[#[trigger] list[u] as int] is Some
                        && fits[list[u] as int]->Some_0.radius <= most ==> {
                        &&& fits[b as int]->Some_0.radius >= fits[list[u] as int]->Some_0.radius
                        &&& u < t ==> fits[b as int]->Some_0.radius
                            > fits[list[u] as int]->Some_0.radius
                    }
            },
    decreases m,
{
    if m > 0 {
        lemma_largest(fits, list, most, (m - 1) as nat);
        let best = largest_within(fits, list, most, (m - 1) as nat);
        let now = largest_within(fits, list, most, m);
        let j = list[m - 1];
        if now is Some && now == best {
            let b = best.unwrap();
            let t = choose|t: int|
                {
                    &&& 0 <= t < m - 1
                    &&& #[trigger] list[t] == b
                    &&& fits[b as int] is Some
                    &&& fits[b as int]->Some_0.radius <= most
                    &&& forall|u: int|
                        0 <= u < m - 1 && fits[#[trigger] list[u] as int] is Some
                            && fits[list[u] as int]->Some_0.radius <= most ==> {
                            &&& fits[b as int]->Some_0.radius
                                >= fits[list[u] as int]->Some_0.radius
                            &&& u < t ==> fits[b as int]->Some_0.radius
                                > fits[list[u] as int]->Some_0.radius
                        }
                };
            assert(list[t] == b);
        } else if now is Some {
            assert(list[m - 1] == now.unwrap());
        }
    }
}

/// The inner contour of a candidate is a fitted contour inside it, and none
/// inside it is smaller; of several as small, it is the first in the order of
/// the tree. It is missing exactly where no contour inside is fitted.
pub proof fn law_inner_is_smallest(parents: Seq<int>, fits: Seq<Option<Fit>>, i: int)
    requires
        parents.len() <= usize::MAX,
        parents_first(parents),
        fits.len() == parents.len(),
        0 <= i < parents.len(),
        choice_of(parents, fits, i) is Some,
    ensures
        match choice_of(parents, fits, i)->Some_0.inner {
            None => forall|k: int| #[trigger] descends(parents, k, i) ==> fits[k] is None,
            Some(j) => {
                &&& descends(parents, j as int, i)
                &&& fits[j as int] is Some
                &&& forall|k: int| #[trigger]
                    descends(parents, k, i) && fits[k] is Some ==> {
                        let (r, s) = (fits[j as int]->Some_0.radius, fits[k]->Some_0.radius);
                        r < s || (r == s && (k == j || precedes(parents, j as int, k)))
                    }
            },
        },
{
    let list = inside(parents, i);
    law_inside_lists_descendants(parents, i);
    lemma_smallest(fits, list, list.len());
    let inner = smallest(fits, list, list.len());
    assert(choice_of(parents, fits, i)->Some_0.inner == inner);
    match inner {
        None => {
            assert forall|k: int| #[trigger] descends(parents, k, i) implies fits[k] is None by {
                let u = lemma_descends_below(parents, i, k);
                assert(fits[list[u] as int] is None);
            }
        },
        Some(j) => {
            let t = choose|t: int|
                {
                    &&& 0 <= t < list.len()
                    &&& #[trigger] list[t] == j
                    &&& fits[j as int] is Some
                    &&& forall|u: int|
                        0 <= u < list.len() && fits[#[trigger] list[u] as int] is Some ==> {
                            &&& fits[j as int]->Some_0.radius
                                <= fits[list[u] as int]->Some_0.radius
                            &&& u < t ==> fits[j as int]->Some_0.radius
                                < fits[list[u] as int]->Some_0.radius
                        }
                };
            lemma_below_descends(parents, i, parents.len(), t);
            assert forall|k: int| #[trigger]
                descends(parents, k, i) && fits[k] is Some implies ({
                let (r, s) = (fits[j as int]->Some_0.radius, fits[k]->Some_0.radius);
                r < s || (r == s && (k == j || precedes(parents, j as int, k)))
            }) by {
                let u = lemma_descends_below(parents, i, k);
                assert(fits[list[u] as int] is Some);
                if t < u {
                    assert(precedes(parents, list[t] as int, list[u] as int));
                }
            }
        },
    }
}

/// The alternative contour of a candidate for a tag is a fitted contour inside
/// it that is not larger than nine tenths of it, and no larger one is; of
/// several as large, it is the first in the order of the tree. It is missing
/// exactly where there is none.
pub proof fn law_alternative_is_largest(parents: Seq<int>, fits: Seq<Option<Fit>>, i: int)
    requires
        parents.len() <= usize::MAX,
        parents_first(parents),
        fits.len() == parents.len(),
        0 <= i < parents.len(),
        choice_of(parents, fits, i) matches Some(c) && !c.bullseye_only,
    ensures
        ({
            let most = fits[i]->Some_0.most;
            match choice_of(parents, fits, i)->Some_0.alt {
                None => forall|k: int| #[trigger]
                    descends(parents, k, i) && fits[k] is Some ==> fits[k]->Some_0.radius > most,
                Some(j) => {
                    &&& descends(parents, j as int, i)
                    &&& fits[j as int] is Some
                    &&& fits[j as int]->Some_0.radius <= most
                    &&& forall|k: int| #[trigger]
                        descends(parents, k, i) && fits[k] is Some && fits[k]->Some_0.radius
                            <= most ==> {
                            let (r, s) = (fits[j as int]->Some_0.radius, fits[k]->Some_0.radius);
                            r > s || (r == s && (k == j || precedes(parents, j as int, k)))
                        }
                },
            }
        }),
{
    let list = inside(parents, i);
    let most = fits[i]->Some_0.most;
    law_inside_lists_descendants(parents, i);
    lemma_largest(fits, list, most, list.len());
    let alt = largest_within(fits, list, most, list.len());
    assert(choice_of(parents, fits, i)->Some_0.alt == alt);
    match alt {
        None => {
            assert forall|k: int| #[trigger]
                descends(parents, k, i) && fits[k] is Some implies fits[k]->Some_0.radius
                > most by {
                let u = lemma_descends_below(parents, i, k);
                assert(fits[list[u] as int] is Some);
            }
        },
        Some(j) => {
            let t = choose|t: int|
                {
                    &&& 0 <= t < list.len()
                    &&& #[trigger] list[t] == j
                    &&& fits[j as int] is Some
                    &&& fits[j as int]->Some_0.radius <= most
                    &&& forall|u: int|
                        0 <= u < list.len() && fits[#[trigger] list[u] as int] is Some
                            && fits[list[u] as int]->Some_0.radius <= most ==> {
                            &&& fits[j as int]->Some_0.radius
                                >= fits[list[u] as int]->Some_0.radius
                            &&& u < t ==> fits[j as int]->Some_0.radius
                                > fits[list[u] as int]->Some_0.radius
                        }
                };
            lemma_below_descends(parents, i, parents.len(), t);
            assert forall|k: int| #[trigger]
                descends(parents, k, i) && fits[k] is Some && fits[k]->Some_0.radius
                    <= most implies ({
                let (r, s) = (fits[j as int]->Some_0.radius, fits[k]->Some_0.radius);
                r > s || (r == s && (k == j || precedes(parents, j as int, k)))
            }) by {
                let u = lemma_descends_below(parents, i, k);
                assert(fits[list[u] as int] is Some);
                if t < u {
                    assert(precedes(parents, list[t] as int, list[u] as int));
                }
            }
        },
    }
}

/// Whether a contour is fitted with a radius of 8 or more.
pub open spec fn is_large(f: Option<Fit>) -> bool {
    f matches Some(o) && o.radius >= 0x4020_0000_0000_0000
}

/// A contour lies inside a round one if and only if one of those around it is
/// fitted with a radius of 8 or more.
proof fn lemma_inside_round(parents: Seq<int>, fits: Seq<Option<Fit>>, i: int)
    requires
        parents_first(parents),
        fits.len() == parents.len(),
        0 <= i < parents.len(),
    ensures
        inside_round(parents, fits, i) <==> exists|a: int| #[trigger]
            descends(parents, i, a) && is_large(fits[a]),
    decreases i,
{
    let p = parents[i];
    if p >= 0 {
        lemma_inside_round(parents, fits, p);
        assert(descends(parents, i, p));
        if exists|a: int| #[trigger]
            descends(parents, p, a) && is_large(fits[a]) {
            let a = choose|a: int| #[trigger]
                descends(parents, p, a) && is_large(fits[a]);
            assert(descends(parents, i, a));
        }
        if exists|a: int| #[trigger] descends(parents, i, a) && is_large(fits[a]) {
            let a = choose|a: int| #[trigger] descends(parents, i, a) && is_large(fits[a]);
            assert(a == p || descends(parents, p, a));
        }
    }
}

/// A contour is a candidate if and only if it is fitted, no contour around it
/// has a radius of 8 or more, and its own is 8 or more, or 4 or more with no
/// fitted contour inside; in the latter case it may only be a bullseye.
pub proof fn law_candidates(parents: Seq<int>, fits: Seq<Option<Fit>>, i: int)
    requires
        parents.len() <= usize::MAX,
        parents_first(parents),
        fits.len() == parents.len(),
        0 <= i < parents.len(),
    ensures
        choice_of(parents, fits, i) is Some <==> (fits[i] matches Some(f) && {
            &&& forall|a: int| #[trigger]
                descends(parents, i, a) ==> !is_large(fits[a])
            &&& f.radius >= 0x4020_0000_0000_0000 || (f.radius >= 0x4010_0000_0000_0000
                && forall|k: int| #[trigger] descends(parents, k, i) ==> fits[k] is None)
        }),
        choice_of(parents, fits, i) matches Some(c) ==> {
            &&& c.outer == i
            &&& c.bullseye_only <==> fits[i]->Some_0.radius < 0x4020_0000_0000_0000
        },
{
    let list = inside(parents, i);
    lemma_inside_round(parents, fits, i);
    law_inside_lists_descendants(parents, i);
    lemma_smallest(fits, list, list.len());
    if forall|k: int| #[trigger] descends(parents, k, i) ==> fits[k] is None {
        assert forall|t: int| 0 <= t < list.len() implies fits[#[trigger] list[t] as int] is None by {
            lemma_below_descends(parents, i, parents.len(), t);
        }
    }
    if smallest(fits, list, list.len()) is None {
        assert forall|k: int| #[trigger] descends(parents, k, i) implies fits[k] is None by {
            let u = lemma_descends_below(parents, i, k);
            assert(fits[list[u] as int] is None);
        }
    }
}

/// Every candidate is listed, once, in the order of the outer contours, and
/// nothing else is.
pub proof fn law_candidates_listed(parents: Seq<int>, fits: Seq<Option<Fit>>, n: nat)
    requires
        n <= parents.len() <= usize::MAX,
        fits.len() == parents.len(),
    ensures
        forall|t: int|
            0 <= t < choices_of(parents, fits, n).len() ==> {
                let c = #[trigger] choices_of(parents, fits, n)[t];
                c.outer < n && choice_of(parents, fits, c.outer as int) == Some(c)
            },
        forall|t: int, u: int|
            0 <= t < u < choices_of(parents, fits, n).len() ==> (#[trigger] choices_of(
                parents,
                fits,
                n,
            )[t]).outer < (#[trigger] choices_of(parents, fits, n)[u]).outer,
        forall|i: int|
            0 <= i < n && (#[trigger] choice_of(parents, fits, i)) is Some ==> choices_of(
                parents,
                fits,
                n,
            ).contains(choice_of(parents, fits, i)->Some_0),
    decreases n,
{
    if n > 0 {
        law_candidates_listed(parents, fits, (n - 1) as nat);
        let before = choices_of(parents, fits, (n - 1) as nat);
        let all = choices_of(parents, fits, n);
        assert forall|i: int|
            0 <= i < n && (#[trigger] choice_of(parents, fits, i)) is Some implies all.contains(
            choice_of(parents, fits, i)->Some_0,
        ) by {
            let c = choice_of(parents, fits, i)->Some_0;
            if i < n - 1 {
                let t = choose|t: int| 0 <= t < before.len() && before[t] == c;
                assert(all[t] == c);
            } else {
                assert(all[before.len() as int] == c);
            }
        }
    }
}

/// A ranking goes from the largest to the smallest key, and lists equal ones by
/// index.
pub proof fn law_ranking_descends(keys: Seq<u128>, order: Seq<usize>, a: int, b: int)
    requires
        is_ranking(keys, order),
        0 <= a < b < order.len(),
    ensures
        keys[order[a] as int] >= keys[order[b] as int],
        keys[order[a] as int] == keys[order[b] as int] ==> order[a] < order[b],
{
    let (i, j) = (order[a] as int, order[b] as int);
}

/// An item is dropped exactly for a clash with one that comes before it in the
/// order and is kept; the first is always kept.
pub proof fn law_kept_unless_clash(order: Seq<usize>, clash: Seq<bool>, n: int, m: nat, t: int)
    requires
        0 <= t < m <= order.len(),
        forall|a: int, b: int|
            0 <= a < b < order.len() ==> #[trigger] order[a] != #[trigger] order[b],
    ensures
        kept_of(order, clash, n, m).contains(order[t]) <==> forall|u: int|
            0 <= u < t && kept_of(order, clash, n, m).contains(#[trigger] order[u]) ==> !clash[
            order[t] * n + order[u]],
{
    let now = kept_of(order, clash, n, t as nat);
    let all = kept_of(order, clash, n, m);
    lemma_kept_of(order, clash, n, m);
    lemma_kept_on(order, clash, n, t as nat, m);
    lemma_kept_on(order, clash, n, (t + 1) as nat, m);
    lemma_kept_of(order, clash, n, t as nat);
    lemma_kept_of(order, clash, n, (t + 1) as nat);
    let then = kept_of(order, clash, n, (t + 1) as nat);
    if clashes_with(clash, n, order[t] as int, now) {
        let k = choose|k: int| 0 <= k < now.len() && clash[order[t] * n + #[trigger] now[k]];
        let u = choose|u: int| 0 <= u < t && #[trigger] order[u] == now[k];
        assert(now.contains(order[u]));
        assert(all.contains(order[u]));
        if all.contains(order[t]) {
            assert(then.contains(order[t]));
            let v = choose|v: int| 0 <= v < then.len() && then[v] == order[t];
            let w = choose|w: int| 0 <= w < t && #[trigger] order[w] == now[v];
        }
    } else {
        assert(then[now.len() as int] == order[t]);
        assert(then.contains(order[t]));
        assert forall|u: int| 0 <= u < t && all.contains(#[trigger] order[u]) implies !clash[
        order[t] * n + order[u]] by {
            assert(now.contains(order[u]));
            let k = choose|k: int| 0 <= k < now.len() && now[k] == order[u];
            assert(!clash[order[t] * n + now[k]]);
        }
    }
}

/// What is kept is in the order.
proof fn lemma_kept_of(order: Seq<usize>, clash: Seq<bool>, n: int, m: nat)
    requires
        m <= order.len(),
    ensures
        forall|k: int|
            0 <= k < kept_of(order, clash, n, m).len() ==> exists|u: int|
                0 <= u < m && #[trigger] order[u] == #[trigger] kept_of(order, clash, n, m)[k],
    decreases m,
{
    if m > 0 {
        lemma_kept_of(order, clash, n, (m - 1) as nat);
        let before = kept_of(order, clash, n, (m - 1) as nat);
        let all = kept_of(order, clash, n, m);
        assert forall|k: int| 0 <= k < all.len() implies exists|u: int|
            0 <= u < m && #[trigger] order[u] == #[trigger] all[k] by {
            if k < before.len() {
                let u = choose|u: int| 0 <= u < m - 1 && #[trigger] order[u] == before[k];
                assert(order[u] == all[k]);
            } else {
                assert(order[m - 1] == all[k]);
            }
        }
    }
}

/// Whether one of the first items is kept does not depend on those after it.
proof fn lemma_kept_on(order: Seq<usize>, clash: Seq<bool>, n: int, a: nat, m: nat)
    requires
        a <= m <= order.len(),
        forall|i: int, j: int|
            0 <= i < j < order.len() ==> #[trigger] order[i] != #[trigger] order[j],
    ensures
        forall|u: int|
            0 <= u < a ==> (kept_of(order, clash, n, m).contains(#[trigger] order[u]) <==> kept_of(
                order,
                clash,
                n,
                a,
            ).contains(order[u])),
    decreases m,
{
    if a < m {
        lemma_kept_on(order, clash, n, a, (m - 1) as nat);
        let before = kept_of(order, clash, n, (m - 1) as nat);
        let all = kept_of(order, clash, n, m);
        assert forall|u: int| 0 <= u < a implies (all.contains(#[trigger] order[u])
            <==> before.contains(order[u])) by {
            if before.contains(order[u]) {
                let k = choose|k: int| 0 <= k < before.len() && before[k] == order[u];
                assert(all[k] == order[u]);
            }
            if all.contains(order[u]) {
                let k = choose|k: int| 0 <= k < all.len() && all[k] == order[u];
                assert(order[u] != order[m - 1]);
                assert(before[k] == order[u]);
            }
        }
    }
}

/// Where a key belongs in a list of items with falling keys.
proof fn lemma_place_for(keys: Seq<u128>, order: Seq<usize>, key: u128, k: int) -> (p: int)
    requires
        0 <= k <= order.len(),
        forall|a: int| 0 <= a < k ==> keys[#[trigger] order[a] as int] >= key,
    ensures
        0 <= p <= order.len(),
        forall|a: int| 0 <= a < p ==> keys[#[trigger] order[a] as int] >= key,
        p < order.len() ==> keys[order[p] as int] < key,
    decreases order.len() - k,
{
    if k == order.len() || keys[order[k] as int] < key {
        k
    } else {
        lemma_place_for(keys, order, key, k + 1)
    }
}

/// Whether the first `m` items are listed from the largest to the smallest.
spec fn ranks_first(keys: Seq<u128>, order: Seq<usize>, m: nat) -> bool {
    &&& order.len() == m
    &&& forall|a: int| 0 <= a < m ==> #[trigger] order[a] < m
    &&& forall|a: int, b: int|
        0 <= a < b < m ==> comes_before(
            keys,
            #[trigger] order[a] as int,
            #[trigger] order[b] as int,
        )
}

/// Items can be ranked.
proof fn lemma_ranking_exists(keys: Seq<u128>, m: nat) -> (order: Seq<usize>)
    requires
        m <= keys.len() <= usize::MAX,
    ensures
        ranks_first(keys, order, m),
    decreases m,
{
    if m == 0 {
        seq![]
    } else {
        let i = m - 1;
        let before = lemma_ranking_exists(keys, i as nat);
        let p = lemma_place_for(keys, before, keys[i], 0);
        let order = before.insert(p, i as usize);
        assert forall|a: int, b: int| 0 <= a < b < m implies comes_before(
            keys,
            #[trigger] order[a] as int,
            #[trigger] order[b] as int,
        ) by {
            if b == p {
                assert(order[a] == before[a]);
            } else if a == p {
                assert(order[b] == before[b - 1]);
                if p < b - 1 {
                    assert(comes_before(keys, before[p] as int, before[b - 1] as int));
                }
            } else {
                let (u, v) = (
                    if a < p {
                        a
                    } else {
                        a - 1
                    },
                    if b < p {
                        b
                    } else {
                        b - 1
                    },
                );
                assert(order[a] == before[u] && order[b] == before[v]);
            }
        }
        assert forall|a: int| 0 <= a < m implies #[trigger] order[a] < m by {
            if a != p {
                assert(order[a] == before[if a < p {
                    a
                } else {
                    a - 1
                }]);
            }
        }
        order
    }
}

/// What is kept is ranked.
proof fn lemma_kept_ranked(
    keys: Seq<u128>,
    order: Seq<usize>,
    clash: Seq<bool>,
    n: int,
    m: nat,
)
    requires
        is_ranking(keys, order),
        m <= order.len(),
    ensures
        forall|a: int, b: int|
            0 <= a < b < kept_of(order, clash, n, m).len() ==> comes_before(
                keys,
                #[trigger] kept_of(order, clash, n, m)[a] as int,
                #[trigger] kept_of(order, clash, n, m)[b] as int,
            ),
    decreases m,
{
    if m > 0 {
        lemma_kept_ranked(keys, order, clash, n, (m - 1) as nat);
        lemma_kept_of(order, clash, n, (m - 1) as nat);
        let before = kept_of(order, clash, n, (m - 1) as nat);
        let all = kept_of(order, clash, n, m);
        assert forall|a: int, b: int| 0 <= a < b < all.len() implies comes_before(
            keys,
            #[trigger] all[a] as int,
            #[trigger] all[b] as int,
        ) by {
            assert(all[a] == before[a]);
            if b < before.len() {
                assert(all[b] == before[b]);
            } else {
                let u = choose|u: int| 0 <= u < m - 1 && #[trigger] order[u] == before[a];
                assert(all[b] == order[m - 1]);
                assert(comes_before(keys, order[u] as int, order[m - 1] as int));
            }
        }
    }
}

/// Of items that may clash, those kept are listed from the largest to the
/// smallest, equal ones by index, and at most as many as the limit. No item
/// that is kept clashes with one before it.
pub proof fn law_largest_kept(
    keys: Seq<u128>,
    clash: Seq<bool>,
    limit: int,
    kept: Seq<usize>,
    a: int,
    b: int,
)
    requires
        keys.len() <= usize::MAX,
        limit >= 0,
        are_largest_apart(keys, clash, limit, kept),
        0 <= a < b < kept.len(),
    ensures
        kept.len() <= limit,
        kept[b] < keys.len(),
        keys[kept[a] as int] > keys[kept[b] as int] || (keys[kept[a] as int] == keys[kept[b] as int]
            && kept[a] < kept[b]),
        !clash[kept[b] * keys.len() + kept[a]],
{
    let n = keys.len() as int;
    let order = lemma_ranking_exists(keys, keys.len());
    assert(is_ranking(keys, order));
    let all = kept_of(order, clash, n, order.len());
    lemma_kept_ranked(keys, order, clash, n, order.len());
    law_kept_apart(order, clash, n, order.len());
    lemma_kept_of(order, clash, n, order.len());
    assert(kept[a] == all[a] && kept[b] == all[b]);
    let u = choose|u: int| 0 <= u < order.len() && #[trigger] order[u] == all[b];
}

/// An item that is not kept clashes with a larger one that is, or one as large
/// and with a smaller index; or there are as many as the limit admits, and all
/// of them are such.
pub proof fn law_largest_dropped(
    keys: Seq<u128>,
    clash: Seq<bool>,
    limit: int,
    kept: Seq<usize>,
    i: int,
)
    requires
        keys.len() <= usize::MAX,
        limit >= 0,
        are_largest_apart(keys, clash, limit, kept),
        0 <= i < keys.len(),
        !kept.contains(i as usize),
    ensures
        (exists|a: int|
            0 <= a < kept.len() && (keys[#[trigger] kept[a] as int] > keys[i] || (keys[kept[a] as int]
                == keys[i] && kept[a] < i)) && clash[i * keys.len() + kept[a]]) || (kept.len()
            == limit && forall|a: int|
            0 <= a < kept.len() ==> keys[#[trigger] kept[a] as int] > keys[i] || (keys[kept[
            a] as int] == keys[i] && kept[a] < i)),
{
    let n = keys.len() as int;
    let order = lemma_ranking_exists(keys, keys.len());
    assert(is_ranking(keys, order));
    let m = order.len();
    let all = kept_of(order, clash, n, m);
    lemma_kept_ranked(keys, order, clash, n, m);
    law_ranking_complete(keys, order, i);
    let t = choose|t: int| 0 <= t < order.len() && order[t] == i as usize;
    assert forall|a: int, b: int| 0 <= a < b < order.len() implies #[trigger] order[a]
        != #[trigger] order[b] by {
        assert(comes_before(keys, order[a] as int, order[b] as int));
    }
    law_kept_unless_clash(order, clash, n, m, t);
    if all.contains(i as usize) {
        let c = choose|c: int| 0 <= c < all.len() && all[c] == i as usize;
        if c < kept.len() {
            assert(kept[c] == i as usize);
        }
        assert forall|a: int| 0 <= a < kept.len() implies comes_before(
            keys,
            #[trigger] kept[a] as int,
            i,
        ) by {
            assert(kept[a] == all[a]);
            assert(comes_before(keys, all[a] as int, all[c] as int));
        }
    } else {
        let u = choose|u: int|
            0 <= u < t && all.contains(#[trigger] order[u]) && clash[order[t] * n + order[u]];
        assert(comes_before(keys, order[u] as int, order[t] as int));
        let c = choose|c: int| 0 <= c < all.len() && all[c] == order[u];
        if c < kept.len() {
            assert(kept[c] == order[u]);
        } else {
            assert forall|a: int| 0 <= a < kept.len() implies comes_before(
                keys,
                #[trigger] kept[a] as int,
                i,
            ) by {
                assert(kept[a] == all[a]);
                assert(comes_before(keys, all[a] as int, all[c] as int));
            }
        }
    }
}

} // verus!
