//! Ranking, keeping apart and choosing candidates.
use simittag::contours::{find_contours, Contour};
use simittag::image::Gray;
use simittag::pairing::{pair_up, same_tree, Gate, SHOWN};
use simittag::select::{
    choose_candidates, keep_apart, largest_apart, ranked, Choice, Fit, BULLSEYE_RADIUS,
    MAX_CANDIDATES, TAG_RADIUS,
};

#[test]
fn ranking_is_stable() {
    assert_eq!(ranked(&[5, 9, 5, 7, 9]), [1, 4, 3, 0, 2]);
    assert!(ranked(&[]).is_empty());
    let keys: Vec<u128> = (0..200).map(|i| (i * 7919) % 31).collect();
    let order = ranked(&keys);
    let mut seen = order.clone();
    seen.sort();
    assert_eq!(seen, (0..200).collect::<Vec<usize>>());
    for w in order.windows(2) {
        assert!(keys[w[0]] > keys[w[1]] || (keys[w[0]] == keys[w[1]] && w[0] < w[1]));
    }
}

#[test]
fn clashing_items_are_dropped() {
    // item 1 clashes with item 0, item 2 only with item 1
    let n = 3;
    let mut clash = vec![false; 9];
    clash[n] = true;
    clash[2 * n + 1] = true;
    assert_eq!(keep_apart(&[0, 1, 2], &clash, n, 10), [0, 2]);
    assert_eq!(keep_apart(&[1, 0, 2], &clash, n, 10), [1, 0]);
    assert_eq!(keep_apart(&[0, 1, 2], &clash, n, 1), [0]);
    assert_eq!(largest_apart(&[1, 2, 3], &clash, 10), [2, 1, 0]);
    assert_eq!(largest_apart(&[3, 2, 1], &clash, 10), [0, 2]);
    assert_eq!(MAX_CANDIDATES, 512);
}

fn fit(radius: f64) -> Option<Fit> {
    Some(Fit { radius: radius.to_bits(), most: (0.9 * radius).to_bits() })
}

fn nested(levels: usize) -> Vec<Contour> {
    // concentric square rings
    let n = 4 * levels + 1;
    let mut g = Gray::new(n, n);
    for y in 0..n {
        for x in 0..n {
            let d = x.min(y).min(n - 1 - x).min(n - 1 - y);
            g.px[y * n + x] = if d % 2 == 0 { 255 } else { 0 };
        }
    }
    find_contours(&g)
}

fn parts(c: &Choice) -> (usize, Option<usize>, Option<usize>, bool) {
    (c.outer, c.inner, c.alt, c.bullseye_only)
}

#[test]
fn radius_keys() {
    assert_eq!(f64::from_bits(TAG_RADIUS), 8.0);
    assert_eq!(f64::from_bits(BULLSEYE_RADIUS), 4.0);
}

#[test]
fn outermost_contour_is_the_candidate() {
    let c = nested(2);
    assert_eq!(c.len(), 5);
    let fits = [fit(50.0), fit(48.0), fit(30.0), None, fit(11.0)];
    let got = choose_candidates(&c, &fits);
    assert_eq!(got.len(), 1);
    // the smallest inside, and the largest of at most nine tenths
    assert_eq!(parts(&got[0]), (0, Some(4), Some(2), false));
}

#[test]
fn unfit_outer_contour_is_passed_over() {
    let c = nested(2);
    let fits = [None, fit(7.9), fit(30.0), None, fit(11.0)];
    let got = choose_candidates(&c, &fits);
    assert_eq!(got.len(), 1);
    assert_eq!(parts(&got[0]), (2, Some(4), Some(4), false));
}

#[test]
fn small_lone_disk_is_a_bullseye() {
    let c = nested(0);
    assert_eq!(c.len(), 1);
    assert_eq!(parts(&choose_candidates(&c, &[fit(5.0)])[0]), (0, None, None, true));
    assert_eq!(parts(&choose_candidates(&c, &[fit(4.0)])[0]), (0, None, None, true));
    assert!(choose_candidates(&c, &[fit(3.9)]).is_empty());
    assert_eq!(parts(&choose_candidates(&c, &[fit(8.0)])[0]), (0, None, None, false));
    assert!(choose_candidates(&c, &[None]).is_empty());
}

#[test]
fn pairing_in_any_order() {
    // two found, two expected; the first suits both, the second only the first
    assert_eq!(pair_up(&[false, true, true, false], 2, 2), Ok(vec![1, 0]));
    assert_eq!(pair_up(&[true, true, true, false], 2, 2), Err(1));
    assert_eq!(pair_up(&[], 0, 0), Ok(vec![]));
    assert_eq!(pair_up(&[false, false], 1, 2), Err(0));
}

#[test]
fn pairing_keeps_trees() {
    // found: 0 is the parent of 1; expected: 1 is the parent of 0
    assert!(same_tree(&[-1, 0], &[1, 0], &[1, -1]));
    assert!(!same_tree(&[-1, 0], &[0, 1], &[1, -1]));
    assert!(same_tree(&[], &[], &[]));
}

#[test]
fn tally() {
    let mut g = Gate::new("cells");
    assert!(!g.check(true));
    assert!(g.passed());
    for _ in 0..SHOWN {
        assert!(g.check(false));
    }
    assert!(!g.check(false));
    assert_eq!((g.name, g.pass, g.fail), ("cells", 1, 11));
    assert!(!g.passed());
}
