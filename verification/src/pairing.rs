//! Matching what was found with what was expected, in any order, and keeping
//! the tally of comparisons.
use vstd::prelude::*;

verus! {

/// The first expected item from `w` on that suits found item `g` and is not
/// taken; `want` if there is none.
pub open spec fn partner_from(
    suits: Seq<bool>,
    want: int,
    taken: Seq<usize>,
    g: int,
    w: int,
) -> int
    decreases want - w,
{
    if w >= want || (suits[g * want + w] && !taken.contains(w as usize)) {
        w
    } else {
        partner_from(suits, want, taken, g, w + 1)
    }
}

/// The partners of the first `m` found items, each the first expected item
/// that suits it and is not taken; or the first found item without a partner.
pub open spec fn partners(suits: Seq<bool>, want: int, m: nat) -> Result<Seq<usize>, int>
    decreases m,
{
    if m == 0 {
        Ok(seq![])
    } else {
        match partners(suits, want, (m - 1) as nat) {
            Err(g) => Err(g),
            Ok(taken) => {
                let w = partner_from(suits, want, taken, m - 1, 0);
                if w < want {
                    Ok(taken.push(w as usize))
                } else {
                    Err(m - 1)
                }
            },
        }
    }
}

/// Pairs each found item with an expected one, in the order of both.
/// `suits[g * want + w]` says whether expected item `w` suits found item `g`.
/// Fails with the first found item that is left without a partner.
pub fn pair_up(suits: &[bool], got: usize, want: usize) -> (r: Result<Vec<usize>, usize>)
    requires
        suits@.len() == got * want,
    ensures
        match r {
            Ok(p) => partners(suits@, want as int, got as nat) == Ok::<Seq<usize>, int>(p@),
            Err(g) => partners(suits@, want as int, got as nat) == Err::<Seq<usize>, int>(
                g as int,
            ),
        },
{
    let len = suits.len();
    let mut taken: Vec<usize> = Vec::new();
    let mut g: usize = 0;
    assert(taken@ =~= seq![]);
    while g < got
        invariant
            len == suits@.len(),
            len == got * want,
            g <= got,
            partners(suits@, want as int, g as nat) == Ok::<Seq<usize>, int>(taken@),
        decreases got - g,
    {
        let mut w: usize = 0;
        let mut found = false;
        while w < want && !found
            invariant
                len == suits@.len(),
                len == got * want,
                g < got,
                w <= want,
                found ==> w < want && suits@[g * want + w] && !taken@.contains(w),
                partner_from(suits@, want as int, taken@, g as int, 0) == partner_from(
                    suits@,
                    want as int,
                    taken@,
                    g as int,
                    w as int,
                ),
            decreases want - w + (if found {
                0int
            } else {
                1
            }),
        {
            assert(g * want + w < got * want && 0 <= g * want) by (nonlinear_arith)
                requires
                    g < got,
                    w < want,
            ;
            if suits[g * want + w] && !is_taken(&taken, w) {
                found = true;
            } else {
                w += 1;
            }
        }
        if !found {
            proof {
                lemma_failed(suits@, want as int, (g + 1) as nat, got as nat);
            }
            return Err(g);
        }
        taken.push(w);
        g += 1;
    }
    Ok(taken)
}

/// A failure remains one.
proof fn lemma_failed(suits: Seq<bool>, want: int, a: nat, b: nat)
    requires
        a <= b,
        partners(suits, want, a) is Err,
    ensures
        partners(suits, want, b) == partners(suits, want, a),
    decreases b,
{
    if a < b {
        lemma_failed(suits, want, a, (b - 1) as nat);
    }
}

/// Whether a number is in a list.
fn is_taken(list: &Vec<usize>, w: usize) -> (b: bool)
    ensures
        b == list@.contains(w),
{
    let mut i: usize = 0;
    while i < list.len()
        invariant
            i <= list@.len(),
            forall|k: int| 0 <= k < i ==> #[trigger] list@[k] != w,
        decreases list.len() - i,
    {
        if list[i] == w {
            assert(list@[i as int] == w);
            return true;
        }
        i += 1;
    }
    false
}

/// A pairing pairs each found item with an expected item that suits it, and no
/// expected item twice.
pub proof fn law_pairing_suits(suits: Seq<bool>, want: int, m: nat)
    requires
        0 <= want <= usize::MAX,
    ensures
        partners(suits, want, m) matches Ok(p) ==> {
            &&& p.len() == m
            &&& forall|g: int|
                0 <= g < m ==> #[trigger] p[g] < want && suits[g * want + p[g]]
            &&& forall|g: int, h: int| 0 <= g < h < m ==> #[trigger] p[g] != #[trigger] p[h]
        },
    decreases m,
{
    if m > 0 {
        law_pairing_suits(suits, want, (m - 1) as nat);
        if let Ok(taken) = partners(suits, want, (m - 1) as nat) {
            lemma_partner(suits, want, taken, m - 1, 0);
            if let Ok(p) = partners(suits, want, m) {
                assert forall|g: int, h: int| 0 <= g < h < m implies #[trigger] p[g]
                    != #[trigger] p[h] by {
                    if h == m - 1 {
                        assert(taken[g] == p[g]);
                        assert(taken.contains(taken[g]));
                    }
                }
            }
        }
    }
}

/// What the search for a partner finds.
proof fn lemma_partner(suits: Seq<bool>, want: int, taken: Seq<usize>, g: int, w: int)
    requires
        0 <= w,
    ensures
        ({
            let p = partner_from(suits, want, taken, g, w);
            &&& p >= w
            &&& p < want ==> suits[g * want + p] && !taken.contains(p as usize)
            &&& forall|v: int|
                w <= v < p && v < want ==> taken.contains(v as usize) || !#[trigger] suits[g * want
                    + v]
        }),
    decreases want - w,
{
    if w < want && !(suits[g * want + w] && !taken.contains(w as usize)) {
        lemma_partner(suits, want, taken, g, w + 1);
    }
}

/// Each found item takes the first expected item that suits it and that none
/// before it has taken.
pub proof fn law_pairing_takes_first(suits: Seq<bool>, want: int, m: nat, g: int, w: int)
    requires
        0 <= want <= usize::MAX,
        partners(suits, want, m) is Ok,
        0 <= g < m,
        0 <= w < partners(suits, want, m)->Ok_0[g],
        suits[g * want + w],
    ensures
        exists|h: int| 0 <= h < g && #[trigger] partners(suits, want, m)->Ok_0[h] == w,
    decreases m,
{
    let before = partners(suits, want, (m - 1) as nat);
    let taken = before->Ok_0;
    let p = partners(suits, want, m)->Ok_0;
    law_pairing_suits(suits, want, (m - 1) as nat);
    law_pairing_suits(suits, want, m);
    if g < m - 1 {
        assert(p[g] == taken[g]);
        law_pairing_takes_first(suits, want, (m - 1) as nat, g, w);
        let h = choose|h: int| 0 <= h < g && #[trigger] taken[h] == w;
        assert(p[h] == w);
    } else {
        lemma_partner(suits, want, taken, m - 1, 0);
        assert(taken.contains(w as usize));
        let h = choose|h: int| 0 <= h < taken.len() && taken[h] == w as usize;
        assert(p[h] == w);
    }
}

/// Pairing fails at the first found item all of whose suitable expected items
/// have been taken by those before it.
pub proof fn law_pairing_fails(suits: Seq<bool>, want: int, m: nat)
    requires
        0 <= want <= usize::MAX,
        partners(suits, want, m) is Err,
    ensures
        ({
            let g = partners(suits, want, m)->Err_0;
            &&& 0 <= g < m
            &&& partners(suits, want, g as nat) is Ok
            &&& forall|w: int|
                0 <= w < want && #[trigger] suits[g * want + w] ==> partners(
                    suits,
                    want,
                    g as nat,
                )->Ok_0.contains(w as usize)
        }),
    decreases m,
{
    match partners(suits, want, (m - 1) as nat) {
        Err(_) => law_pairing_fails(suits, want, (m - 1) as nat),
        Ok(taken) => lemma_partner(suits, want, taken, m - 1, 0),
    }
}

/// The expected item that the parent of a found item is paired with, or -1
/// where the found item has no parent.
pub open spec fn parent_partner(parents: Seq<i32>, partner: Seq<usize>, g: int) -> int {
    if parents[g] >= 0 {
        partner[parents[g] as int] as int
    } else {
        -1
    }
}

/// Whether pairing found items with expected ones keeps who is whose parent.
/// Parents are given by index, and -1 stands for none.
pub fn same_tree(parents: &[i32], partner: &[usize], expected: &[i64]) -> (b: bool)
    requires
        partner@.len() == parents@.len(),
        forall|g: int| 0 <= g < parents@.len() ==> #[trigger] parents@[g] < parents@.len(),
        forall|g: int| 0 <= g < partner@.len() ==> #[trigger] partner@[g] < expected@.len(),
        expected@.len() <= i64::MAX,
    ensures
        b == (forall|g: int|
            0 <= g < parents@.len() ==> #[trigger] parent_partner(parents@, partner@, g)
                == expected@[partner@[g] as int]),
{
    let n = parents.len();
    let mut g: usize = 0;
    while g < n
        invariant
            n == parents@.len(),
            g <= n,
            partner@.len() == n,
            forall|k: int| 0 <= k < n ==> #[trigger] parents@[k] < n,
            forall|k: int| 0 <= k < n ==> #[trigger] partner@[k] < expected@.len(),
            expected@.len() <= i64::MAX,
            forall|k: int|
                0 <= k < g ==> #[trigger] parent_partner(parents@, partner@, k)
                    == expected@[partner@[k] as int],
        decreases n - g,
    {
        let p: i64 = if parents[g] >= 0 {
            partner[parents[g] as usize] as i64
        } else {
            -1
        };
        assert(p == parent_partner(parents@, partner@, g as int));
        if p != expected[partner[g]] {
            return false;
        }
        g += 1;
    }
    true
}

/// The most failures that are shown.
pub const SHOWN: usize = 10;

/// The tally of a series of comparisons.
#[derive(Debug)]
pub struct Gate {
    /// What is compared.
    pub name: &'static str,
    /// How many comparisons passed.
    pub pass: usize,
    /// How many failed.
    pub fail: usize,
}

impl Gate {
    /// A tally without comparisons.
    pub fn new(name: &'static str) -> (g: Gate)
        ensures
            g.name == name,
            g.pass == 0,
            g.fail == 0,
    {
        Gate { name, pass: 0, fail: 0 }
    }

    /// Counts a comparison. Returns whether it is a failure that is shown: one
    /// of the first.
    pub fn check(&mut self, ok: bool) -> (shown: bool)
        requires
            old(self).pass < usize::MAX,
            old(self).fail < usize::MAX,
        ensures
            final(self).name == old(self).name,
            final(self).pass == old(self).pass + (if ok {
                1int
            } else {
                0
            }),
            final(self).fail == old(self).fail + (if ok {
                0int
            } else {
                1
            }),
            shown == (!ok && old(self).fail < SHOWN),
    {
        if ok {
            self.pass = self.pass + 1;
            false
        } else {
            self.fail = self.fail + 1;
            self.fail <= SHOWN
        }
    }

    /// Whether nothing failed.
    pub fn passed(&self) -> (b: bool)
        ensures
            b == (self.fail == 0),
    {
        self.fail == 0
    }
}

/// How many comparisons passed.
pub open spec fn passing(ok: Seq<bool>) -> nat
    decreases ok.len(),
{
    if ok.len() == 0 {
        0
    } else {
        passing(ok.drop_last()) + (if ok.last() {
            1nat
        } else {
            0
        })
    }
}

/// Which comparisons failed.
pub open spec fn failing(ok: Seq<bool>) -> Seq<usize>
    decreases ok.len(),
{
    if ok.len() == 0 {
        seq![]
    } else if ok.last() {
        failing(ok.drop_last())
    } else {
        failing(ok.drop_last()).push((ok.len() - 1) as usize)
    }
}

/// The failures are those comparisons that are not ok, in order, and the rest
/// passed.
pub proof fn law_failures_listed(ok: Seq<bool>)
    requires
        ok.len() <= usize::MAX,
    ensures
        passing(ok) + failing(ok).len() == ok.len(),
        forall|i: int| 0 <= i < ok.len() && !#[trigger] ok[i] ==> failing(ok).contains(i as usize),
        forall|t: int|
            0 <= t < failing(ok).len() ==> #[trigger] failing(ok)[t] < ok.len() && !ok[failing(
                ok,
            )[t] as int],
        forall|t: int, u: int|
            0 <= t < u < failing(ok).len() ==> #[trigger] failing(ok)[t] < #[trigger] failing(ok)[u],
    decreases ok.len(),
{
    if ok.len() > 0 {
        let less = ok.drop_last();
        law_failures_listed(less);
        let (before, all) = (failing(less), failing(ok));
        assert forall|i: int| 0 <= i < ok.len() && !#[trigger] ok[i] implies all.contains(
            i as usize,
        ) by {
            if i < less.len() {
                assert(!less[i]);
                let t = choose|t: int| 0 <= t < before.len() && before[t] == i as usize;
                assert(all[t] == i as usize);
            } else {
                assert(all[before.len() as int] == i as usize);
            }
        }
        assert forall|t: int| 0 <= t < all.len() implies #[trigger] all[t] < ok.len()
            && !ok[all[t] as int] by {
            if t < before.len() {
                assert(all[t] == before[t]);
                assert(!less[before[t] as int]);
            }
        }
    }
}

/// The tally of a series of comparisons, and which failures are shown.
#[derive(Debug)]
pub struct Outcome {
    /// The tally.
    pub gate: Gate,
    /// The first failures.
    pub shown: Vec<usize>,
}

impl Outcome {
    /// Whether this is the tally of comparisons.
    pub open spec fn tallies(&self, name: Seq<char>, ok: Seq<bool>) -> bool {
        &&& self.gate.name@ == name
        &&& self.gate.pass == passing(ok)
        &&& self.gate.pass + self.gate.fail == ok.len()
        &&& self.shown@ == if failing(ok).len() <= SHOWN {
            failing(ok)
        } else {
            failing(ok).take(SHOWN as int)
        }
    }
}

/// The tally of a series of comparisons.
pub fn tally(name: &'static str, ok: &[bool]) -> (r: Outcome)
    ensures
        r.tallies(name@, ok@),
{
    let n = ok.len();
    let mut gate = Gate::new(name);
    let mut shown: Vec<usize> = Vec::new();
    let mut i: usize = 0;
    assert(ok@.take(0) =~= seq![]);
    while i < n
        invariant
            n == ok@.len(),
            i <= n,
            gate.name@ == name@,
            gate.pass == passing(ok@.take(i as int)),
            gate.pass + gate.fail == i,
            failing(ok@.take(i as int)).len() == gate.fail,
            shown@ == if failing(ok@.take(i as int)).len() <= SHOWN {
                failing(ok@.take(i as int))
            } else {
                failing(ok@.take(i as int)).take(SHOWN as int)
            },
        decreases n - i,
    {
        let ghost done = ok@.take(i + 1);
        assert(done.drop_last() =~= ok@.take(i as int));
        let ghost before = failing(ok@.take(i as int));
        if gate.check(ok[i]) {
            shown.push(i);
        }
        proof {
            if !ok@[i as int] && before.len() >= SHOWN {
                assert(failing(done).take(SHOWN as int) =~= before.take(SHOWN as int));
                if before.len() == SHOWN {
                    assert(before.take(SHOWN as int) =~= before);
                }
            }
        }
        i += 1;
    }
    assert(ok@.take(n as int) =~= ok@);
    Outcome { gate, shown }
}

} // verus!
