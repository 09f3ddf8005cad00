//! Small helpers on sequences of plain values.
use vstd::prelude::*;

verus! {

/// A vector with the contents of a slice.
pub fn copied<T: Copy>(s: &[T]) -> (v: Vec<T>)
    ensures
        v@ == s@,
{
    let mut v: Vec<T> = Vec::with_capacity(s.len());
    let mut i: usize = 0;
    while i < s.len()
        invariant
            i <= s@.len(),
            v@ == s@.take(i as int),
        decreases s.len() - i,
    {
        v.push(s[i]);
        i += 1;
        assert(v@ =~= s@.take(i as int));
    }
    assert(v@ =~= s@);
    v
}

/// The elements of `s` in reverse order.
pub fn reversed<T: Copy>(s: &[T]) -> (v: Vec<T>)
    ensures
        v@ == s@.reverse(),
{
    let n = s.len();
    let mut v: Vec<T> = Vec::with_capacity(n);
    let mut i: usize = 0;
    while i < n
        invariant
            n == s@.len(),
            i <= n,
            v@ == s@.reverse().take(i as int),
        decreases n - i,
    {
        v.push(s[n - 1 - i]);
        i += 1;
        assert(v@ =~= s@.reverse().take(i as int));
    }
    assert(v@ =~= s@.reverse());
    v
}

/// The first `n` elements of `s`.
pub fn prefix<T: Copy>(s: &[T], n: usize) -> (v: Vec<T>)
    requires
        n <= s@.len(),
    ensures
        v@ == s@.take(n as int),
{
    let mut v: Vec<T> = Vec::with_capacity(n);
    let mut i: usize = 0;
    while i < n
        invariant
            i <= n <= s@.len(),
            v@ == s@.take(i as int),
        decreases n - i,
    {
        v.push(s[i]);
        i += 1;
        assert(v@ =~= s@.take(i as int));
    }
    v
}

/// What is read of all the items of a list, if something is read of each.
pub open spec fn all_read<A, T>(items: Seq<A>, read: spec_fn(A) -> Option<T>) -> Option<Seq<T>>
    decreases items.len(),
{
    if items.len() == 0 {
        Some(seq![])
    } else {
        match (all_read(items.drop_last(), read), read(items.last())) {
            (Some(before), Some(v)) => Some(before.push(v)),
            _ => None,
        }
    }
}

/// Reading one item more.
pub proof fn lemma_read_on<A, T>(items: Seq<A>, read: spec_fn(A) -> Option<T>, i: int)
    requires
        0 <= i < items.len(),
    ensures
        all_read(items.take(0), read) == Some(Seq::<T>::empty()),
        all_read(items.take(i + 1), read) == match (all_read(items.take(i), read), read(items[i])) {
            (Some(before), Some(v)) => Some(before.push(v)),
            _ => None,
        },
        i + 1 == items.len() ==> all_read(items, read) == all_read(items.take(i + 1), read),
        read(items[i]) is None ==> all_read(items, read) is None,
    decreases items.len(),
{
    assert(items.take(0) =~= seq![]);
    assert(items.take(i + 1).drop_last() =~= items.take(i));
    if i + 1 == items.len() {
        assert(items.take(i + 1) =~= items);
    } else {
        let less = items.drop_last();
        lemma_read_on(less, read, i);
        assert(less.take(i + 1) =~= items.take(i + 1));
    }
}

} // verus!
