//! Sequences: sorting by a strict order, sums, and the indices that pass a
//! test.

use vstd::prelude::*;

verus! {

/// `s` with `x` put behind the last item that `x` does not come before.
pub open spec fn insert_sorted<T>(s: Seq<T>, x: T, before: spec_fn(T, T) -> bool) -> Seq<T>
    decreases s.len(),
{
    if s.len() > 0 && before(x, s.last()) {
        insert_sorted(s.drop_last(), x, before).push(s.last())
    } else {
        s.push(x)
    }
}

/// The items of `s`, put in order one after the other from the first to the
/// last. Items of which neither comes before the other keep their order.
pub open spec fn sort_seq<T>(s: Seq<T>, before: spec_fn(T, T) -> bool) -> Seq<T>
    decreases s.len(),
{
    if s.len() == 0 {
        s
    } else {
        insert_sorted(sort_seq(s.drop_last(), before), s.last(), before)
    }
}

/// `before` orders the items of `s` strictly and totally.
pub open spec fn strict_total_on<T>(s: Seq<T>, before: spec_fn(T, T) -> bool) -> bool {
    &&& forall|a: T, b: T|
        s.contains(a) && s.contains(b) ==> !(#[trigger] before(a, b) && before(b, a))
    &&& forall|a: T, b: T|
        s.contains(a) && s.contains(b) && a != b ==> #[trigger] before(a, b) || before(b, a)
    &&& forall|a: T, b: T, c: T|
        s.contains(a) && s.contains(b) && s.contains(c) && #[trigger] before(a, b)
            && #[trigger] before(b, c) ==> before(a, c)
}

/// Every item comes before all items behind it.
pub open spec fn ascending<T>(s: Seq<T>, before: spec_fn(T, T) -> bool) -> bool {
    forall|i: int, j: int| 0 <= i < j < s.len() ==> before(#[trigger] s[i], #[trigger] s[j])
}

/// The sum of `f` over the items of `s`.
pub open spec fn sum_over(s: Seq<usize>, f: spec_fn(usize) -> nat) -> nat
    decreases s.len(),
{
    if s.len() == 0 {
        0
    } else {
        sum_over(s.drop_last(), f) + f(s.last())
    }
}

/// The vertices below `n` that `pick` accepts, ascending.
pub open spec fn chosen(n: nat, pick: spec_fn(usize) -> bool) -> Seq<usize>
    decreases n,
{
    if n == 0 {
        Seq::empty()
    } else {
        let rest = chosen((n - 1) as nat, pick);
        if pick((n - 1) as usize) {
            rest.push((n - 1) as usize)
        } else {
            rest
        }
    }
}

/// A sum over a front part of a sequence does not exceed the sum over all
/// of it.
pub proof fn lemma_sum_over_grows(s: Seq<usize>, f: spec_fn(usize) -> nat, i: int)
    requires
        0 <= i <= s.len(),
    ensures
        sum_over(s.take(i), f) <= sum_over(s, f),
    decreases s.len(),
{
    if i == s.len() {
        assert(s.take(i) == s);
    } else {
        assert(s.drop_last().take(i) == s.take(i));
        lemma_sum_over_grows(s.drop_last(), f, i);
    }
}

/// Two functions that agree on the items of a sequence have the same sum
/// over it.
pub proof fn lemma_sum_over_agree(s: Seq<usize>, f: spec_fn(usize) -> nat, g: spec_fn(usize) -> nat)
    requires
        forall|i: int| 0 <= i < s.len() ==> f(#[trigger] s[i]) == g(s[i]),
    ensures
        sum_over(s, f) == sum_over(s, g),
    decreases s.len(),
{
    if s.len() > 0 {
        let front = s.drop_last();
        lemma_sum_over_agree(front, f, g);
    }
}

/// A sum of zeros is zero.
pub proof fn lemma_sum_over_zero(s: Seq<usize>, f: spec_fn(usize) -> nat)
    requires
        forall|i: int| 0 <= i < s.len() ==> f(#[trigger] s[i]) == 0,
    ensures
        sum_over(s, f) == 0,
    decreases s.len(),
{
    if s.len() > 0 {
        let front = s.drop_last();
        lemma_sum_over_zero(front, f);
    }
}

/// `chosen` names exactly the accepted vertices below `n`, in ascending
/// order.
pub proof fn lemma_chosen(n: nat, pick: spec_fn(usize) -> bool)
    requires
        n <= usize::MAX,
    ensures
        chosen(n, pick).len() <= n,
        forall|v: usize| #[trigger] chosen(n, pick).contains(v) <==> v < n && pick(v),
        forall|i: int, k: int|
            0 <= i < k < chosen(n, pick).len() ==> #[trigger] chosen(n, pick)[i]
                < #[trigger] chosen(n, pick)[k],
    decreases n,
{
    if n > 0 {
        let m = (n - 1) as nat;
        lemma_chosen(m, pick);
        let rest = chosen(m, pick);
        let all = chosen(n, pick);
        assert forall|i: int| 0 <= i < rest.len() implies #[trigger] rest[i] < m by {
            assert(rest.contains(rest[i]));
        }
        assert forall|v: usize| all.contains(v) <==> v < n && pick(v) by {
            if all.contains(v) {
                let i = choose|i: int| 0 <= i < all.len() && all[i] == v;
                if i < rest.len() {
                    assert(rest.contains(v));
                }
            }
            if v < n && pick(v) {
                if v < m {
                    assert(rest.contains(v));
                    let i = choose|i: int| 0 <= i < rest.len() && rest[i] == v;
                    assert(all[i] == v);
                } else {
                    assert(all[all.len() - 1] == v);
                }
            }
        }
    }
}

/// Two tests that agree below `n` choose the same vertices.
pub proof fn lemma_chosen_agree(n: nat, pick: spec_fn(usize) -> bool, other: spec_fn(usize) -> bool)
    requires
        n <= usize::MAX,
        forall|v: usize| v < n ==> #[trigger] pick(v) == other(v),
    ensures
        chosen(n, pick) == chosen(n, other),
    decreases n,
{
    if n > 0 {
        lemma_chosen_agree((n - 1) as nat, pick, other);
    }
}

/// Where every vertex below `n` is accepted, `chosen` counts from zero up.
pub proof fn lemma_chosen_all(n: nat, pick: spec_fn(usize) -> bool)
    requires
        n <= usize::MAX,
        forall|v: usize| v < n ==> #[trigger] pick(v),
    ensures
        chosen(n, pick).len() == n,
        forall|i: int| 0 <= i < n ==> #[trigger] chosen(n, pick)[i] == i,
    decreases n,
{
    if n > 0 {
        lemma_chosen_all((n - 1) as nat, pick);
    }
}

/// Of the vertices below `n`, those that pass a test and those that pass
/// the opposite test are `n` together.
pub proof fn lemma_chosen_split(n: nat, pick: spec_fn(usize) -> bool, other: spec_fn(usize) -> bool)
    requires
        forall|v: usize| v < n ==> #[trigger] pick(v) != other(v),
    ensures
        chosen(n, pick).len() + chosen(n, other).len() == n,
    decreases n,
{
    if n > 0 {
        lemma_chosen_split((n - 1) as nat, pick, other);
    }
}

/// Inserting puts the new item at some place in the sequence, behind the
/// items that it does not come before and in front of the rest.
pub proof fn lemma_insert_sorted_place<T>(s: Seq<T>, x: T, before: spec_fn(T, T) -> bool) -> (p: int)
    ensures
        0 <= p <= s.len(),
        insert_sorted(s, x, before) == s.insert(p, x),
        forall|k: int| p <= k < s.len() ==> before(x, #[trigger] s[k]),
        p > 0 ==> !before(x, s[p - 1]),
    decreases s.len(),
{
    if s.len() > 0 && before(x, s.last()) {
        let front = s.drop_last();
        let p = lemma_insert_sorted_place(front, x, before);
        assert forall|k: int| p <= k < s.len() implies before(x, #[trigger] s[k]) by {
            if k < front.len() {
                assert(s[k] == front[k]);
            }
        }
        p
    } else {
        s.len() as int
    }
}

/// Sorting keeps the items: their number, and which items there are.
pub proof fn lemma_sort_seq_keeps<T>(s: Seq<T>, before: spec_fn(T, T) -> bool)
    ensures
        sort_seq(s, before).len() == s.len(),
        forall|x: T| sort_seq(s, before).contains(x) <==> s.contains(x),
        s.no_duplicates() ==> sort_seq(s, before).no_duplicates(),
    decreases s.len(),
{
    if s.len() > 0 {
        let front = s.drop_last();
        let last = s.last();
        lemma_sort_seq_keeps(front, before);
        let sorted = sort_seq(front, before);
        let p = lemma_insert_sorted_place(sorted, last, before);
        let all = sort_seq(s, before);
        assert forall|x: T| all.contains(x) <==> s.contains(x) by {
            if all.contains(x) {
                if sorted.contains(x) {
                    assert(front.contains(x));
                }
            }
            if s.contains(x) {
                let m = choose|m: int| 0 <= m < s.len() && s[m] == x;
                if m < front.len() {
                    assert(front[m] == x);
                    assert(front.contains(x));
                    let k = choose|k: int| 0 <= k < sorted.len() && sorted[k] == x;
                    if k < p {
                        assert(all[k] == x);
                    } else {
                        assert(all[k + 1] == x);
                    }
                } else {
                    assert(all[p] == x);
                }
            }
        }
        if s.no_duplicates() {
            assert(!front.contains(last));
        }
    }
}

/// Sorting distinct items by a strict total order leaves every item in
/// front of all items that it comes before.
pub proof fn lemma_sort_seq_ascends<T>(s: Seq<T>, before: spec_fn(T, T) -> bool)
    requires
        s.no_duplicates(),
        strict_total_on(s, before),
    ensures
        ascending(sort_seq(s, before), before),
    decreases s.len(),
{
    if s.len() > 0 {
        let front = s.drop_last();
        let last = s.last();
        assert forall|x: T| front.contains(x) implies s.contains(x) by {}
        assert(!front.contains(last));
        lemma_sort_seq_ascends(front, before);
        lemma_sort_seq_keeps(front, before);
        let sorted = sort_seq(front, before);
        lemma_insert_sorted_place(sorted, last, before);
    }
}

/// Sorts `items` by the order that `comes_before` decides.
pub(crate) fn sort_by<T: Copy, F: Fn(T, T) -> bool>(
    items: &Vec<T>,
    comes_before: F,
    Ghost(before): Ghost<spec_fn(T, T) -> bool>,
) -> (r: Vec<T>)
    requires
        forall|i: int, j: int|
            0 <= i < items@.len() && 0 <= j < items@.len() ==> call_requires(
                comes_before,
                (#[trigger] items@[i], #[trigger] items@[j]),
            ),
        forall|a: T, b: T, out: bool|
            call_ensures(comes_before, (a, b), out) ==> out == before(a, b),
    ensures
        r@ == sort_seq(items@, before),
{
    let mut r: Vec<T> = Vec::new();
    let mut i: usize = 0;
    while i < items.len()
        invariant
            i <= items@.len(),
            r@ == sort_seq(items@.take(i as int), before),
            forall|k: int| 0 <= k < r@.len() ==> items@.take(i as int).contains(#[trigger] r@[k]),
            forall|i: int, j: int|
                0 <= i < items@.len() && 0 <= j < items@.len() ==> call_requires(
                    comes_before,
                    (#[trigger] items@[i], #[trigger] items@[j]),
                ),
            forall|a: T, b: T, out: bool|
                call_ensures(comes_before, (a, b), out) ==> out == before(a, b),
        decreases items@.len() - i,
    {
        let x = items[i];
        let ghost sorted = r@;
        let mut p: usize = r.len();
        let mut placed = false;
        proof {
            assert(sorted.take(p as int) == sorted);
        }
        while p > 0 && !placed
            invariant
                p <= r@.len(),
                r@ == sorted,
                i < items@.len(),
                x == items@[i as int],
                forall|k: int| 0 <= k < r@.len() ==> items@.take(i as int).contains(#[trigger] r@[k]),
                forall|i: int, j: int|
                    0 <= i < items@.len() && 0 <= j < items@.len() ==> call_requires(
                        comes_before,
                        (#[trigger] items@[i], #[trigger] items@[j]),
                    ),
                forall|a: T, b: T, out: bool|
                    call_ensures(comes_before, (a, b), out) ==> out == before(a, b),
                insert_sorted(sorted, x, before) == insert_sorted(sorted.take(p as int), x, before)
                    + sorted.skip(p as int),
                placed ==> !before(x, sorted[p - 1]),
            decreases p, !placed as int,
        {
            let y = r[p - 1];
            if comes_before(x, y) {
                proof {
                    let front = sorted.take(p as int);
                    assert(front.drop_last() == sorted.take(p - 1));
                }
                p -= 1;
            } else {
                placed = true;
            }
        }
        proof {
            assert(items@.take(i + 1).drop_last() == items@.take(i as int));
            assert forall|k: int| 0 <= k < sorted.len() + 1 implies items@.take(i + 1).contains(
                #[trigger] sorted.insert(p as int, x)[k],
            ) by {
                let z = sorted.insert(p as int, x)[k];
                if k == p {
                    assert(items@.take(i + 1)[i as int] == z);
                }
            }
        }
        r.insert(p, x);
        i += 1;
    }
    proof {
        assert(items@.take(i as int) == items@);
    }
    r
}

} // verus!
