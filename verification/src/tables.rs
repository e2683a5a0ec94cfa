//! Tables that give some of the vertices a number, and the sorted lists
//! of `(vertex, number)` pairs in which the library hands them out.

use crate::sequences::lemma_sort_seq_keeps;
use crate::sequences::sort_by;
use crate::sequences::sort_seq;
use vstd::prelude::*;

verus! {

/// The mathematical content of a table of machine numbers.
pub open spec fn lift(t: Seq<Option<u64>>) -> Seq<Option<nat>> {
    Seq::new(
        t.len(),
        |v: int|
            match t[v] {
                Some(d) => Some(d as nat),
                None => None,
            },
    )
}

/// The number that a table gives to `v`, or zero where it gives none.
pub open spec fn value_at(vals: Seq<Option<nat>>, v: int) -> nat {
    match vals[v] {
        Some(d) => d,
        None => 0,
    }
}

/// Every vertex has a number.
pub open spec fn is_full(vals: Seq<Option<nat>>) -> bool {
    forall|v: int| 0 <= v < vals.len() ==> #[trigger] vals[v] is Some
}

/// Every number in the table fits a machine word.
pub open spec fn fits(vals: Seq<Option<nat>>) -> bool {
    forall|v: int| 0 <= v < vals.len() ==> #[trigger] value_at(vals, v) <= u64::MAX
}

/// The pairs `(vertex, number)` of the vertices that have a number, by
/// ascending vertex.
pub open spec fn listing(vals: Seq<Option<nat>>) -> Seq<(usize, u64)>
    decreases vals.len(),
{
    if vals.len() == 0 {
        Seq::empty()
    } else {
        let rest = listing(vals.drop_last());
        match vals.last() {
            Some(d) => rest.push(((vals.len() - 1) as usize, d as u64)),
            None => rest,
        }
    }
}

/// The vertices that have a number, ascending.
pub open spec fn present(vals: Seq<Option<nat>>) -> Seq<usize>
    decreases vals.len(),
{
    if vals.len() == 0 {
        Seq::empty()
    } else {
        let rest = present(vals.drop_last());
        if vals.last() is Some {
            rest.push((vals.len() - 1) as usize)
        } else {
            rest
        }
    }
}

/// The order by number and, where that is equal, by index.
pub open spec fn by_number(vals: Seq<Option<nat>>) -> spec_fn(usize, usize) -> bool {
    |a: usize, b: usize|
        value_at(vals, a as int) < value_at(vals, b as int) || (value_at(vals, a as int) == value_at(
            vals,
            b as int,
        ) && a < b)
}

/// The vertices that have a number, by ascending number, those with equal
/// numbers by ascending index.
pub open spec fn ranked(vals: Seq<Option<nat>>) -> Seq<usize> {
    sort_seq(present(vals), by_number(vals))
}

/// The sum of the numbers in a table.
pub open spec fn total(vals: Seq<Option<nat>>) -> nat
    decreases vals.len(),
{
    if vals.len() == 0 {
        0
    } else {
        total(vals.drop_last()) + value_at(vals, vals.len() - 1)
    }
}

/// Writing a number into a table of machine numbers writes the same number
/// into its content.
pub proof fn lemma_lift_update(t: Seq<Option<u64>>, v: int, d: u64)
    requires
        0 <= v < t.len(),
    ensures
        lift(t.update(v, Some(d))) == lift(t).update(v, Some(d as nat)),
{
}

/// Lowering one number of a table lowers the sum by as much.
pub proof fn lemma_total_update(vals: Seq<Option<nat>>, v: int, d: nat)
    requires
        0 <= v < vals.len(),
    ensures
        total(vals.update(v, Some(d))) + value_at(vals, v) == total(vals) + d,
    decreases vals.len(),
{
    let after = vals.update(v, Some(d));
    if v == vals.len() - 1 {
        assert(after.drop_last() == vals.drop_last());
    } else {
        assert(after.drop_last() == vals.drop_last().update(v, Some(d)));
        lemma_total_update(vals.drop_last(), v, d);
    }
}

/// A listing names a vertex once, in ascending order, with the number that
/// the table gives it, and names every vertex that has one.
pub proof fn lemma_listing_entries(vals: Seq<Option<nat>>)
    requires
        vals.len() <= usize::MAX,
        fits(vals),
    ensures
        listing(vals).len() <= vals.len(),
        forall|k: int|
            0 <= k < listing(vals).len() ==> (#[trigger] listing(vals)[k]).0 < vals.len()
                && vals[listing(vals)[k].0 as int] == Some(listing(vals)[k].1 as nat),
        forall|k: int, m: int|
            0 <= k < m < listing(vals).len() ==> (#[trigger] listing(vals)[k]).0 < (
            #[trigger] listing(vals)[m]).0,
        forall|v: int|
            0 <= v < vals.len() && vals[v] is Some ==> exists|k: int|
                0 <= k < listing(vals).len() && #[trigger] listing(vals)[k] == (
                    v as usize,
                    value_at(vals, v) as u64,
                ),
    decreases vals.len(),
{
    if vals.len() > 0 {
        let front = vals.drop_last();
        assert forall|v: int| 0 <= v < front.len() implies #[trigger] value_at(front, v)
            <= u64::MAX by {
            assert(value_at(vals, v) == value_at(front, v));
        }
        lemma_listing_entries(front);
        let rest = listing(front);
        let all = listing(vals);
        let top = vals.len() - 1;
        assert forall|v: int| 0 <= v < vals.len() && vals[v] is Some implies exists|k: int|
            0 <= k < all.len() && #[trigger] all[k] == (v as usize, value_at(vals, v) as u64) by {
            if v < top {
                let k = choose|k: int|
                    0 <= k < rest.len() && #[trigger] rest[k] == (
                        v as usize,
                        value_at(front, v) as u64,
                    );
                assert(all[k] == rest[k]);
            } else {
                assert(all[all.len() - 1] == (v as usize, value_at(vals, v) as u64));
            }
        }
    }
}

/// The listing of a table without gaps has one entry per vertex, at the
/// vertex's own position.
pub proof fn lemma_listing_full(vals: Seq<Option<nat>>)
    requires
        is_full(vals),
    ensures
        listing(vals).len() == vals.len(),
        forall|v: int|
            0 <= v < vals.len() ==> #[trigger] listing(vals)[v] == (
                v as usize,
                value_at(vals, v) as u64,
            ),
    decreases vals.len(),
{
    if vals.len() > 0 {
        let front = vals.drop_last();
        lemma_listing_full(front);
    }
}

/// The vertices named by `present` are those that have a number, each named
/// once.
pub proof fn lemma_present(vals: Seq<Option<nat>>)
    requires
        vals.len() <= usize::MAX,
    ensures
        present(vals).len() <= vals.len(),
        forall|v: usize| present(vals).contains(v) <==> v < vals.len() && vals[v as int] is Some,
        forall|k: int, m: int|
            0 <= k < m < present(vals).len() ==> #[trigger] present(vals)[k] < #[trigger] present(
                vals,
            )[m],
        present(vals).no_duplicates(),
    decreases vals.len(),
{
    if vals.len() > 0 {
        let front = vals.drop_last();
        lemma_present(front);
        let rest = present(front);
        let all = present(vals);
        let top = (vals.len() - 1) as usize;
        assert forall|k: int| 0 <= k < rest.len() implies #[trigger] rest[k] < top by {
            assert(rest.contains(rest[k]));
        }
        assert forall|v: usize| all.contains(v) <==> v < vals.len() && vals[v as int] is Some by {
            if all.contains(v) {
                let k = choose|k: int| 0 <= k < all.len() && all[k] == v;
                if k < rest.len() {
                    assert(rest.contains(v));
                }
            }
            if v < vals.len() && vals[v as int] is Some {
                if v < top {
                    assert(rest.contains(v));
                    let k = choose|k: int| 0 <= k < rest.len() && rest[k] == v;
                    assert(all[k] == v);
                } else {
                    assert(all[all.len() - 1] == v);
                }
            }
        }
    }
}

/// Lists the vertices that have a number, ascending.
pub(crate) fn present_of(t: &Vec<Option<u64>>) -> (r: Vec<usize>)
    ensures
        r@ == present(lift(t@)),
{
    let mut r: Vec<usize> = Vec::new();
    let mut v: usize = 0;
    while v < t.len()
        invariant
            v <= t@.len(),
            r@ == present(lift(t@).take(v as int)),
        decreases t@.len() - v,
    {
        proof {
            assert(lift(t@).take(v + 1).drop_last() == lift(t@).take(v as int));
        }
        if t[v].is_some() {
            r.push(v);
        }
        v += 1;
    }
    proof {
        assert(lift(t@).take(v as int) == lift(t@));
    }
    r
}

/// Lists the vertices that have a number by ascending number, those with
/// equal numbers by ascending index.
pub(crate) fn ranked_of(t: &Vec<Option<u64>>) -> (r: Vec<usize>)
    ensures
        r@ == ranked(lift(t@)),
        forall|k: int| 0 <= k < r@.len() ==> #[trigger] r@[k] < t@.len() && t@[r@[k] as int] is Some,
{
    let waiting = present_of(t);
    let n = t.len();
    proof {
        assert(lift(t@).len() == n);
        lemma_present(lift(t@));
    }
    let comes_before = |a: usize, b: usize| -> (out: bool)
        requires
            a < t@.len(),
            b < t@.len(),
            t@[a as int] is Some,
            t@[b as int] is Some,
        ensures
            out == by_number(lift(t@))(a, b),
        {
            match (t[a], t[b]) {
                (Some(x), Some(y)) => x < y || (x == y && a < b),
                _ => false,
            }
        };
    proof {
        assert forall|i: int, k: int|
            0 <= i < waiting@.len() && 0 <= k < waiting@.len() implies call_requires(
            comes_before,
            (#[trigger] waiting@[i], #[trigger] waiting@[k]),
        ) by {
            assert(waiting@.contains(waiting@[i]));
            assert(waiting@.contains(waiting@[k]));
        }
    }
    let r = sort_by(&waiting, comes_before, Ghost(by_number(lift(t@))));
    proof {
        lemma_sort_seq_keeps(waiting@, by_number(lift(t@)));
        assert forall|k: int| 0 <= k < r@.len() implies #[trigger] r@[k] < t@.len()
            && t@[r@[k] as int] is Some by {
            assert(r@.contains(r@[k]));
            assert(waiting@.contains(r@[k]));
        }
    }
    r
}

/// Lists a table as pairs `(vertex, number)`, by ascending vertex.
pub(crate) fn list_of(t: &Vec<Option<u64>>) -> (r: Vec<(usize, u64)>)
    ensures
        r@ == listing(lift(t@)),
{
    let mut r: Vec<(usize, u64)> = Vec::new();
    let mut v: usize = 0;
    while v < t.len()
        invariant
            v <= t@.len(),
            r@ == listing(lift(t@).take(v as int)),
        decreases t@.len() - v,
    {
        proof {
            assert(lift(t@).take(v + 1).drop_last() == lift(t@).take(v as int));
        }
        match t[v] {
            Some(d) => {
                r.push((v, d));
            },
            None => {},
        }
        v += 1;
    }
    proof {
        assert(lift(t@).take(v as int) == lift(t@));
    }
    r
}

} // verus!
