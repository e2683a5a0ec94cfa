//! The largest avatar distance and the nodes that hold it.

use crate::avatar::avatar_fits;
use crate::avatar::avatar_values;
use crate::graph::Graph;
use crate::tables::lift;
use crate::tables::value_at;
use vstd::prelude::*;

verus! {

/// The largest number in the table, or zero where it holds none.
pub open spec fn peak(vals: Seq<Option<nat>>) -> nat
    decreases vals.len(),
{
    if vals.len() == 0 {
        0
    } else {
        let low = peak(vals.drop_last());
        let top = value_at(vals, vals.len() - 1);
        if top > low {
            top
        } else {
            low
        }
    }
}

/// The vertices that hold the number `top`, ascending.
pub open spec fn holders(vals: Seq<Option<nat>>, top: nat) -> Seq<usize>
    decreases vals.len(),
{
    if vals.len() == 0 {
        Seq::empty()
    } else {
        let rest = holders(vals.drop_last(), top);
        if vals.last() == Some(top) {
            rest.push((vals.len() - 1) as usize)
        } else {
            rest
        }
    }
}

/// No number in a table exceeds its peak, and a peak above zero is held
/// by some vertex.
pub proof fn lemma_peak(vals: Seq<Option<nat>>)
    ensures
        forall|v: int| 0 <= v < vals.len() ==> #[trigger] value_at(vals, v) <= peak(vals),
        peak(vals) > 0 ==> exists|v: int| 0 <= v < vals.len() && #[trigger] vals[v] == Some(peak(vals)),
    decreases vals.len(),
{
    if vals.len() > 0 {
        let front = vals.drop_last();
        lemma_peak(front);
        assert forall|v: int| 0 <= v < vals.len() implies #[trigger] value_at(vals, v) <= peak(
            vals,
        ) by {
            if v < front.len() {
                assert(value_at(front, v) == value_at(vals, v));
            }
        }
    }
}

/// `holders` names exactly the vertices that hold `top`, each once and in
/// ascending order.
pub proof fn lemma_holders(vals: Seq<Option<nat>>, top: nat)
    requires
        vals.len() <= usize::MAX,
    ensures
        forall|i: int|
            0 <= i < holders(vals, top).len() ==> #[trigger] holders(vals, top)[i] < vals.len()
                && vals[holders(vals, top)[i] as int] == Some(top),
        forall|i: int, k: int|
            0 <= i < k < holders(vals, top).len() ==> #[trigger] holders(vals, top)[i]
                < #[trigger] holders(vals, top)[k],
        forall|v: usize|
            v < vals.len() && vals[v as int] == Some(top) ==> holders(vals, top).contains(v),
    decreases vals.len(),
{
    if vals.len() > 0 {
        let front = vals.drop_last();
        lemma_holders(front, top);
        let rest = holders(front, top);
        let all = holders(vals, top);
        assert forall|v: usize| v < vals.len() && vals[v as int] == Some(top) implies all.contains(
            v,
        ) by {
            if v < front.len() {
                assert(front[v as int] == vals[v as int]);
                let i = choose|i: int| 0 <= i < rest.len() && rest[i] == v;
                assert(all[i] == v);
            } else {
                assert(all[all.len() - 1] == v);
            }
        }
    }
}

/// No vertex holds a number above the peak.
pub proof fn lemma_holders_above_peak(vals: Seq<Option<nat>>, top: nat)
    requires
        top > peak(vals),
    ensures
        holders(vals, top) == Seq::<usize>::empty(),
    decreases vals.len(),
{
    if vals.len() > 0 {
        lemma_holders_above_peak(vals.drop_last(), top);
    }
}

impl Graph {
    /// Finds the largest avatar distance from `ind` and the nodes that
    /// hold it, by ascending node. On a graph without nodes the largest
    /// is zero and no node holds it.
    pub fn max_avatars(&self, ind: usize) -> (r: (u64, Vec<usize>))
        requires
            self.wf(),
            self.nodes@.len() > 0 ==> ind < self.nodes@.len() && avatar_fits(
                self.edges@,
                self.nodes@.len(),
                ind,
            ),
        ensures
            r.0 == peak(avatar_values(self.edges@, self.nodes@.len(), ind)),
            r.1@ == holders(avatar_values(self.edges@, self.nodes@.len(), ind), r.0 as nat),
            forall|v: int|
                0 <= v < self.nodes@.len() ==> #[trigger] value_at(
                    avatar_values(self.edges@, self.nodes@.len(), ind),
                    v,
                ) <= r.0,
            forall|i: int|
                0 <= i < r.1@.len() ==> #[trigger] r.1@[i] < self.nodes@.len() && avatar_values(
                    self.edges@,
                    self.nodes@.len(),
                    ind,
                )[r.1@[i] as int] == Some(r.0 as nat),
            forall|i: int, k: int| 0 <= i < k < r.1@.len() ==> #[trigger] r.1@[i] < #[trigger] r.1@[k],
    {
        if self.nodes.len() == 0 {
            return (0, Vec::new());
        }
        let t = self.avatar_table(ind);
        let ghost vals = lift(t@);
        let mut max: u64 = 0;
        let mut avatars: Vec<usize> = Vec::new();
        let mut v: usize = 0;
        while v < t.len()
            invariant
                v <= t@.len(),
                vals == lift(t@),
                max == peak(vals.take(v as int)),
                avatars@ == holders(vals.take(v as int), max as nat),
            decreases t@.len() - v,
        {
            proof {
                assert(vals.take(v + 1).drop_last() == vals.take(v as int));
            }
            match t[v] {
                Some(x) => {
                    if x > max {
                        proof {
                            lemma_holders_above_peak(vals.take(v as int), x as nat);
                        }
                        avatars.clear();
                        avatars.push(v);
                        max = x;
                    } else if x == max {
                        avatars.push(v);
                    }
                },
                None => {},
            }
            v += 1;
        }
        proof {
            assert(vals.take(v as int) == vals);
            lemma_holders(vals, max as nat);
            lemma_peak(vals);
        }
        (max, avatars)
    }
}

} // verus!
