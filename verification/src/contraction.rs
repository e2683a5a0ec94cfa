//! Contractible vertices: those with exactly one child by distance, the
//! source not counted as a child.

use crate::distance::distance_values;
use crate::graph::Graph;
use crate::paths::edges_in_range;
use crate::paths::lemma_neighbors_in_range;
use crate::paths::neighbors;
use crate::sequences::sum_over;
use crate::tables::lift;
use crate::tables::ranked;
use crate::tables::ranked_of;
use vstd::prelude::*;

verus! {

/// One for a vertex whose distance number is above zero and not above
/// that of `j`, zero for any other.
pub open spec fn weighs_on(dvals: Seq<Option<nat>>, j: usize) -> spec_fn(usize) -> nat {
    |e: usize|
        if e < dvals.len() && j < dvals.len() && (match (dvals[e as int], dvals[j as int]) {
            (Some(m), Some(n)) => 0 < m && m <= n,
            _ => false,
        }) {
            1nat
        } else {
            0nat
        }
}

/// The number of neighbors of `j` that count as its children here.
pub open spec fn burden(edges: Seq<(usize, usize)>, dvals: Seq<Option<nat>>, j: usize) -> nat {
    sum_over(neighbors(edges, j), weighs_on(dvals, j))
}

/// Whether a vertex has exactly one child.
pub open spec fn has_one_child(edges: Seq<(usize, usize)>, dvals: Seq<Option<nat>>) -> spec_fn(
    usize,
) -> bool {
    |j: usize| burden(edges, dvals, j) == 1
}

/// The contractible vertices seen from `src`, by ascending distance number
/// and then index.
pub open spec fn contractibles(edges: Seq<(usize, usize)>, n: nat, src: usize) -> Seq<usize> {
    let dvals = distance_values(edges, n, src);
    ranked(dvals).filter(has_one_child(edges, dvals))
}

impl Graph {
    /// Whether `j` has exactly one child.
    fn is_contractible(&self, dt: &Vec<Option<u64>>, j: usize) -> (one: bool)
        requires
            edges_in_range(self.edges@, dt@.len() as nat),
            j < dt@.len(),
        ensures
            one == has_one_child(self.edges@, lift(dt@))(j),
    {
        let nbrs = self.edges_of(j);
        let ghost f = weighs_on(lift(dt@), j);
        proof {
            lemma_neighbors_in_range(self.edges@, dt@.len() as nat, j);
        }
        let mut count: usize = 0;
        let mut i: usize = 0;
        while i < nbrs.len()
            invariant
                i <= nbrs@.len(),
                j < dt@.len(),
                f == weighs_on(lift(dt@), j),
                forall|k: int| 0 <= k < nbrs@.len() ==> #[trigger] nbrs@[k] < dt@.len(),
                count == sum_over(nbrs@.take(i as int), f),
                count <= i,
            decreases nbrs@.len() - i,
        {
            proof {
                assert(nbrs@.take(i + 1).drop_last() == nbrs@.take(i as int));
            }
            let e = nbrs[i];
            match (dt[e], dt[j]) {
                (Some(m), Some(n)) => {
                    if 0 < m && m <= n {
                        count += 1;
                    }
                },
                _ => {},
            }
            i += 1;
        }
        proof {
            assert(nbrs@.take(i as int) == nbrs@);
        }
        count == 1
    }

    /// Lists the contractible nodes seen from `ind`: those that have
    /// exactly one neighbor whose distance is above zero and not above
    /// their own. They come by ascending distance and then node.
    pub fn contractibles_of(&self, ind: usize) -> (res: Vec<usize>)
        requires
            self.wf(),
            ind < self.nodes@.len(),
        ensures
            res@ == contractibles(self.edges@, self.nodes@.len(), ind),
    {
        let (dt, _) = self.distance_table(ind);
        let order = ranked_of(&dt);
        let ghost dvals = lift(dt@);
        let ghost pick = has_one_child(self.edges@, dvals);
        let mut res: Vec<usize> = Vec::new();
        let mut i: usize = 0;
        while i < order.len()
            invariant
                i <= order@.len(),
                dvals == lift(dt@),
                pick == has_one_child(self.edges@, dvals),
                edges_in_range(self.edges@, dt@.len() as nat),
                forall|k: int| 0 <= k < order@.len() ==> #[trigger] order@[k] < dt@.len(),
                res@ == order@.take(i as int).filter(pick),
            decreases order@.len() - i,
        {
            proof {
                reveal(Seq::filter);
                assert(order@.take(i + 1).drop_last() == order@.take(i as int));
            }
            let j = order[i];
            if self.is_contractible(&dt, j) {
                res.push(j);
            }
            i += 1;
        }
        proof {
            assert(order@.take(i as int) == order@);
        }
        res
    }

    /// Counts the contractible nodes seen from `ind`.
    pub fn contractible(&self, ind: usize) -> (count: usize)
        requires
            self.wf(),
            ind < self.nodes@.len(),
        ensures
            count == contractibles(self.edges@, self.nodes@.len(), ind).len(),
    {
        self.contractibles_of(ind).len()
    }
}

} // verus!
