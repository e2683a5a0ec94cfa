//! Avatar connectivity: which levels of avatars an edge may join.

use crate::avatar::avatar_fits;
use crate::avatar::avatar_values;
use crate::graph::Graph;
use crate::paths::edges_in_range;
use crate::paths::lemma_neighbors_in_range;
use crate::paths::neighbors;
use crate::tables::lift;
use crate::tables::ranked;
use crate::tables::ranked_of;
use vstd::prelude::*;

verus! {

/// Whether a vertex of avatar distance `n` may be joined by an edge to one
/// of avatar distance `m`: the core only to 1-avatars, a 1-avatar to the
/// core or to higher avatars, any other avatar to anything but the core
/// and its own level.
pub open spec fn may_join(n: nat, m: nat) -> bool {
    if n == 0 {
        m == 1
    } else if n == 1 {
        m == 0 || m > 1
    } else {
        (0 < m && m < n) || m > n
    }
}

/// The edge from `j` to `e` joins two levels that may be joined, or one of
/// the two has no avatar distance.
pub open spec fn edge_obeys(vals: Seq<Option<nat>>, j: usize, e: usize) -> bool {
    j < vals.len() && e < vals.len() ==> match (vals[j as int], vals[e as int]) {
        (Some(n), Some(m)) => may_join(n, m),
        _ => true,
    }
}

/// Every edge at `j` obeys.
pub open spec fn obeys_around(edges: Seq<(usize, usize)>, vals: Seq<Option<nat>>, j: usize) -> bool {
    forall|i: int|
        0 <= i < neighbors(edges, j).len() ==> edge_obeys(vals, j, #[trigger] neighbors(edges, j)[i])
}

/// Every edge of the graph obeys, seen from either end.
pub open spec fn all_obey(edges: Seq<(usize, usize)>, vals: Seq<Option<nat>>) -> bool {
    forall|j: usize| j < vals.len() ==> #[trigger] obeys_around(edges, vals, j)
}

/// Whether `j` is another vertex than `src` at which some edge does not
/// obey.
pub open spec fn is_offender(edges: Seq<(usize, usize)>, vals: Seq<Option<nat>>, src: usize) -> spec_fn(
    usize,
) -> bool {
    |j: usize| j != src && !obeys_around(edges, vals, j)
}

/// The vertices other than `src` at which some edge does not obey, by
/// ascending avatar distance and then index.
pub open spec fn offenders(edges: Seq<(usize, usize)>, vals: Seq<Option<nat>>, src: usize) -> Seq<
    usize,
> {
    ranked(vals).filter(is_offender(edges, vals, src))
}

impl Graph {
    /// Whether some edge at `j` joins two levels that may not be joined.
    fn offends(&self, t: &Vec<Option<u64>>, j: usize) -> (bad: bool)
        requires
            edges_in_range(self.edges@, t@.len() as nat),
            j < t@.len(),
        ensures
            bad == !obeys_around(self.edges@, lift(t@), j),
    {
        let n = match t[j] {
            Some(n) => n,
            None => {
                return false;
            },
        };
        let nbrs = self.edges_of(j);
        proof {
            lemma_neighbors_in_range(self.edges@, t@.len() as nat, j);
        }
        let mut i: usize = 0;
        while i < nbrs.len()
            invariant
                i <= nbrs@.len(),
                j < t@.len(),
                t@[j as int] == Some(n),
                nbrs@ == neighbors(self.edges@, j),
                forall|k: int| 0 <= k < nbrs@.len() ==> #[trigger] nbrs@[k] < t@.len(),
                forall|k: int| 0 <= k < i ==> edge_obeys(lift(t@), j, #[trigger] nbrs@[k]),
            decreases nbrs@.len() - i,
        {
            let e = nbrs[i];
            match t[e] {
                Some(m) => {
                    let fine = if n == 0 {
                        m == 1
                    } else if n == 1 {
                        m == 0 || m > 1
                    } else {
                        (0 < m && m < n) || m > n
                    };
                    if !fine {
                        return true;
                    }
                },
                None => {},
            }
            i += 1;
        }
        false
    }

    /// Whether the avatar distances from `ind` obey the rules of avatar
    /// connectivity along every edge.
    pub fn avatar_connectivity(&self, ind: usize) -> (ok: bool)
        requires
            self.wf(),
            ind < self.nodes@.len(),
            avatar_fits(self.edges@, self.nodes@.len(), ind),
        ensures
            ok == all_obey(self.edges@, avatar_values(self.edges@, self.nodes@.len(), ind)),
    {
        let t = self.avatar_table(ind);
        let mut j: usize = 0;
        while j < t.len()
            invariant
                j <= t@.len(),
                edges_in_range(self.edges@, t@.len() as nat),
                lift(t@) == avatar_values(self.edges@, self.nodes@.len(), ind),
                forall|k: usize| k < j ==> #[trigger] obeys_around(self.edges@, lift(t@), k),
            decreases t@.len() - j,
        {
            if self.offends(&t, j) {
                return false;
            }
            j += 1;
        }
        true
    }

    /// Lists the nodes other than `ind` at which the rules of avatar
    /// connectivity are broken, by ascending avatar distance and then node.
    pub fn avatar_connectivity_failures_of(&self, ind: usize) -> (res: Vec<usize>)
        requires
            self.wf(),
            ind < self.nodes@.len(),
            avatar_fits(self.edges@, self.nodes@.len(), ind),
        ensures
            res@ == offenders(
                self.edges@,
                avatar_values(self.edges@, self.nodes@.len(), ind),
                ind,
            ),
    {
        let t = self.avatar_table(ind);
        let order = ranked_of(&t);
        let ghost vals = lift(t@);
        let ghost bad = is_offender(self.edges@, vals, ind);
        let mut res: Vec<usize> = Vec::new();
        let mut i: usize = 0;
        while i < order.len()
            invariant
                i <= order@.len(),
                vals == lift(t@),
                bad == is_offender(self.edges@, vals, ind),
                edges_in_range(self.edges@, t@.len() as nat),
                forall|k: int| 0 <= k < order@.len() ==> #[trigger] order@[k] < t@.len(),
                res@ == order@.take(i as int).filter(bad),
            decreases order@.len() - i,
        {
            proof {
                reveal(Seq::filter);
                assert(order@.take(i + 1).drop_last() == order@.take(i as int));
            }
            let j = order[i];
            if j != ind && self.offends(&t, j) {
                res.push(j);
            }
            i += 1;
        }
        proof {
            assert(order@.take(i as int) == order@);
        }
        res
    }
}

} // verus!
