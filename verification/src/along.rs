//! Walks from one vertex towards another that never lead further away from
//! the target than the walk began.

use crate::distance::shortest_table;
use crate::distance::spans;
use crate::graph::Graph;
use crate::paths::adjacent;
use crate::paths::edges_in_range;
use crate::paths::lemma_neighbors_adjacent;
use crate::paths::lemma_neighbors_in_range;
use crate::paths::neighbors;
use crate::paths::shortest_distance;
use crate::sequences::chosen;
use crate::sequences::lemma_chosen;
use crate::sequences::lemma_chosen_agree;
use crate::sequences::lemma_chosen_all;
use crate::tables::lift;
use vstd::prelude::*;

verus! {

/// A walk towards `b` that began at `a` may go on from `u` to `v`: `u` is
/// not the target itself, an edge joins the two, and `v` is no further
/// from the target than `a`.
pub open spec fn leads_on(
    edges: Seq<(usize, usize)>,
    a: usize,
    b: usize,
    u: usize,
    v: usize,
) -> bool {
    u != b && adjacent(edges, u, v) && shortest_distance(edges, b, v) <= shortest_distance(
        edges,
        b,
        a,
    )
}

/// `v` is visited by some walk of at most `k` steps from `a` towards `b`.
pub open spec fn drifts(
    edges: Seq<(usize, usize)>,
    a: usize,
    b: usize,
    v: usize,
    k: nat,
) -> bool
    decreases k,
{
    if k == 0 {
        v == a
    } else {
        drifts(edges, a, b, v, (k - 1) as nat) || exists|u: usize|
            drifts(edges, a, b, u, (k - 1) as nat) && #[trigger] leads_on(edges, a, b, u, v)
    }
}

/// Whether a vertex is visited by some walk from `a` towards `b`.
pub open spec fn visits(edges: Seq<(usize, usize)>, a: usize, b: usize) -> spec_fn(usize) -> bool {
    |v: usize| exists|k: nat| drifts(edges, a, b, v, k)
}

/// Whether every one of the `n` vertices is visited by some walk from `a`
/// towards `b`, where distances to `b` are complete and `a` is a vertex.
pub open spec fn all_visited(edges: Seq<(usize, usize)>, n: nat, a: usize, b: usize) -> bool {
    &&& spans(edges, n, b)
    &&& a < n
    &&& forall|v: usize| v < n ==> #[trigger] visits(edges, a, b)(v)
}

/// The marks of a table of flags.
pub open spec fn flagged(flags: Seq<bool>) -> spec_fn(usize) -> bool {
    |v: usize| v < flags.len() && flags[v as int]
}

/// The number of flags that are not set.
pub open spec fn unset(flags: Seq<bool>) -> nat
    decreases flags.len(),
{
    if flags.len() == 0 {
        0
    } else {
        unset(flags.drop_last()) + if flags.last() {
            0nat
        } else {
            1nat
        }
    }
}

/// Setting a flag that was not set leaves one unset flag less.
proof fn lemma_unset_update(flags: Seq<bool>, v: int)
    requires
        0 <= v < flags.len(),
        !flags[v],
    ensures
        unset(flags.update(v, true)) + 1 == unset(flags),
    decreases flags.len(),
{
    let after = flags.update(v, true);
    if v == flags.len() - 1 {
        assert(after.drop_last() == flags.drop_last());
    } else {
        assert(after.drop_last() == flags.drop_last().update(v, true));
        lemma_unset_update(flags.drop_last(), v);
    }
}

/// A set of vertices that holds `a` and is closed under the steps that a
/// walk towards `b` may take holds every vertex that such a walk visits.
pub proof fn lemma_closed_set_holds_drift(
    edges: Seq<(usize, usize)>,
    a: usize,
    b: usize,
    marked: spec_fn(usize) -> bool,
    v: usize,
    k: nat,
)
    requires
        marked(a),
        forall|u: usize, w: usize| marked(u) && #[trigger] leads_on(edges, a, b, u, w) ==> marked(w),
        drifts(edges, a, b, v, k),
    ensures
        marked(v),
    decreases k,
{
    if k > 0 {
        if drifts(edges, a, b, v, (k - 1) as nat) {
            lemma_closed_set_holds_drift(edges, a, b, marked, v, (k - 1) as nat);
        } else {
            let u = choose|u: usize|
                drifts(edges, a, b, u, (k - 1) as nat) && #[trigger] leads_on(edges, a, b, u, v);
            lemma_closed_set_holds_drift(edges, a, b, marked, u, (k - 1) as nat);
        }
    }
}

/// Every neighbor of `u` that a walk may go on to from `u` is flagged.
pub open spec fn spread_from(
    edges: Seq<(usize, usize)>,
    a: usize,
    b: usize,
    flags: Seq<bool>,
    u: usize,
) -> bool {
    forall|x: int|
        0 <= x < neighbors(edges, u).len() && leads_on(
            edges,
            a,
            b,
            u,
            #[trigger] neighbors(edges, u)[x],
        ) ==> flags[neighbors(edges, u)[x] as int]
}

impl Graph {
    /// Lists the nodes that can be visited on a walk from `a` towards `b`
    /// that never steps to a node further from `b` than `a` is, and never
    /// steps on from `b`. The nodes come in ascending order.
    ///
    /// Returns `Err` where distances to `b` are not complete, or where `a`
    /// is no node of the graph.
    pub fn along(&self, a: usize, b: usize) -> (r: Result<Vec<usize>, ()>)
        requires
            self.wf(),
            b < self.nodes@.len(),
        ensures
            r is Ok <==> spans(self.edges@, self.nodes@.len(), b) && a < self.nodes@.len(),
            r matches Ok(list) ==> list@ == chosen(self.nodes@.len(), visits(self.edges@, a, b)),
    {
        let n = self.nodes.len();
        let ghost edges = self.edges@;
        let (d, complete) = self.distance_table(b);
        if !complete || a >= n {
            return Err(());
        }
        let max_dist = match d[a] {
            Some(x) => x,
            None => {
                return Err(());
            },
        };
        proof {
            assert forall|v: int| 0 <= v < n implies #[trigger] d@[v] == Some(
                shortest_distance(edges, b, v as usize) as u64,
            ) && shortest_distance(edges, b, v as usize) <= u64::MAX by {
                assert(lift(d@)[v] == shortest_table(edges, n as nat, b)[v]);
            }
        }
        let mut reached: Vec<bool> = Vec::new();
        let mut v: usize = 0;
        while v < n
            invariant
                v <= n,
                a < n,
                reached@.len() == v,
                forall|u: int| 0 <= u < v ==> #[trigger] reached@[u] == (u == a),
            decreases n - v,
        {
            reached.push(v == a);
            v += 1;
        }
        let mut at: Vec<usize> = Vec::new();
        at.push(a);
        proof {
            assert(drifts(edges, a, b, a, 0));
            assert(at@[0] == a);
        }
        let mut i: usize = 0;
        while i < at.len()
            invariant
                i <= at@.len(),
                a < n,
                b < n,
                reached@.len() == n,
                d@.len() == n,
                edges == self.edges@,
                edges_in_range(edges, n as nat),
                d@[a as int] == Some(max_dist),
                forall|v: int|
                    0 <= v < n ==> #[trigger] d@[v] == Some(
                        shortest_distance(edges, b, v as usize) as u64,
                    ) && shortest_distance(edges, b, v as usize) <= u64::MAX,
                reached@[a as int],
                forall|x: int| 0 <= x < at@.len() ==> #[trigger] at@[x] < n && reached@[at@[x] as int],
                forall|v: usize| v < n && #[trigger] reached@[v as int] ==> at@.contains(v),
                forall|v: usize| v < n && #[trigger] reached@[v as int] ==> visits(edges, a, b)(v),
                forall|x: int| 0 <= x < i ==> spread_from(edges, a, b, reached@, #[trigger] at@[x]),
            decreases 2 * unset(reached@) + at@.len() - i,
        {
            let j = at[i];
            let ghost start = 2 * unset(reached@) + at@.len();
            if j != b {
                let nbrs = self.edges_of(j);
                proof {
                    lemma_neighbors_in_range(edges, n as nat, j);
                }
                let mut k: usize = 0;
                while k < nbrs.len()
                    invariant
                        k <= nbrs@.len(),
                        i < at@.len(),
                        j == at@[i as int],
                        j != b,
                        a < n,
                        b < n,
                        reached@.len() == n,
                        d@.len() == n,
                        edges == self.edges@,
                        edges_in_range(edges, n as nat),
                        nbrs@ == neighbors(edges, j),
                        forall|x: int| 0 <= x < nbrs@.len() ==> #[trigger] nbrs@[x] < n,
                        d@[a as int] == Some(max_dist),
                        forall|v: int|
                            0 <= v < n ==> #[trigger] d@[v] == Some(
                                shortest_distance(edges, b, v as usize) as u64,
                            ) && shortest_distance(edges, b, v as usize) <= u64::MAX,
                        reached@[a as int],
                        forall|x: int|
                            0 <= x < at@.len() ==> #[trigger] at@[x] < n && reached@[at@[x] as int],
                        forall|v: usize| v < n && #[trigger] reached@[v as int] ==> at@.contains(v),
                        forall|v: usize|
                            v < n && #[trigger] reached@[v as int] ==> visits(edges, a, b)(v),
                        forall|x: int|
                            0 <= x < i ==> spread_from(edges, a, b, reached@, #[trigger] at@[x]),
                        forall|x: int|
                            0 <= x < k && leads_on(edges, a, b, j, #[trigger] nbrs@[x])
                                ==> reached@[nbrs@[x] as int],
                        2 * unset(reached@) + at@.len() <= start,
                    decreases nbrs@.len() - k,
                {
                    let e = nbrs[k];
                    if !reached[e] {
                        let near = match d[e] {
                            Some(x) => x <= max_dist,
                            None => false,
                        };
                        if near {
                            proof {
                                let flags = reached@;
                                let more = flags.update(e as int, true);
                                lemma_unset_update(flags, e as int);
                                lemma_neighbors_adjacent(edges, j, e);
                                assert(leads_on(edges, a, b, j, e));
                                let steps = choose|steps: nat| drifts(edges, a, b, j, steps);
                                assert(drifts(edges, a, b, e, steps + 1));
                                assert forall|v: usize| v < n && #[trigger] more[v as int] implies at@.push(
                                    e,
                                ).contains(v) by {
                                    if v == e {
                                        assert(at@.push(e)[at@.len() as int] == e);
                                    } else {
                                        let x = choose|x: int| 0 <= x < at@.len() && at@[x] == v;
                                        assert(at@.push(e)[x] == v);
                                    }
                                }
                            }
                            reached.set(e, true);
                            at.push(e);
                        }
                    }
                    k += 1;
                }
            }
            i += 1;
        }
        let mut list: Vec<usize> = Vec::new();
        let mut v: usize = 0;
        while v < n
            invariant
                v <= n,
                reached@.len() == n,
                list@ == chosen(v as nat, flagged(reached@)),
            decreases n - v,
        {
            if reached[v] {
                list.push(v);
            }
            v += 1;
        }
        proof {
            let marked = flagged(reached@);
            assert forall|u: usize, w: usize| marked(u) && #[trigger] leads_on(
                edges,
                a,
                b,
                u,
                w,
            ) implies marked(w) by {
                lemma_neighbors_adjacent(edges, u, w);
            }
            assert forall|u: usize| u < n implies #[trigger] marked(u) == visits(edges, a, b)(u) by {
                if visits(edges, a, b)(u) {
                    let steps = choose|steps: nat| drifts(edges, a, b, u, steps);
                    lemma_closed_set_holds_drift(edges, a, b, marked, u, steps);
                }
            }
            lemma_chosen_agree(n as nat, marked, visits(edges, a, b));
        }
        Ok(list)
    }

    /// Whether every node is visited on some walk from `a` towards `b` of
    /// the kind that `along` follows.
    pub fn all_reachable_along(&self, a: usize, b: usize) -> (all: bool)
        requires
            self.wf(),
            b < self.nodes@.len(),
        ensures
            all == all_visited(self.edges@, self.nodes@.len(), a, b),
    {
        let n = self.nodes.len();
        match self.along(a, b) {
            Ok(list) => {
                proof {
                    lemma_chosen(n as nat, visits(self.edges@, a, b));
                    if forall|v: usize| v < n ==> #[trigger] visits(self.edges@, a, b)(v) {
                        lemma_chosen_all(n as nat, visits(self.edges@, a, b));
                    }
                }
                if list.len() != n {
                    return false;
                }
                let mut v: usize = 0;
                while v < n
                    invariant
                        v <= n,
                        n == self.nodes@.len(),
                        list@.len() == n,
                        forall|u: int| 0 <= u < v ==> #[trigger] list@[u] == u,
                        all_visited(self.edges@, n as nat, a, b) ==> forall|u: int|
                            0 <= u < n ==> #[trigger] list@[u] == u,
                    decreases n - v,
                {
                    if list[v] != v {
                        return false;
                    }
                    v += 1;
                }
                proof {
                    assert forall|u: usize| u < n implies #[trigger] visits(self.edges@, a, b)(u) by {
                        assert(list@[u as int] == u);
                        assert(list@.contains(u));
                    }
                }
                true
            },
            Err(_) => false,
        }
    }
}

} // verus!
