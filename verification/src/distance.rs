//! Shortest distances from a source vertex.
//!
//! Distances are found in two phases. The first places vertices one by one,
//! each next to a neighbor that is already placed; it tells whether every
//! vertex can be reached, and where some cannot, its numbers are what is
//! reported. The second phase lowers the numbers until no edge offers a
//! shortcut, which leaves the shortest distances.

use crate::graph::Graph;
use crate::paths::adjacent;
use crate::paths::connected_from;
use crate::paths::edges_in_range;
use crate::paths::is_distance;
use crate::paths::lemma_adjacent_symmetric;
use crate::paths::lemma_closed_set_holds_reach;
use crate::paths::lemma_distance_exists;
use crate::paths::lemma_distance_to_self;
use crate::paths::lemma_distance_unique;
use crate::paths::lemma_labels_bound_steps;
use crate::paths::lemma_neighbors_adjacent;
use crate::paths::lemma_neighbors_in_range;
use crate::paths::neighbors;
use crate::paths::reachable;
use crate::paths::shortest_distance;
use crate::paths::within;
use crate::tables::fits;
use crate::tables::is_full;
use crate::tables::lemma_lift_update;
use crate::tables::lemma_listing_entries;
use crate::tables::lemma_listing_full;
use crate::tables::lemma_total_update;
use crate::tables::lift;
use crate::tables::list_of;
use crate::tables::listing;
use crate::tables::total;
use crate::tables::value_at;
use vstd::prelude::*;

verus! {

/// The smallest number that `est` gives to one of `nbrs`, if it gives any.
pub open spec fn nearest(est: Seq<Option<nat>>, nbrs: Seq<usize>) -> Option<nat>
    decreases nbrs.len(),
{
    if nbrs.len() == 0 {
        None
    } else {
        let rest = nearest(est, nbrs.drop_last());
        let e = nbrs.last() as int;
        if e < est.len() {
            match (est[e], rest) {
                (Some(d), Some(m)) => if d < m {
                    Some(d)
                } else {
                    Some(m)
                },
                (Some(d), None) => Some(d),
                (None, _) => rest,
            }
        } else {
            rest
        }
    }
}

/// The table in which only the source has a number, zero.
pub open spec fn start_table(n: nat, src: usize) -> Seq<Option<nat>> {
    Seq::new(
        n,
        |v: int|
            if v == src {
                Some(0nat)
            } else {
                None
            },
    )
}

/// All vertices below `n` but `src`, ascending.
pub open spec fn others(n: nat, src: usize) -> Seq<usize> {
    Seq::new(
        if n == 0 {
            0nat
        } else {
            (n - 1) as nat
        },
        |i: int|
            if i < src {
                i as usize
            } else {
                (i + 1) as usize
            },
    )
}

/// `pending` without the entry at `i`, whose place the last entry takes.
pub open spec fn take_out(pending: Seq<usize>, i: int) -> Seq<usize> {
    pending.update(i, pending.last()).drop_last()
}

/// One sweep over the first `i` waiting vertices, from the last of them to
/// the first: a vertex with a placed neighbor is placed one step further
/// than its nearest placed neighbor, and leaves the waiting list.
pub open spec fn scan(
    edges: Seq<(usize, usize)>,
    est: Seq<Option<nat>>,
    pending: Seq<usize>,
    i: nat,
) -> (Seq<Option<nat>>, Seq<usize>)
    decreases i,
{
    if i == 0 || i > pending.len() {
        (est, pending)
    } else {
        let j = pending[i - 1];
        match nearest(est, neighbors(edges, j)) {
            Some(m) => scan(
                edges,
                est.update(j as int, Some(m + 1)),
                take_out(pending, i - 1),
                (i - 1) as nat,
            ),
            None => scan(edges, est, pending, (i - 1) as nat),
        }
    }
}

/// Sweeps until a sweep places nothing.
pub open spec fn settle(edges: Seq<(usize, usize)>, est: Seq<Option<nat>>, pending: Seq<usize>) -> (
    Seq<Option<nat>>,
    Seq<usize>,
)
    decreases pending.len(),
{
    let next = scan(edges, est, pending, pending.len());
    if next.1.len() < pending.len() {
        settle(edges, next.0, next.1)
    } else {
        (est, pending)
    }
}

/// The numbers that the first phase gives to the vertices within reach of
/// `src`. They are lengths of walks from `src`, not always of shortest ones.
pub open spec fn estimates(edges: Seq<(usize, usize)>, n: nat, src: usize) -> Seq<Option<nat>> {
    settle(edges, start_table(n, src), others(n, src)).0
}

/// Whether distances from `src` count as complete: the graph has a second
/// vertex and every vertex can be reached from `src`. A lone vertex is
/// reported like a vertex cut off from the rest.
pub open spec fn spans(edges: Seq<(usize, usize)>, n: nat, src: usize) -> bool {
    n >= 2 && connected_from(edges, n, src)
}

/// The table of shortest distances from `src`.
pub open spec fn shortest_table(edges: Seq<(usize, usize)>, n: nat, src: usize) -> Seq<
    Option<nat>,
> {
    Seq::new(n, |v: int| Some(shortest_distance(edges, src, v as usize)))
}

/// The distance numbers on which everything else builds: shortest
/// distances where they are complete, the first phase's numbers otherwise.
pub open spec fn distance_values(edges: Seq<(usize, usize)>, n: nat, src: usize) -> Seq<
    Option<nat>,
> {
    if spans(edges, n, src) {
        shortest_table(edges, n, src)
    } else {
        estimates(edges, n, src)
    }
}

/// What holds of the table and the waiting list throughout the first phase.
pub open spec fn settling(
    edges: Seq<(usize, usize)>,
    n: nat,
    src: usize,
    est: Seq<Option<nat>>,
    pending: Seq<usize>,
) -> bool {
    &&& est.len() == n
    &&& n <= usize::MAX
    &&& src < n
    &&& est[src as int] == Some(0nat)
    &&& pending.no_duplicates()
    &&& forall|i: int|
        0 <= i < pending.len() ==> #[trigger] pending[i] < n && est[pending[i] as int] is None
    &&& forall|v: int| 0 <= v < n && #[trigger] est[v] is None ==> pending.contains(v as usize)
    &&& forall|v: int|
        0 <= v < n ==> (#[trigger] est[v] matches Some(d) ==> d + pending.len() < n && within(
            edges,
            src,
            v as usize,
            d,
        ) && (d == 0 ==> v == src))
}

/// No waiting vertex has a placed neighbor.
pub open spec fn stuck(edges: Seq<(usize, usize)>, est: Seq<Option<nat>>, pending: Seq<usize>) -> bool {
    forall|i: int|
        0 <= i < pending.len() ==> nearest(est, neighbors(edges, #[trigger] pending[i])) is None
}

/// A table of walk lengths from `src` that has a number for every vertex.
pub open spec fn walked(edges: Seq<(usize, usize)>, n: nat, src: usize, vals: Seq<Option<nat>>) -> bool {
    &&& vals.len() == n
    &&& src < n
    &&& is_full(vals)
    &&& vals[src as int] == Some(0nat)
    &&& forall|v: int|
        0 <= v < n ==> #[trigger] value_at(vals, v) < n && within(
            edges,
            src,
            v as usize,
            value_at(vals, v),
        )
}

/// No neighbor of `j` offers `j` a shorter way.
pub open spec fn no_shortcut(edges: Seq<(usize, usize)>, vals: Seq<Option<nat>>, j: usize) -> bool {
    forall|i: int|
        0 <= i < neighbors(edges, j).len() ==> value_at(vals, j as int) <= value_at(
            vals,
            #[trigger] neighbors(edges, j)[i] as int,
        ) + 1
}

/// `nearest` finds nothing exactly where no neighbor has a number, and what
/// it finds is the number of a neighbor.
pub proof fn lemma_nearest(est: Seq<Option<nat>>, nbrs: Seq<usize>)
    ensures
        nearest(est, nbrs) is None <==> forall|i: int|
            0 <= i < nbrs.len() ==> !(#[trigger] nbrs[i] < est.len() && est[nbrs[i] as int] is Some),
        nearest(est, nbrs) matches Some(m) ==> exists|i: int|
            0 <= i < nbrs.len() && #[trigger] nbrs[i] < est.len() && est[nbrs[i] as int] == Some(m),
    decreases nbrs.len(),
{
    if nbrs.len() > 0 {
        let front = nbrs.drop_last();
        lemma_nearest(est, front);
        let e = nbrs.last();
        assert(nbrs[nbrs.len() - 1] == e);
        assert forall|i: int| 0 <= i < front.len() implies front[i] == nbrs[i] by {}
        if nearest(est, nbrs) is None {
            assert forall|i: int| 0 <= i < nbrs.len() implies !(#[trigger] nbrs[i] < est.len()
                && est[nbrs[i] as int] is Some) by {
                if i < front.len() {
                    assert(front[i] == nbrs[i]);
                }
            }
        }
        match nearest(est, nbrs) {
            Some(m) => {
                if !(e < est.len() && est[e as int] == Some(m)) {
                    let i = choose|i: int|
                        0 <= i < front.len() && #[trigger] front[i] < est.len()
                            && est[front[i] as int] == Some(m);
                    assert(nbrs[i] == front[i]);
                }
            },
            None => {},
        }
    }
}

/// The first phase starts in a state of the kind it maintains.
proof fn lemma_start_settling(edges: Seq<(usize, usize)>, n: nat, src: usize)
    requires
        src < n,
        n <= usize::MAX,
    ensures
        settling(edges, n, src, start_table(n, src), others(n, src)),
{
    let est = start_table(n, src);
    let pending = others(n, src);
    assert forall|v: int| 0 <= v < n && #[trigger] est[v] is None implies pending.contains(
        v as usize,
    ) by {
        if v < src {
            assert(pending[v] == v as usize);
        } else {
            assert(pending[v - 1] == v as usize);
        }
    }
}

/// Placing a waiting vertex next to its nearest placed neighbor keeps the
/// state of the first phase in order.
proof fn lemma_place_keeps_settling(
    edges: Seq<(usize, usize)>,
    n: nat,
    src: usize,
    est: Seq<Option<nat>>,
    pending: Seq<usize>,
    i: int,
    m: nat,
)
    requires
        settling(edges, n, src, est, pending),
        0 <= i < pending.len(),
        nearest(est, neighbors(edges, pending[i])) == Some(m),
    ensures
        settling(edges, n, src, est.update(pending[i] as int, Some(m + 1)), take_out(pending, i)),
        m + pending.len() < n,
{
    let j = pending[i];
    let nbrs = neighbors(edges, j);
    let est2 = est.update(j as int, Some(m + 1));
    let pending2 = take_out(pending, i);
    let last = pending.len() - 1;
    lemma_nearest(est, nbrs);
    let x = choose|x: int|
        0 <= x < nbrs.len() && #[trigger] nbrs[x] < est.len() && est[nbrs[x] as int] == Some(m);
    let e = nbrs[x];
    lemma_neighbors_adjacent(edges, j, e);
    lemma_adjacent_symmetric(edges, j, e);
    assert forall|v: int| 0 <= v < n && #[trigger] est2[v] is None implies pending2.contains(
        v as usize,
    ) by {
        let q = choose|q: int| 0 <= q < pending.len() && pending[q] == v as usize;
        if q == last {
            assert(pending2[i] == pending[last]);
        } else {
            assert(pending2[q] == pending[q]);
        }
    }
    assert forall|v: int| 0 <= v < n implies (#[trigger] est2[v] matches Some(d) ==> d
        + pending2.len() < n && within(edges, src, v as usize, d) && (d == 0 ==> v == src)) by {}
}

/// A sweep keeps the state of the first phase in order and lets no vertex
/// join the waiting list.
pub proof fn lemma_scan_keeps_settling(
    edges: Seq<(usize, usize)>,
    n: nat,
    src: usize,
    est: Seq<Option<nat>>,
    pending: Seq<usize>,
    i: nat,
)
    requires
        settling(edges, n, src, est, pending),
        i <= pending.len(),
    ensures
        settling(edges, n, src, scan(edges, est, pending, i).0, scan(edges, est, pending, i).1),
        scan(edges, est, pending, i).1.len() <= pending.len(),
    decreases i,
{
    if i > 0 {
        let j = pending[i - 1];
        match nearest(est, neighbors(edges, j)) {
            Some(m) => {
                lemma_place_keeps_settling(edges, n, src, est, pending, i - 1, m);
                lemma_scan_keeps_settling(
                    edges,
                    n,
                    src,
                    est.update(j as int, Some(m + 1)),
                    take_out(pending, i - 1),
                    (i - 1) as nat,
                );
            },
            None => {
                lemma_scan_keeps_settling(edges, n, src, est, pending, (i - 1) as nat);
            },
        }
    }
}

/// The first phase ends in a state of the kind it maintains.
pub proof fn lemma_settle_keeps_settling(
    edges: Seq<(usize, usize)>,
    n: nat,
    src: usize,
    est: Seq<Option<nat>>,
    pending: Seq<usize>,
)
    requires
        settling(edges, n, src, est, pending),
    ensures
        settling(edges, n, src, settle(edges, est, pending).0, settle(edges, est, pending).1),
    decreases pending.len(),
{
    let next = scan(edges, est, pending, pending.len());
    lemma_scan_keeps_settling(edges, n, src, est, pending, pending.len());
    if next.1.len() < pending.len() {
        lemma_settle_keeps_settling(edges, n, src, next.0, next.1);
    }
}

/// A sweep that takes no vertex off the waiting list changes nothing, and
/// none of the vertices it looked at has a placed neighbor.
pub proof fn lemma_idle_scan(
    edges: Seq<(usize, usize)>,
    n: nat,
    src: usize,
    est: Seq<Option<nat>>,
    pending: Seq<usize>,
    i: nat,
)
    requires
        settling(edges, n, src, est, pending),
        i <= pending.len(),
        scan(edges, est, pending, i).1.len() == pending.len(),
    ensures
        scan(edges, est, pending, i) == (est, pending),
        forall|k: int| 0 <= k < i ==> nearest(est, neighbors(edges, #[trigger] pending[k])) is None,
    decreases i,
{
    if i > 0 {
        let j = pending[i - 1];
        match nearest(est, neighbors(edges, j)) {
            Some(m) => {
                lemma_place_keeps_settling(edges, n, src, est, pending, i - 1, m);
                lemma_scan_keeps_settling(
                    edges,
                    n,
                    src,
                    est.update(j as int, Some(m + 1)),
                    take_out(pending, i - 1),
                    (i - 1) as nat,
                );
            },
            None => {
                lemma_idle_scan(edges, n, src, est, pending, (i - 1) as nat);
            },
        }
    }
}

/// When the first phase ends, no waiting vertex has a placed neighbor.
pub proof fn lemma_settle_ends_stuck(
    edges: Seq<(usize, usize)>,
    n: nat,
    src: usize,
    est: Seq<Option<nat>>,
    pending: Seq<usize>,
)
    requires
        settling(edges, n, src, est, pending),
    ensures
        stuck(edges, settle(edges, est, pending).0, settle(edges, est, pending).1),
    decreases pending.len(),
{
    let next = scan(edges, est, pending, pending.len());
    lemma_scan_keeps_settling(edges, n, src, est, pending, pending.len());
    if next.1.len() < pending.len() {
        lemma_settle_ends_stuck(edges, n, src, next.0, next.1);
    } else {
        lemma_idle_scan(edges, n, src, est, pending, pending.len());
    }
}

/// Where no waiting vertex has a placed neighbor, the placed vertices are
/// those that can be reached from the source.
pub proof fn lemma_stuck_means_reached(
    edges: Seq<(usize, usize)>,
    n: nat,
    src: usize,
    est: Seq<Option<nat>>,
    pending: Seq<usize>,
)
    requires
        edges_in_range(edges, n),
        settling(edges, n, src, est, pending),
        stuck(edges, est, pending),
    ensures
        forall|v: usize| v < n ==> (#[trigger] est[v as int] is Some <==> reachable(edges, src, v)),
{
    let marked = |u: usize| u < n && est[u as int] is Some;
    assert forall|u: usize, w: usize| marked(u) && #[trigger] adjacent(edges, u, w) implies marked(
        w,
    ) by {
        let x = choose|x: int|
            0 <= x < edges.len() && (#[trigger] edges[x] == (u, w) || edges[x] == (w, u));
        assert(edges[x].0 < n && edges[x].1 < n);
        if est[w as int] is None {
            assert(pending.contains(w));
            let q = choose|q: int| 0 <= q < pending.len() && pending[q] == w;
            assert(nearest(est, neighbors(edges, pending[q])) is None);
            lemma_nearest(est, neighbors(edges, w));
            lemma_adjacent_symmetric(edges, u, w);
            lemma_neighbors_adjacent(edges, w, u);
            let y = choose|y: int| 0 <= y < neighbors(edges, w).len() && neighbors(edges, w)[y] == u;
            assert(!(neighbors(edges, w)[y] < est.len() && est[neighbors(edges, w)[y] as int] is Some));
        }
    }
    assert forall|v: usize| v < n implies (#[trigger] est[v as int] is Some <==> reachable(
        edges,
        src,
        v,
    )) by {
        if reachable(edges, src, v) {
            let k = choose|k: nat| within(edges, src, v, k);
            lemma_closed_set_holds_reach(edges, src, marked, v, k);
        }
        match est[v as int] {
            Some(d) => {
                assert(within(edges, src, v, d));
            },
            None => {},
        }
    }
}

/// The distance numbers from `src` are lengths of walks from `src`, given
/// to the vertices that can be reached from `src`. They stay below the
/// number of vertices, and zero is the number of `src` alone.
pub proof fn lemma_distance_values(edges: Seq<(usize, usize)>, n: nat, src: usize)
    requires
        edges_in_range(edges, n),
        src < n,
        n <= usize::MAX,
    ensures
        forall|v: usize|
            v < n ==> (#[trigger] distance_values(edges, n, src)[v as int] is Some <==> reachable(
                edges,
                src,
                v,
            )),
        forall|v: int|
            0 <= v < n ==> #[trigger] value_at(distance_values(edges, n, src), v) < n,
        distance_values(edges, n, src).len() == n,
        distance_values(edges, n, src)[src as int] == Some(0nat),
        forall|v: int|
            0 <= v < n ==> (#[trigger] distance_values(edges, n, src)[v] matches Some(d) ==> within(
                edges,
                src,
                v as usize,
                d,
            ) && (d == 0 ==> v == src)),
        spans(edges, n, src) ==> is_full(distance_values(edges, n, src)),
{
    lemma_start_settling(edges, n, src);
    lemma_settle_keeps_settling(edges, n, src, start_table(n, src), others(n, src));
    lemma_settle_ends_stuck(edges, n, src, start_table(n, src), others(n, src));
    let last = settle(edges, start_table(n, src), others(n, src));
    lemma_stuck_means_reached(edges, n, src, last.0, last.1);
    if spans(edges, n, src) {
        lemma_distance_to_self(edges, src);
        assert forall|v: int| 0 <= v < n implies (#[trigger] distance_values(
            edges,
            n,
            src,
        )[v] matches Some(d) ==> within(edges, src, v as usize, d) && (d == 0 ==> v == src)) by {
            let u = v as usize;
            assert(reachable(edges, src, u));
            let k = choose|k: nat| within(edges, src, u, k);
            lemma_distance_exists(edges, src, u, k);
        }
        assert forall|v: int| 0 <= v < n implies #[trigger] value_at(
            distance_values(edges, n, src),
            v,
        ) < n by {
            let u = v as usize;
            let d = value_at(last.0, v);
            lemma_distance_exists(edges, src, u, d);
        }
    } else {
        assert forall|v: int| 0 <= v < n implies #[trigger] value_at(
            distance_values(edges, n, src),
            v,
        ) < n by {}
    }
}

impl Graph {
    /// Finds the smallest number that `est` gives to one of `nbrs`.
    fn nearest_placed(est: &Vec<Option<u64>>, nbrs: &Vec<usize>) -> (min: Option<u64>)
        requires
            forall|i: int| 0 <= i < nbrs@.len() ==> #[trigger] nbrs@[i] < est@.len(),
        ensures
            match min {
                Some(m) => nearest(lift(est@), nbrs@) == Some(m as nat),
                None => nearest(lift(est@), nbrs@) is None,
            },
    {
        let mut min: Option<u64> = None;
        let mut i: usize = 0;
        while i < nbrs.len()
            invariant
                i <= nbrs@.len(),
                forall|i: int| 0 <= i < nbrs@.len() ==> #[trigger] nbrs@[i] < est@.len(),
                match min {
                    Some(m) => nearest(lift(est@), nbrs@.take(i as int)) == Some(m as nat),
                    None => nearest(lift(est@), nbrs@.take(i as int)) is None,
                },
            decreases nbrs@.len() - i,
        {
            proof {
                assert(nbrs@.take(i + 1).drop_last() == nbrs@.take(i as int));
            }
            let e = nbrs[i];
            match est[e] {
                Some(d) => {
                    match min {
                        Some(m) => {
                            if d < m {
                                min = Some(d);
                            }
                        },
                        None => {
                            min = Some(d);
                        },
                    }
                },
                None => {},
            }
            i += 1;
        }
        proof {
            assert(nbrs@.take(i as int) == nbrs@);
        }
        min
    }

    /// Sweeps once over the waiting vertices, from the last to the first.
    fn sweep(&self, est: &mut Vec<Option<u64>>, pending: &mut Vec<usize>, src: usize) -> (found: bool)
        requires
            edges_in_range(self.edges@, old(est)@.len() as nat),
            settling(self.edges@, old(est)@.len() as nat, src, lift(old(est)@), old(pending)@),
        ensures
            final(est)@.len() == old(est)@.len(),
            settling(self.edges@, old(est)@.len() as nat, src, lift(final(est)@), final(pending)@),
            (lift(final(est)@), final(pending)@) == scan(
                self.edges@,
                lift(old(est)@),
                old(pending)@,
                old(pending)@.len(),
            ),
            found <==> final(pending)@.len() < old(pending)@.len(),
    {
        let ghost n = est@.len() as nat;
        let ghost est0 = lift(est@);
        let ghost pending0 = pending@;
        let mut found = false;
        let mut i: usize = pending.len();
        while i > 0
            invariant
                est@.len() == n,
                i <= pending@.len(),
                pending@.len() <= pending0.len(),
                edges_in_range(self.edges@, n),
                settling(self.edges@, n, src, lift(est@), pending@),
                scan(self.edges@, lift(est@), pending@, i as nat) == scan(
                    self.edges@,
                    est0,
                    pending0,
                    pending0.len(),
                ),
                found <==> pending@.len() < pending0.len(),
            decreases i,
        {
            i -= 1;
            let j = pending[i];
            let nbrs = self.edges_of(j);
            proof {
                lemma_neighbors_in_range(self.edges@, n, j);
            }
            let min = Self::nearest_placed(est, &nbrs);
            match min {
                Some(m) => {
                    proof {
                        lemma_place_keeps_settling(
                            self.edges@,
                            n,
                            src,
                            lift(est@),
                            pending@,
                            i as int,
                            m as nat,
                        );
                        lemma_lift_update(est@, j as int, (m + 1) as u64);
                    }
                    est.set(j, Some(m + 1));
                    pending.swap_remove(i);
                    found = true;
                },
                None => {},
            }
        }
        found
    }

    /// Lowers numbers along edges that offer a shortcut, once over all
    /// vertices and their neighbors.
    fn relax_pass(&self, d: &mut Vec<Option<u64>>, src: usize) -> (changed: bool)
        requires
            edges_in_range(self.edges@, old(d)@.len() as nat),
            walked(self.edges@, old(d)@.len() as nat, src, lift(old(d)@)),
        ensures
            final(d)@.len() == old(d)@.len(),
            walked(self.edges@, old(d)@.len() as nat, src, lift(final(d)@)),
            changed ==> total(lift(final(d)@)) < total(lift(old(d)@)),
            !changed ==> final(d)@ == old(d)@,
            !changed ==> forall|j: usize|
                j < old(d)@.len() ==> no_shortcut(self.edges@, lift(final(d)@), j),
    {
        let n = d.len();
        let ghost d0 = d@;
        let mut changed = false;
        let mut j: usize = 0;
        while j < n
            invariant
                d@.len() == n,
                j <= n,
                edges_in_range(self.edges@, n as nat),
                walked(self.edges@, n as nat, src, lift(d@)),
                changed ==> total(lift(d@)) < total(lift(d0)),
                !changed ==> d@ == d0,
                !changed ==> forall|k: usize| k < j ==> no_shortcut(self.edges@, lift(d@), k),
            decreases n - j,
        {
            let nbrs = self.edges_of(j);
            proof {
                lemma_neighbors_in_range(self.edges@, n as nat, j);
            }
            let mut i: usize = 0;
            while i < nbrs.len()
                invariant
                    d@.len() == n,
                    j < n,
                    i <= nbrs@.len(),
                    nbrs@ == neighbors(self.edges@, j),
                    forall|k: int| 0 <= k < nbrs@.len() ==> #[trigger] nbrs@[k] < n,
                    edges_in_range(self.edges@, n as nat),
                    walked(self.edges@, n as nat, src, lift(d@)),
                    changed ==> total(lift(d@)) < total(lift(d0)),
                    !changed ==> d@ == d0,
                    !changed ==> forall|k: usize| k < j ==> no_shortcut(self.edges@, lift(d@), k),
                    !changed ==> forall|k: int|
                        0 <= k < i ==> value_at(lift(d@), j as int) <= value_at(
                            lift(d@),
                            #[trigger] nbrs@[k] as int,
                        ) + 1,
                decreases nbrs@.len() - i,
            {
                let e = nbrs[i];
                match (d[j], d[e]) {
                    (Some(dj), Some(de)) => {
                        proof {
                            assert(value_at(lift(d@), e as int) == de);
                        }
                        if dj > de + 1 {
                            proof {
                                let vals = lift(d@);
                                let next = vals.update(j as int, Some((de + 1) as nat));
                                lemma_lift_update(d@, j as int, (de + 1) as u64);
                                lemma_total_update(vals, j as int, (de + 1) as nat);
                                lemma_neighbors_adjacent(self.edges@, j, e);
                                lemma_adjacent_symmetric(self.edges@, j, e);
                                assert forall|v: int| 0 <= v < n implies #[trigger] value_at(next, v)
                                    < n && within(
                                    self.edges@,
                                    src,
                                    v as usize,
                                    value_at(next, v),
                                ) by {
                                    if v != j {
                                        assert(value_at(next, v) == value_at(vals, v));
                                    }
                                }
                                assert forall|v: int| 0 <= v < n implies #[trigger] next[v] is Some by {}
                            }
                            d.set(j, Some(de + 1));
                            changed = true;
                        }
                    },
                    _ => {},
                }
                i += 1;
            }
            j += 1;
        }
        changed
    }

    /// The table of distance numbers from `ind`, and whether they are
    /// complete.
    pub(crate) fn distance_table(&self, ind: usize) -> (r: (Vec<Option<u64>>, bool))
        requires
            edges_in_range(self.edges@, self.nodes@.len()),
            ind < self.nodes@.len(),
        ensures
            r.0@.len() == self.nodes@.len(),
            lift(r.0@) == distance_values(self.edges@, self.nodes@.len(), ind),
            r.1 == spans(self.edges@, self.nodes@.len(), ind),
            r.0@[ind as int] == Some(0u64),
            forall|v: int|
                0 <= v < r.0@.len() ==> (#[trigger] r.0@[v] matches Some(d) ==> d < r.0@.len()),
            forall|v: usize|
                v < r.0@.len() ==> (#[trigger] r.0@[v as int] is Some <==> reachable(
                    self.edges@,
                    ind,
                    v,
                )),
    {
        let n = self.nodes.len();
        let ghost edges = self.edges@;
        let mut est: Vec<Option<u64>> = Vec::new();
        let mut pending: Vec<usize> = Vec::new();
        let mut v: usize = 0;
        while v < n
            invariant
                v <= n,
                ind < n,
                est@.len() == v,
                forall|u: int|
                    0 <= u < v ==> #[trigger] est@[u] == (if u == ind {
                        Some(0u64)
                    } else {
                        None
                    }),
                pending@.len() == (if v <= ind {
                    v as int
                } else {
                    v - 1
                }),
                forall|i: int|
                    0 <= i < pending@.len() ==> #[trigger] pending@[i] == (if i < ind {
                        i as usize
                    } else {
                        (i + 1) as usize
                    }),
            decreases n - v,
        {
            if v == ind {
                est.push(Some(0));
            } else {
                est.push(None);
                pending.push(v);
            }
            v += 1;
        }
        proof {
            assert(lift(est@) =~= start_table(n as nat, ind));
            assert(pending@ =~= others(n as nat, ind));
            lemma_start_settling(edges, n as nat, ind);
        }
        let mut found = true;
        while found && pending.len() > 0
            invariant
                est@.len() == n,
                edges == self.edges@,
                edges_in_range(edges, n as nat),
                settling(edges, n as nat, ind, lift(est@), pending@),
                settle(edges, lift(est@), pending@) == settle(
                    edges,
                    start_table(n as nat, ind),
                    others(n as nat, ind),
                ),
                !found ==> settle(edges, lift(est@), pending@) == (lift(est@), pending@),
            decreases pending@.len(), found as int,
        {
            let ghost before = (lift(est@), pending@);
            found = self.sweep(&mut est, &mut pending, ind);
            proof {
                let next = scan(edges, before.0, before.1, before.1.len());
                assert(next.0 == lift(est@) && next.1 == pending@);
                if found {
                    assert(settle(edges, before.0, before.1) == settle(edges, next.0, next.1));
                } else {
                    lemma_scan_keeps_settling(
                        edges,
                        n as nat,
                        ind,
                        before.0,
                        before.1,
                        before.1.len(),
                    );
                    lemma_idle_scan(edges, n as nat, ind, before.0, before.1, before.1.len());
                    assert(settle(edges, before.0, before.1) == before);
                }
            }
        }
        let ghost vals = lift(est@);
        proof {
            assert(settle(edges, vals, pending@) == (vals, pending@));
            assert(vals == estimates(edges, n as nat, ind));
            lemma_start_settling(edges, n as nat, ind);
            lemma_settle_ends_stuck(
                edges,
                n as nat,
                ind,
                start_table(n as nat, ind),
                others(n as nat, ind),
            );
            lemma_stuck_means_reached(edges, n as nat, ind, vals, pending@);
            assert forall|u: usize| u < n implies (#[trigger] est@[u as int] is Some <==> reachable(
                edges,
                ind,
                u,
            )) by {
                assert(vals[u as int] is Some <==> est@[u as int] is Some);
            }
            if pending@.len() > 0 {
                let p = pending@[0];
                assert(vals[p as int] is None);
                assert(!reachable(edges, ind, p));
            } else {
                assert forall|u: usize| u < n implies reachable(edges, ind, u) by {
                    if vals[u as int] is None {
                        assert(pending@.contains(u));
                    }
                }
            }
        }
        if pending.len() > 0 || n < 2 {
            proof {
                assert forall|u: int| 0 <= u < n implies (#[trigger] est@[u] matches Some(d) ==> d
                    < n) by {
                    assert(vals[u] is Some ==> value_at(vals, u) + pending@.len() < n);
                }
            }
            return (est, false);
        }
        proof {
            assert(is_full(vals)) by {
                assert forall|u: int| 0 <= u < vals.len() implies #[trigger] vals[u] is Some by {
                    if vals[u] is None {
                        assert(pending@.contains(u as usize));
                    }
                }
            }
            assert(walked(edges, n as nat, ind, vals)) by {
                assert forall|u: int| 0 <= u < n implies #[trigger] value_at(vals, u) < n && within(
                    edges,
                    ind,
                    u as usize,
                    value_at(vals, u),
                ) by {
                    assert(vals[u] is Some);
                }
            }
        }
        let mut changed = true;
        while changed
            invariant
                est@.len() == n,
                edges == self.edges@,
                edges_in_range(edges, n as nat),
                walked(edges, n as nat, ind, lift(est@)),
                !changed ==> forall|j: usize| j < n ==> no_shortcut(edges, lift(est@), j),
            decreases total(lift(est@)), changed as int,
        {
            changed = self.relax_pass(&mut est, ind);
        }
        proof {
            let low = lift(est@);
            let label = |u: usize|
                if u < n {
                    value_at(low, u as int)
                } else {
                    0nat
                };
            assert forall|u: usize, w: usize| #[trigger] adjacent(edges, u, w) implies label(w)
                <= label(u) + 1 by {
                let x = choose|x: int|
                    0 <= x < edges.len() && (#[trigger] edges[x] == (u, w) || edges[x] == (w, u));
                assert(edges[x].0 < n && edges[x].1 < n);
                lemma_adjacent_symmetric(edges, u, w);
                lemma_neighbors_adjacent(edges, w, u);
                let y = choose|y: int| 0 <= y < neighbors(edges, w).len() && neighbors(edges, w)[y] == u;
                assert(no_shortcut(edges, low, w));
                assert(value_at(low, w as int) <= value_at(low, neighbors(edges, w)[y] as int) + 1);
            }
            assert forall|u: int| 0 <= u < n implies #[trigger] low[u] == Some(
                shortest_distance(edges, ind, u as usize),
            ) by {
                let d = value_at(low, u);
                assert(low[u] is Some);
                assert(within(edges, ind, u as usize, d));
                assert forall|k: nat| k < d implies !(#[trigger] within(edges, ind, u as usize, k)) by {
                    if within(edges, ind, u as usize, k) {
                        lemma_labels_bound_steps(edges, ind, label, u as usize, k);
                    }
                }
                assert(is_distance(edges, ind, u as usize, d));
                lemma_distance_unique(edges, ind, u as usize, d);
            }
            assert(low =~= shortest_table(edges, n as nat, ind));
            assert forall|u: int| 0 <= u < n implies (#[trigger] est@[u] matches Some(d) ==> d < n) by {
                assert(value_at(low, u) < n);
            }
            assert forall|u: usize| u < n implies (#[trigger] est@[u as int] is Some <==> reachable(
                edges,
                ind,
                u,
            )) by {
                assert(low[u as int] is Some);
            }
        }
        (est, true)
    }

    /// Gives every node its distance from `ind`.
    ///
    /// Returns `Ok` with one pair `(node, distance)` per node, by ascending
    /// node, where the graph has at least two nodes and all of them can be
    /// reached from `ind`. Otherwise returns `Err` with the pairs of the
    /// nodes that can be reached, by ascending node and with the numbers of
    /// the first phase. A graph of one node is reported in the second way.
    pub fn distance(&self, ind: usize) -> (r: Result<Vec<(usize, u64)>, Vec<(usize, u64)>>)
        requires
            self.wf(),
            ind < self.nodes@.len(),
        ensures
            r is Ok <==> spans(self.edges@, self.nodes@.len(), ind),
            r matches Ok(d) ==> d@.len() == self.nodes@.len() && d@[ind as int] == (ind, 0u64)
                && forall|v: int|
                0 <= v < d@.len() ==> #[trigger] d@[v] == (
                    v as usize,
                    shortest_distance(self.edges@, ind, v as usize) as u64,
                ),
            r matches Err(d) ==> d@ == listing(estimates(self.edges@, self.nodes@.len(), ind))
                && d@.contains((ind, 0u64)) && (forall|k: int, m: int|
                0 <= k < m < d@.len() ==> (#[trigger] d@[k]).0 < (#[trigger] d@[m]).0) && (forall|
                v: usize,
            |
                v < self.nodes@.len() ==> (reachable(self.edges@, ind, v) <==> exists|k: int|
                    0 <= k < d@.len() && (#[trigger] d@[k]).0 == v)),
    {
        let (table, complete) = self.distance_table(ind);
        let list = list_of(&table);
        let size = table.len();
        if complete {
            proof {
                lemma_listing_full(lift(table@));
                lemma_distance_to_self(self.edges@, ind);
            }
            Ok(list)
        } else {
            proof {
                let vals = lift(table@);
                let n = self.nodes@.len();
                assert(vals.len() == size);
                assert(fits(vals)) by {
                    assert forall|v: int| 0 <= v < vals.len() implies #[trigger] value_at(vals, v)
                        <= u64::MAX by {
                        assert(table@[v] matches Some(d) ==> d < n);
                    }
                }
                lemma_listing_entries(vals);
                assert(vals[ind as int] == Some(0nat));
                assert(value_at(vals, ind as int) == 0);
                let at = choose|k: int|
                    0 <= k < list@.len() && #[trigger] list@[k] == (
                        ind,
                        value_at(vals, ind as int) as u64,
                    );
                assert(list@[at] == (ind, 0u64));
                assert forall|v: usize| v < n implies (reachable(self.edges@, ind, v) <==> exists|
                    k: int,
                | 0 <= k < list@.len() && (#[trigger] list@[k]).0 == v) by {
                    if reachable(self.edges@, ind, v) {
                        assert(table@[v as int] is Some);
                        assert(vals[v as int] is Some);
                        let k = choose|k: int|
                            0 <= k < list@.len() && #[trigger] list@[k] == (
                                v,
                                value_at(vals, v as int) as u64,
                            );
                        assert(list@[k].0 == v);
                    }
                    if exists|k: int| 0 <= k < list@.len() && (#[trigger] list@[k]).0 == v {
                        let k = choose|k: int| 0 <= k < list@.len() && (#[trigger] list@[k]).0 == v;
                        assert(vals[list@[k].0 as int] is Some);
                        assert(table@[v as int] is Some);
                    }
                }
            }
            Err(list)
        }
    }
}

} // verus!
