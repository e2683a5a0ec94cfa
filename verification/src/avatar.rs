//! Avatar distances: distance numbers raised to the sum of what the
//! children of a vertex hold, taken in an order that lets vertices with
//! many children go first among those equally far from the source.

use crate::distance::distance_values;
use crate::distance::lemma_distance_values;
use crate::graph::Graph;
use crate::paths::edges_in_range;
use crate::paths::lemma_neighbors_in_range;
use crate::paths::neighbors;
use crate::sequences::ascending;
use crate::sequences::lemma_sort_seq_ascends;
use crate::sequences::lemma_sort_seq_keeps;
use crate::sequences::lemma_sum_over_agree;
use crate::sequences::lemma_sum_over_grows;
use crate::sequences::lemma_sum_over_zero;
use crate::sequences::sort_by;
use crate::sequences::sort_seq;
use crate::sequences::strict_total_on;
use crate::sequences::sum_over;
use crate::tables::fits;
use crate::tables::lemma_lift_update;
use crate::tables::lemma_listing_entries;
use crate::tables::lemma_present;
use crate::tables::lift;
use crate::tables::list_of;
use crate::tables::listing;
use crate::tables::present;
use crate::tables::present_of;
use crate::tables::value_at;
use vstd::prelude::*;

verus! {

/// `e` stands in front of `j` when the vertices are put in order by their
/// distance number and, where that is equal, by their index.
pub open spec fn precedes(dvals: Seq<Option<nat>>, e: usize, j: usize) -> bool {
    e < dvals.len() && j < dvals.len() && match (dvals[e as int], dvals[j as int]) {
        (Some(de), Some(dj)) => de < dj || (de == dj && e < j),
        _ => false,
    }
}

/// One for a vertex that stands in front of `j`, zero for any other.
pub open spec fn counts_as_child(dvals: Seq<Option<nat>>, j: usize) -> spec_fn(usize) -> nat {
    |e: usize|
        if precedes(dvals, e, j) {
            1nat
        } else {
            0nat
        }
}

/// The number of children of `j`: its neighbors that stand in front of it.
pub open spec fn child_count(edges: Seq<(usize, usize)>, dvals: Seq<Option<nat>>, j: usize) -> nat {
    sum_over(neighbors(edges, j), counts_as_child(dvals, j))
}

/// The order in which avatar distances are worked out: by distance number,
/// then the vertex with more children first, then by index.
pub open spec fn ranks_before(edges: Seq<(usize, usize)>, dvals: Seq<Option<nat>>) -> spec_fn(
    usize,
    usize,
) -> bool {
    |a: usize, b: usize|
        {
            let da = value_at(dvals, a as int);
            let db = value_at(dvals, b as int);
            let ca = child_count(edges, dvals, a);
            let cb = child_count(edges, dvals, b);
            da < db || (da == db && (ca > cb || (ca == cb && a < b)))
        }
}

/// The vertices that have a distance number, in the order in which their
/// avatar distances are worked out.
pub open spec fn processing_order(edges: Seq<(usize, usize)>, dvals: Seq<Option<nat>>) -> Seq<
    usize,
> {
    sort_seq(present(dvals), ranks_before(edges, dvals))
}

/// What a child contributes to the avatar distance of its parent: the
/// number it holds, or one where it holds zero.
pub open spec fn share(x: nat) -> nat {
    if x == 0 {
        1
    } else {
        x
    }
}

/// What a neighbor contributes: its share where it was worked out earlier,
/// nothing otherwise.
pub open spec fn gain(earlier: Seq<usize>, vals: Seq<Option<nat>>) -> spec_fn(usize) -> nat {
    |e: usize|
        if earlier.contains(e) {
            share(value_at(vals, e as int))
        } else {
            0nat
        }
}

/// The table after the first `i` vertices of `order` were worked out: each
/// in turn is raised to the sum of the gains from its neighbors, where that
/// exceeds the number it holds.
pub open spec fn gather(
    edges: Seq<(usize, usize)>,
    order: Seq<usize>,
    vals: Seq<Option<nat>>,
    i: nat,
) -> Seq<Option<nat>>
    decreases i,
{
    if i == 0 || i > order.len() {
        vals
    } else {
        let prev = gather(edges, order, vals, (i - 1) as nat);
        let j = order[i - 1];
        let sum = sum_over(neighbors(edges, j), gain(order.take(i - 1), prev));
        let held = value_at(prev, j as int);
        prev.update(
            j as int,
            Some(
                if sum > held {
                    sum
                } else {
                    held
                },
            ),
        )
    }
}

/// The avatar distances from `src` of the vertices that have a distance
/// number.
pub open spec fn avatar_values(edges: Seq<(usize, usize)>, n: nat, src: usize) -> Seq<Option<nat>> {
    let dvals = distance_values(edges, n, src);
    let order = processing_order(edges, dvals);
    gather(edges, order, dvals, order.len())
}

/// Every avatar distance from `src` fits a machine word.
pub open spec fn avatar_fits(edges: Seq<(usize, usize)>, n: nat, src: usize) -> bool {
    fits(avatar_values(edges, n, src))
}

/// Working out more vertices keeps the length of the table and lowers no
/// number in it.
pub proof fn lemma_gather_grows(
    edges: Seq<(usize, usize)>,
    order: Seq<usize>,
    vals: Seq<Option<nat>>,
    i: nat,
    m: nat,
)
    requires
        i <= m <= order.len(),
        forall|k: int| 0 <= k < order.len() ==> #[trigger] order[k] < vals.len(),
    ensures
        gather(edges, order, vals, i).len() == vals.len(),
        gather(edges, order, vals, m).len() == vals.len(),
        forall|v: int|
            0 <= v < vals.len() ==> value_at(gather(edges, order, vals, i), v) <= #[trigger] value_at(
                gather(edges, order, vals, m),
                v,
            ),
    decreases m,
{
    if m > 0 {
        let fewer = (m - 1) as nat;
        if i < m {
            lemma_gather_grows(edges, order, vals, i, fewer);
        } else {
            lemma_gather_grows(edges, order, vals, fewer, fewer);
        }
        let prev = gather(edges, order, vals, fewer);
        let next = gather(edges, order, vals, m);
        assert forall|v: int| 0 <= v < vals.len() implies value_at(prev, v) <= #[trigger] value_at(
            next,
            v,
        ) by {}
    }
}

/// The order in which avatar distances are worked out is a strict total
/// order of the vertices.
pub proof fn lemma_ranks_total(edges: Seq<(usize, usize)>, dvals: Seq<Option<nat>>, s: Seq<usize>)
    ensures
        strict_total_on(s, ranks_before(edges, dvals)),
{
}

/// The processing order names the vertices that have a distance number,
/// each once, and every vertex in it ranks before all that follow it.
pub proof fn lemma_processing_order(edges: Seq<(usize, usize)>, dvals: Seq<Option<nat>>)
    requires
        dvals.len() <= usize::MAX,
    ensures
        processing_order(edges, dvals).no_duplicates(),
        forall|v: usize|
            #[trigger] processing_order(edges, dvals).contains(v) <==> v < dvals.len()
                && dvals[v as int] is Some,
        ascending(processing_order(edges, dvals), ranks_before(edges, dvals)),
{
    lemma_present(dvals);
    lemma_sort_seq_keeps(present(dvals), ranks_before(edges, dvals));
    lemma_sort_seq_ascends(present(dvals), ranks_before(edges, dvals));
    assert forall|v: usize| #[trigger]
        processing_order(edges, dvals).contains(v) <==> v < dvals.len()
            && dvals[v as int] is Some by {
        assert(processing_order(edges, dvals).contains(v) <==> present(dvals).contains(v));
    }
}

/// A vertex keeps its number while other vertices are worked out.
pub proof fn lemma_gather_frame(
    edges: Seq<(usize, usize)>,
    order: Seq<usize>,
    vals: Seq<Option<nat>>,
    i: nat,
    m: nat,
    v: int,
)
    requires
        i <= m <= order.len(),
        0 <= v < vals.len(),
        forall|k: int| 0 <= k < order.len() ==> #[trigger] order[k] < vals.len(),
        forall|k: int| i <= k < m ==> #[trigger] order[k] != v,
    ensures
        gather(edges, order, vals, m)[v] == gather(edges, order, vals, i)[v],
    decreases m,
{
    if i < m {
        let fewer = (m - 1) as nat;
        lemma_gather_frame(edges, order, vals, i, fewer, v);
        lemma_gather_grows(edges, order, vals, fewer, fewer);
    }
}

/// The avatar distance of a vertex is the sum of the shares of its
/// children, that is of its neighbors that are worked out before it, or
/// its distance number where that is larger. A child shares the avatar
/// distance that it ends up with, or one where that is zero.
pub proof fn lemma_avatar_value(edges: Seq<(usize, usize)>, n: nat, src: usize, i: int)
    requires
        edges_in_range(edges, n),
        src < n,
        n <= usize::MAX,
        0 <= i < processing_order(edges, distance_values(edges, n, src)).len(),
    ensures
        ({
            let dvals = distance_values(edges, n, src);
            let order = processing_order(edges, dvals);
            let vals = avatar_values(edges, n, src);
            let j = order[i];
            let sum = sum_over(neighbors(edges, j), gain(order.take(i), vals));
            let held = value_at(dvals, j as int);
            j < n && vals[j as int] == Some(
                if sum > held {
                    sum
                } else {
                    held
                },
            )
        }),
{
    let dvals = distance_values(edges, n, src);
    let order = processing_order(edges, dvals);
    let vals = avatar_values(edges, n, src);
    let j = order[i];
    let len = order.len();
    lemma_distance_values(edges, n, src);
    lemma_processing_order(edges, dvals);
    assert forall|k: int| 0 <= k < len implies #[trigger] order[k] < dvals.len() by {
        assert(order.contains(order[k]));
    }
    let before = gather(edges, order, dvals, i as nat);
    lemma_gather_grows(edges, order, dvals, i as nat, (i + 1) as nat);
    lemma_gather_frame(edges, order, dvals, 0, i as nat, j as int);
    lemma_gather_frame(edges, order, dvals, (i + 1) as nat, len, j as int);
    let earlier = order.take(i);
    assert forall|x: int| 0 <= x < neighbors(edges, j).len() implies gain(earlier, before)(
        #[trigger] neighbors(edges, j)[x],
    ) == gain(earlier, vals)(neighbors(edges, j)[x]) by {
        let e = neighbors(edges, j)[x];
        if earlier.contains(e) {
            let k = choose|k: int| 0 <= k < earlier.len() && earlier[k] == e;
            lemma_gather_frame(edges, order, dvals, (k + 1) as nat, i as nat, e as int);
            lemma_gather_frame(edges, order, dvals, (k + 1) as nat, len, e as int);
        }
    }
    lemma_sum_over_agree(neighbors(edges, j), gain(earlier, before), gain(earlier, vals));
}

/// Avatar distances are given to the vertices that have a distance number
/// and are not below it, and the avatar distance of the source is zero.
pub proof fn lemma_avatar_values(edges: Seq<(usize, usize)>, n: nat, src: usize)
    requires
        edges_in_range(edges, n),
        src < n,
        n <= usize::MAX,
    ensures
        avatar_values(edges, n, src).len() == n,
        avatar_values(edges, n, src)[src as int] == Some(0nat),
        forall|v: int|
            0 <= v < n ==> (#[trigger] avatar_values(edges, n, src)[v] is Some <==> distance_values(
                edges,
                n,
                src,
            )[v] is Some),
        forall|v: int|
            0 <= v < n ==> value_at(distance_values(edges, n, src), v) <= #[trigger] value_at(
                avatar_values(edges, n, src),
                v,
            ),
{
    let dvals = distance_values(edges, n, src);
    let order = processing_order(edges, dvals);
    let vals = avatar_values(edges, n, src);
    let len = order.len();
    lemma_distance_values(edges, n, src);
    lemma_processing_order(edges, dvals);
    assert forall|k: int| 0 <= k < len implies #[trigger] order[k] < dvals.len() by {
        assert(order.contains(order[k]));
    }
    lemma_gather_grows(edges, order, dvals, 0, len);
    assert forall|v: int| 0 <= v < n implies (#[trigger] vals[v] is Some <==> dvals[v] is Some) by {
        if order.contains(v as usize) {
            let k = choose|k: int| 0 <= k < len && order[k] == v as usize;
            lemma_avatar_value(edges, n, src, k);
        } else {
            lemma_gather_frame(edges, order, dvals, 0, len, v);
        }
    }
    assert(order.contains(src));
    lemma_avatar_value(edges, n, src, 0);
    lemma_sum_over_zero(neighbors(edges, src), gain(order.take(0), vals));
}

impl Graph {
    /// Counts the children of `j`.
    fn count_children(&self, dt: &Vec<Option<u64>>, j: usize) -> (count: usize)
        requires
            edges_in_range(self.edges@, dt@.len() as nat),
            j < dt@.len(),
        ensures
            count == child_count(self.edges@, lift(dt@), j),
    {
        let nbrs = self.edges_of(j);
        let ghost f = counts_as_child(lift(dt@), j);
        proof {
            lemma_neighbors_in_range(self.edges@, dt@.len() as nat, j);
        }
        let mut count: usize = 0;
        let mut i: usize = 0;
        while i < nbrs.len()
            invariant
                i <= nbrs@.len(),
                j < dt@.len(),
                f == counts_as_child(lift(dt@), j),
                forall|k: int| 0 <= k < nbrs@.len() ==> #[trigger] nbrs@[k] < dt@.len(),
                count == sum_over(nbrs@.take(i as int), f),
                count <= i,
            decreases nbrs@.len() - i,
        {
            proof {
                assert(nbrs@.take(i + 1).drop_last() == nbrs@.take(i as int));
            }
            let e = nbrs[i];
            match (dt[e], dt[j]) {
                (Some(de), Some(dj)) => {
                    if de < dj || (de == dj && e < j) {
                        count += 1;
                    }
                },
                _ => {},
            }
            i += 1;
        }
        proof {
            assert(nbrs@.take(i as int) == nbrs@);
        }
        count
    }

    /// The table of avatar distances from `ind`, where they fit.
    fn try_avatar_table(&self, ind: usize) -> (r: Option<Vec<Option<u64>>>)
        requires
            edges_in_range(self.edges@, self.nodes@.len()),
            ind < self.nodes@.len(),
        ensures
            r is Some <==> avatar_fits(self.edges@, self.nodes@.len(), ind),
            r matches Some(t) ==> t@.len() == self.nodes@.len() && lift(t@) == avatar_values(
                self.edges@,
                self.nodes@.len(),
                ind,
            ),
    {
        let n = self.nodes.len();
        let ghost edges = self.edges@;
        let (dt, _) = self.distance_table(ind);
        let ghost dvals = lift(dt@);
        let mut counts: Vec<usize> = Vec::new();
        let mut j: usize = 0;
        while j < n
            invariant
                j <= n,
                dt@.len() == n,
                edges == self.edges@,
                edges_in_range(edges, n as nat),
                dvals == lift(dt@),
                counts@.len() == j,
                forall|k: int|
                    0 <= k < j ==> #[trigger] counts@[k] == child_count(edges, dvals, k as usize),
            decreases n - j,
        {
            let c = self.count_children(&dt, j);
            counts.push(c);
            j += 1;
        }
        let waiting = present_of(&dt);
        proof {
            lemma_present(dvals);
        }
        let comes_before = |a: usize, b: usize| -> (out: bool)
            requires
                a < dt@.len(),
                b < dt@.len(),
                counts@.len() == dt@.len(),
                dt@[a as int] is Some,
                dt@[b as int] is Some,
                forall|k: int|
                    0 <= k < dt@.len() ==> #[trigger] counts@[k] == child_count(
                        self.edges@,
                        lift(dt@),
                        k as usize,
                    ),
            ensures
                out == ranks_before(self.edges@, lift(dt@))(a, b),
            {
                match (dt[a], dt[b]) {
                    (Some(da), Some(db)) => {
                        da < db || (da == db && (counts[a] > counts[b] || (counts[a] == counts[b]
                            && a < b)))
                    },
                    _ => false,
                }
            };
        proof {
            assert forall|i: int, k: int|
                0 <= i < waiting@.len() && 0 <= k < waiting@.len() implies call_requires(
                comes_before,
                (#[trigger] waiting@[i], #[trigger] waiting@[k]),
            ) by {
                assert(waiting@.contains(waiting@[i]));
                assert(waiting@.contains(waiting@[k]));
            }
        }
        let order = sort_by(&waiting, comes_before, Ghost(ranks_before(edges, dvals)));
        proof {
            lemma_sort_seq_keeps(waiting@, ranks_before(edges, dvals));
            assert(order@ == processing_order(edges, dvals));
            assert forall|k: int| 0 <= k < order@.len() implies #[trigger] order@[k] < n
                && dvals[order@[k] as int] is Some by {
                assert(order@.contains(order@[k]));
                assert(waiting@.contains(order@[k]));
            }
        }
        let mut vals = dt;
        let mut done: Vec<bool> = Vec::new();
        let mut v: usize = 0;
        while v < n
            invariant
                v <= n,
                done@.len() == v,
                forall|k: int| 0 <= k < v ==> !#[trigger] done@[k],
            decreases n - v,
        {
            done.push(false);
            v += 1;
        }
        let mut i: usize = 0;
        while i < order.len()
            invariant
                i <= order@.len(),
                vals@.len() == n,
                done@.len() == n,
                dvals.len() == n,
                edges == self.edges@,
                edges_in_range(edges, n as nat),
                order@ == processing_order(edges, dvals),
                dvals == distance_values(edges, n as nat, ind),
                n == self.nodes@.len(),
                forall|k: int|
                    0 <= k < order@.len() ==> #[trigger] order@[k] < n && dvals[order@[k] as int] is Some,
                forall|u: usize| u < n ==> (#[trigger] done@[u as int] <==> order@.take(i as int).contains(u)),
                lift(vals@) == gather(edges, order@, dvals, i as nat),
            decreases order@.len() - i,
        {
            let j = order[i];
            let nbrs = self.edges_of(j);
            let ghost earlier = order@.take(i as int);
            let ghost prev = lift(vals@);
            let ghost f = gain(earlier, prev);
            let ghost next = gather(edges, order@, dvals, (i + 1) as nat);
            proof {
                lemma_neighbors_in_range(edges, n as nat, j);
                lemma_gather_grows(edges, order@, dvals, (i + 1) as nat, order@.len());
                let last = gather(edges, order@, dvals, order@.len());
                assert(last == avatar_values(edges, n as nat, ind));
                assert(last.len() == n);
                assert(value_at(next, j as int) <= value_at(last, j as int));
                assert(sum_over(nbrs@, f) <= value_at(next, j as int));
            }
            let mut sum: u64 = 0;
            let mut k: usize = 0;
            while k < nbrs.len()
                invariant
                    k <= nbrs@.len(),
                    vals@.len() == n,
                    done@.len() == n,
                    prev == lift(vals@),
                    f == gain(earlier, prev),
                    forall|x: int| 0 <= x < nbrs@.len() ==> #[trigger] nbrs@[x] < n,
                    forall|u: usize| u < n ==> (#[trigger] done@[u as int] <==> earlier.contains(u)),
                    sum == sum_over(nbrs@.take(k as int), f),
                    j < n,
                    edges == self.edges@,
                    n == self.nodes@.len(),
                    avatar_values(edges, n as nat, ind).len() == n,
                    sum_over(nbrs@, f) <= value_at(avatar_values(edges, n as nat, ind), j as int),
                decreases nbrs@.len() - k,
            {
                proof {
                    assert(nbrs@.take(k + 1).drop_last() == nbrs@.take(k as int));
                    lemma_sum_over_grows(nbrs@, f, k + 1);
                }
                let e = nbrs[k];
                if done[e] {
                    let held = match vals[e] {
                        Some(m) => m,
                        None => 0,
                    };
                    let part = if held == 0 {
                        1
                    } else {
                        held
                    };
                    match sum.checked_add(part) {
                        Some(more) => {
                            sum = more;
                        },
                        None => {
                            proof {
                                assert(value_at(avatar_values(edges, n as nat, ind), j as int)
                                    > u64::MAX);
                            }
                            return None;
                        },
                    }
                }
                k += 1;
            }
            proof {
                assert(nbrs@.take(k as int) == nbrs@);
            }
            let held = match vals[j] {
                Some(m) => m,
                None => 0,
            };
            let raised = if sum > held {
                sum
            } else {
                held
            };
            proof {
                lemma_lift_update(vals@, j as int, raised);
                assert(order@.take(i + 1).drop_last() == earlier);
                assert forall|u: usize| u < n implies (#[trigger] done@.update(j as int, true)[u as int]
                    <==> order@.take(i + 1).contains(u)) by {
                    let longer = order@.take(i + 1);
                    if earlier.contains(u) {
                        let x = choose|x: int| 0 <= x < earlier.len() && earlier[x] == u;
                        assert(longer[x] == u);
                    }
                    if u == j {
                        assert(longer[i as int] == u);
                    }
                    if longer.contains(u) {
                        let x = choose|x: int| 0 <= x < longer.len() && longer[x] == u;
                        if x < i {
                            assert(earlier[x] == u);
                        }
                    }
                }
            }
            vals.set(j, Some(raised));
            done.set(j, true);
            i += 1;
        }
        proof {
            assert forall|v: int| 0 <= v < lift(vals@).len() implies #[trigger] value_at(
                lift(vals@),
                v,
            ) <= u64::MAX by {}
        }
        Some(vals)
    }

    /// The table of avatar distances from `ind`.
    pub(crate) fn avatar_table(&self, ind: usize) -> (r: Vec<Option<u64>>)
        requires
            edges_in_range(self.edges@, self.nodes@.len()),
            ind < self.nodes@.len(),
            avatar_fits(self.edges@, self.nodes@.len(), ind),
        ensures
            r@.len() == self.nodes@.len(),
            lift(r@) == avatar_values(self.edges@, self.nodes@.len(), ind),
    {
        match self.try_avatar_table(ind) {
            Some(t) => t,
            None => unreached(),
        }
    }

    /// Whether every avatar distance from `ind` fits a machine word, which
    /// is what the functions that work with avatar distances ask for.
    pub fn avatar_distances_fit(&self, ind: usize) -> (fit: bool)
        requires
            self.wf(),
            ind < self.nodes@.len(),
        ensures
            fit == avatar_fits(self.edges@, self.nodes@.len(), ind),
    {
        self.try_avatar_table(ind).is_some()
    }

    /// Gives every node that has a distance number its avatar distance
    /// from `ind`, as pairs `(node, avatar distance)` by ascending node.
    pub fn avatar_distance(&self, ind: usize) -> (r: Vec<(usize, u64)>)
        requires
            self.wf(),
            ind < self.nodes@.len(),
            avatar_fits(self.edges@, self.nodes@.len(), ind),
        ensures
            r@ == listing(avatar_values(self.edges@, self.nodes@.len(), ind)),
            r@.contains((ind, 0u64)),
            forall|k: int, m: int| 0 <= k < m < r@.len() ==> (#[trigger] r@[k]).0 < (#[trigger] r@[m]).0,
            forall|k: int|
                0 <= k < r@.len() ==> (#[trigger] r@[k]).0 < self.nodes@.len() && avatar_values(
                    self.edges@,
                    self.nodes@.len(),
                    ind,
                )[r@[k].0 as int] == Some(r@[k].1 as nat),
    {
        let table = self.avatar_table(ind);
        let list = list_of(&table);
        let size = table.len();
        proof {
            let vals = lift(table@);
            lemma_listing_entries(vals);
            lemma_avatar_values(self.edges@, size as nat, ind);
        }
        list
    }
}

} // verus!
