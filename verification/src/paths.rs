//! Adjacency, reachability and shortest distance, as mathematical notions
//! over an edge list.

use vstd::prelude::*;

verus! {

/// Every endpoint of every edge is smaller than `n`.
pub open spec fn edges_in_range(edges: Seq<(usize, usize)>, n: nat) -> bool {
    forall|i: int| 0 <= i < edges.len() ==> (#[trigger] edges[i]).0 < n && edges[i].1 < n
}

/// Some edge joins `a` and `b`, in either orientation.
pub open spec fn adjacent(edges: Seq<(usize, usize)>, a: usize, b: usize) -> bool {
    exists|i: int| 0 <= i < edges.len() && (#[trigger] edges[i] == (a, b) || edges[i] == (b, a))
}

/// The far endpoints of the edges that touch `v`, in edge order. An edge
/// whose first endpoint is `v` contributes its second endpoint and the other
/// way round, so a loop at `v` contributes `v` twice.
pub open spec fn neighbors(edges: Seq<(usize, usize)>, v: usize) -> Seq<usize>
    decreases edges.len(),
{
    if edges.len() == 0 {
        Seq::empty()
    } else {
        let rest = neighbors(edges.drop_last(), v);
        let e = edges.last();
        let forward = if e.0 == v {
            rest.push(e.1)
        } else {
            rest
        };
        if e.1 == v {
            forward.push(e.0)
        } else {
            forward
        }
    }
}

/// `v` can be reached from `s` by walking along at most `k` edges.
pub open spec fn within(edges: Seq<(usize, usize)>, s: usize, v: usize, k: nat) -> bool
    decreases k,
{
    if k == 0 {
        v == s
    } else {
        within(edges, s, v, (k - 1) as nat) || exists|u: usize|
            within(edges, s, u, (k - 1) as nat) && #[trigger] adjacent(edges, u, v)
    }
}

/// `v` can be reached from `s` by some walk.
pub open spec fn reachable(edges: Seq<(usize, usize)>, s: usize, v: usize) -> bool {
    exists|k: nat| within(edges, s, v, k)
}

/// Every one of the `n` vertices can be reached from `s`.
pub open spec fn connected_from(edges: Seq<(usize, usize)>, n: nat, s: usize) -> bool {
    forall|v: usize| v < n ==> reachable(edges, s, v)
}

/// `k` is the length of a shortest walk from `s` to `v`.
pub open spec fn is_distance(edges: Seq<(usize, usize)>, s: usize, v: usize, k: nat) -> bool {
    within(edges, s, v, k) && forall|j: nat| j < k ==> !within(edges, s, v, j)
}

/// The length of a shortest walk from `s` to `v`; meaningful where `v` is
/// reachable from `s`.
pub open spec fn shortest_distance(edges: Seq<(usize, usize)>, s: usize, v: usize) -> nat {
    choose|k: nat| is_distance(edges, s, v, k)
}

/// Adjacency does not depend on the orientation of the question.
pub proof fn lemma_adjacent_symmetric(edges: Seq<(usize, usize)>, a: usize, b: usize)
    ensures
        adjacent(edges, a, b) == adjacent(edges, b, a),
{
}

/// The neighbor list of `v` holds exactly the vertices adjacent to `v`.
pub proof fn lemma_neighbors_adjacent(edges: Seq<(usize, usize)>, v: usize, w: usize)
    ensures
        neighbors(edges, v).contains(w) <==> adjacent(edges, v, w),
    decreases edges.len(),
{
    if edges.len() == 0 {
        assert(!neighbors(edges, v).contains(w));
    } else {
        let front = edges.drop_last();
        let e = edges.last();
        lemma_neighbors_adjacent(front, v, w);
        let rest = neighbors(front, v);
        let forward = if e.0 == v {
            rest.push(e.1)
        } else {
            rest
        };
        let all = neighbors(edges, v);
        let hit = e == (v, w) || e == (w, v);
        assert(all.contains(w) <==> rest.contains(w) || hit) by {
            if rest.contains(w) {
                let i = choose|i: int| 0 <= i < rest.len() && rest[i] == w;
                assert(forward[i] == w);
                assert(all[i] == w);
            }
            if hit {
                if e.0 == v && e.1 == w {
                    assert(forward[rest.len() as int] == w);
                    assert(all[rest.len() as int] == w);
                } else {
                    assert(all[all.len() - 1] == w);
                }
            }
            if all.contains(w) {
                let i = choose|i: int| 0 <= i < all.len() && all[i] == w;
                if i < rest.len() {
                    assert(rest[i] == w);
                }
            }
        }
        assert(adjacent(edges, v, w) <==> adjacent(front, v, w) || hit) by {
            if adjacent(front, v, w) {
                let i = choose|i: int|
                    0 <= i < front.len() && (#[trigger] front[i] == (v, w) || front[i] == (w, v));
                assert(edges[i] == front[i]);
            }
            if hit {
                assert(edges[edges.len() - 1] == e);
            }
            if adjacent(edges, v, w) {
                let i = choose|i: int|
                    0 <= i < edges.len() && (#[trigger] edges[i] == (v, w) || edges[i] == (w, v));
                if i < front.len() {
                    assert(front[i] == edges[i]);
                }
            }
        }
    }
}

/// In a graph whose edges stay below `n`, so do all neighbors.
pub proof fn lemma_neighbors_in_range(edges: Seq<(usize, usize)>, n: nat, v: usize)
    requires
        edges_in_range(edges, n),
    ensures
        forall|i: int| 0 <= i < neighbors(edges, v).len() ==> #[trigger] neighbors(edges, v)[i] < n,
    decreases edges.len(),
{
    if edges.len() > 0 {
        let front = edges.drop_last();
        assert forall|i: int| 0 <= i < front.len() implies (#[trigger] front[i]).0 < n && front[i].1 < n by {
            assert(front[i] == edges[i]);
        }
        lemma_neighbors_in_range(front, n, v);
        let e = edges[edges.len() - 1];
        assert(e.0 < n && e.1 < n);
        let rest = neighbors(front, v);
        let all = neighbors(edges, v);
        assert forall|i: int| 0 <= i < all.len() implies #[trigger] all[i] < n by {
            if i < rest.len() {
                assert(all[i] == rest[i]);
            }
        }
    }
}

/// What can be reached within `k` steps can be reached within any larger
/// number of steps.
pub proof fn lemma_within_monotone(edges: Seq<(usize, usize)>, s: usize, v: usize, k: nat, m: nat)
    requires
        within(edges, s, v, k),
        k <= m,
    ensures
        within(edges, s, v, m),
    decreases m,
{
    if k < m {
        lemma_within_monotone(edges, s, v, k, (m - 1) as nat);
    }
}

/// A reachable vertex has exactly one shortest distance, and
/// `shortest_distance` names it.
pub proof fn lemma_distance_unique(edges: Seq<(usize, usize)>, s: usize, v: usize, k: nat)
    requires
        is_distance(edges, s, v, k),
    ensures
        shortest_distance(edges, s, v) == k,
{
}

/// Every reachable vertex has a shortest distance.
pub proof fn lemma_distance_exists(edges: Seq<(usize, usize)>, s: usize, v: usize, k: nat)
    requires
        within(edges, s, v, k),
    ensures
        is_distance(edges, s, v, shortest_distance(edges, s, v)),
        shortest_distance(edges, s, v) <= k,
    decreases k,
{
    if k > 0 && within(edges, s, v, (k - 1) as nat) {
        lemma_distance_exists(edges, s, v, (k - 1) as nat);
    } else {
        assert forall|j: nat| j < k implies !within(edges, s, v, j) by {
            if within(edges, s, v, j) {
                lemma_within_monotone(edges, s, v, j, (k - 1) as nat);
            }
        }
        lemma_distance_unique(edges, s, v, k);
    }
}

/// The source is at distance zero from itself.
pub proof fn lemma_distance_to_self(edges: Seq<(usize, usize)>, s: usize)
    ensures
        shortest_distance(edges, s, s) == 0,
{
    lemma_distance_unique(edges, s, s, 0);
}

/// A set of vertices that holds the source and is closed under adjacency
/// holds every vertex within reach of the source.
pub proof fn lemma_closed_set_holds_reach(
    edges: Seq<(usize, usize)>,
    s: usize,
    marked: spec_fn(usize) -> bool,
    v: usize,
    k: nat,
)
    requires
        marked(s),
        forall|u: usize, w: usize| marked(u) && #[trigger] adjacent(edges, u, w) ==> marked(w),
        within(edges, s, v, k),
    ensures
        marked(v),
    decreases k,
{
    if k > 0 {
        if within(edges, s, v, (k - 1) as nat) {
            lemma_closed_set_holds_reach(edges, s, marked, v, (k - 1) as nat);
        } else {
            let u = choose|u: usize| within(edges, s, u, (k - 1) as nat) && #[trigger] adjacent(edges, u, v);
            lemma_closed_set_holds_reach(edges, s, marked, u, (k - 1) as nat);
        }
    }
}

/// Labels that are zero at the source and grow by at most one along every
/// edge never exceed the number of steps needed to reach a vertex.
pub proof fn lemma_labels_bound_steps(
    edges: Seq<(usize, usize)>,
    s: usize,
    label: spec_fn(usize) -> nat,
    v: usize,
    k: nat,
)
    requires
        label(s) == 0,
        forall|u: usize, w: usize| #[trigger] adjacent(edges, u, w) ==> label(w) <= label(u) + 1,
        within(edges, s, v, k),
    ensures
        label(v) <= k,
    decreases k,
{
    if k > 0 {
        if within(edges, s, v, (k - 1) as nat) {
            lemma_labels_bound_steps(edges, s, label, v, (k - 1) as nat);
        } else {
            let u = choose|u: usize| within(edges, s, u, (k - 1) as nat) && #[trigger] adjacent(edges, u, v);
            lemma_labels_bound_steps(edges, s, label, u, (k - 1) as nat);
        }
    }
}

} // verus!
