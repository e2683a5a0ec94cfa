//! Counts of the nodes and edges of a kind, and the removal of edges that
//! join a node to itself.

use crate::graph::Graph;
use crate::graph::Node;
use crate::sequences::chosen;
use crate::sequences::lemma_chosen_split;
use vstd::prelude::*;

verus! {

/// Whether the node at an index is marked as a core.
pub open spec fn core_at(nodes: Seq<Node>) -> spec_fn(usize) -> bool {
    |i: usize| i < nodes.len() && nodes[i as int].core
}

/// Whether the node at an index is not marked as a core.
pub open spec fn plain_at(nodes: Seq<Node>) -> spec_fn(usize) -> bool {
    |i: usize| !core_at(nodes)(i)
}

/// Whether the node at an index has a unique edge.
pub open spec fn uniq_at(nodes: Seq<Node>) -> spec_fn(usize) -> bool {
    |i: usize| i < nodes.len() && nodes[i as int].uniq is Some
}

/// Whether the node at an index has a unique edge to itself.
pub open spec fn self_uniq_at(nodes: Seq<Node>) -> spec_fn(usize) -> bool {
    |i: usize| i < nodes.len() && nodes[i as int].uniq == Some(i)
}

/// Whether the edge at an index joins a node to itself.
pub open spec fn loop_at(edges: Seq<(usize, usize)>) -> spec_fn(usize) -> bool {
    |i: usize| i < edges.len() && edges[i as int].0 == edges[i as int].1
}

/// The node table with every unique edge from a node to itself taken away.
pub open spec fn without_self_uniq(nodes: Seq<Node>) -> Seq<Node> {
    Seq::new(
        nodes.len(),
        |i: int|
            if nodes[i].uniq == Some(i as usize) {
                Node { core: nodes[i].core, uniq: None }
            } else {
                nodes[i]
            },
    )
}

/// The edge list after the first `i` edges were looked through from the
/// last of them to the first, and each edge from a node to itself was
/// replaced by the last edge of the list.
pub open spec fn drop_loops(edges: Seq<(usize, usize)>, i: nat) -> Seq<(usize, usize)>
    decreases i,
{
    if i == 0 || i > edges.len() {
        edges
    } else if edges[i - 1].0 == edges[i - 1].1 {
        drop_loops(edges.update(i - 1, edges.last()).drop_last(), (i - 1) as nat)
    } else {
        drop_loops(edges, (i - 1) as nat)
    }
}

impl Graph {
    /// Counts the nodes that are marked as cores.
    pub fn cores(&self) -> (sum: usize)
        ensures
            sum == chosen(self.nodes@.len(), core_at(self.nodes@)).len(),
    {
        let mut sum: usize = 0;
        let mut i: usize = 0;
        while i < self.nodes.len()
            invariant
                i <= self.nodes@.len(),
                sum <= i,
                sum == chosen(i as nat, core_at(self.nodes@)).len(),
            decreases self.nodes@.len() - i,
        {
            if self.nodes[i].core {
                sum += 1;
            }
            i += 1;
        }
        sum
    }

    /// Counts the nodes that are not marked as cores.
    pub fn non_cores(&self) -> (sum: usize)
        ensures
            sum == chosen(self.nodes@.len(), plain_at(self.nodes@)).len(),
            sum + chosen(self.nodes@.len(), core_at(self.nodes@)).len() == self.nodes@.len(),
    {
        proof {
            lemma_chosen_split(self.nodes@.len(), core_at(self.nodes@), plain_at(self.nodes@));
        }
        self.nodes.len() - self.cores()
    }

    /// Counts the nodes that have a unique edge.
    pub fn unique_edges(&self) -> (sum: usize)
        ensures
            sum == chosen(self.nodes@.len(), uniq_at(self.nodes@)).len(),
    {
        let mut sum: usize = 0;
        let mut i: usize = 0;
        while i < self.nodes.len()
            invariant
                i <= self.nodes@.len(),
                sum <= i,
                sum == chosen(i as nat, uniq_at(self.nodes@)).len(),
            decreases self.nodes@.len() - i,
        {
            if self.nodes[i].uniq.is_some() {
                sum += 1;
            }
            i += 1;
        }
        sum
    }

    /// Counts the nodes that have a unique edge to themselves.
    pub fn self_unique_edges(&self) -> (sum: usize)
        ensures
            sum == chosen(self.nodes@.len(), self_uniq_at(self.nodes@)).len(),
    {
        let mut sum: usize = 0;
        let mut i: usize = 0;
        while i < self.nodes.len()
            invariant
                i <= self.nodes@.len(),
                sum <= i,
                sum == chosen(i as nat, self_uniq_at(self.nodes@)).len(),
            decreases self.nodes@.len() - i,
        {
            match self.nodes[i].uniq {
                Some(j) => {
                    if i == j {
                        sum += 1;
                    }
                },
                None => {},
            }
            i += 1;
        }
        sum
    }

    /// Takes away every unique edge from a node to itself.
    pub fn remove_self_unique_edges(&mut self)
        ensures
            final(self).edges@ == old(self).edges@,
            final(self).nodes@ == without_self_uniq(old(self).nodes@),
            old(self).wf() ==> final(self).wf(),
    {
        let n = self.nodes.len();
        let mut i: usize = 0;
        while i < n
            invariant
                i <= n,
                self.nodes@.len() == n,
                old(self).nodes@.len() == n,
                self.edges@ == old(self).edges@,
                forall|k: int|
                    0 <= k < i ==> #[trigger] self.nodes@[k] == without_self_uniq(old(self).nodes@)[k],
                forall|k: int| i <= k < n ==> #[trigger] self.nodes@[k] == old(self).nodes@[k],
            decreases n - i,
        {
            match self.nodes[i].uniq {
                Some(j) => {
                    if i == j {
                        let core = self.nodes[i].core;
                        self.nodes.set(i, Node { core, uniq: None });
                    }
                },
                None => {},
            }
            i += 1;
        }
    }

    /// Counts the edges that join a node to itself.
    pub fn self_edges(&self) -> (sum: usize)
        ensures
            sum == chosen(self.edges@.len(), loop_at(self.edges@)).len(),
    {
        let mut sum: usize = 0;
        let mut i: usize = 0;
        while i < self.edges.len()
            invariant
                i <= self.edges@.len(),
                sum <= i,
                sum == chosen(i as nat, loop_at(self.edges@)).len(),
            decreases self.edges@.len() - i,
        {
            let (a, b) = self.edges[i];
            if a == b {
                sum += 1;
            }
            i += 1;
        }
        sum
    }

    /// Removes every edge that joins a node to itself. The edges are looked
    /// through from the last to the first, and the place of a removed edge
    /// is taken by the last edge of the list. Every other edge stays.
    pub fn remove_self_edges(&mut self)
        ensures
            final(self).nodes@ == old(self).nodes@,
            final(self).edges@ == drop_loops(old(self).edges@, old(self).edges@.len()),
            forall|k: int|
                0 <= k < final(self).edges@.len() ==> (#[trigger] final(self).edges@[k]).0
                    != final(self).edges@[k].1 && old(self).edges@.contains(final(self).edges@[k]),
            forall|k: int|
                0 <= k < old(self).edges@.len() && (#[trigger] old(self).edges@[k]).0
                    != old(self).edges@[k].1 ==> final(self).edges@.contains(old(self).edges@[k]),
            old(self).wf() ==> final(self).wf(),
    {
        let ghost before = self.edges@;
        let mut i: usize = self.edges.len();
        while i > 0
            invariant
                i <= self.edges@.len(),
                before == old(self).edges@,
                self.nodes@ == old(self).nodes@,
                drop_loops(self.edges@, i as nat) == drop_loops(before, before.len()),
                forall|k: int| i <= k < self.edges@.len() ==> (#[trigger] self.edges@[k]).0 != self.edges@[k].1,
                forall|k: int| 0 <= k < self.edges@.len() ==> before.contains(#[trigger] self.edges@[k]),
                forall|k: int|
                    0 <= k < before.len() && (#[trigger] before[k]).0 != before[k].1 ==> self.edges@.contains(
                        before[k],
                    ),
                before.no_duplicates() ==> self.edges@.no_duplicates(),
            decreases i,
        {
            i -= 1;
            let (a, b) = self.edges[i];
            if a == b {
                let ghost held = self.edges@;
                let ghost last = held.len() - 1;
                self.edges.swap_remove(i);
                proof {
                    let kept = self.edges@;
                    assert forall|k: int| 0 <= k < before.len() && (#[trigger] before[k]).0
                        != before[k].1 implies kept.contains(before[k]) by {
                        let q = choose|q: int| 0 <= q < held.len() && held[q] == before[k];
                        if q == last {
                            assert(kept[i as int] == before[k]);
                        } else {
                            assert(kept[q] == before[k]);
                        }
                    }
                }
            }
        }
    }
}

} // verus!
