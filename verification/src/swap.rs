//! Two nodes changing places.

use crate::graph::Graph;
use crate::graph::Node;
use crate::graph::canonical;
use crate::graph::edges_canonical;
use crate::graph::uniq_in_range;
use crate::paths::edges_in_range;
use vstd::prelude::*;

verus! {

/// The index that `x` has once `a` and `b` have changed places.
pub open spec fn renamed(x: usize, a: usize, b: usize) -> usize {
    if x == a {
        b
    } else if x == b {
        a
    } else {
        x
    }
}

/// An edge once `a` and `b` have changed places.
pub open spec fn swapped_edge(e: (usize, usize), a: usize, b: usize) -> (usize, usize) {
    canonical(renamed(e.0, a, b), renamed(e.1, a, b))
}

/// The edge list once `a` and `b` have changed places.
pub open spec fn swapped_edges(edges: Seq<(usize, usize)>, a: usize, b: usize) -> Seq<(usize, usize)> {
    Seq::new(edges.len(), |i: int| swapped_edge(edges[i], a, b))
}

/// A node whose unique edge follows `a` and `b` changing places.
pub open spec fn swapped_node(node: Node, a: usize, b: usize) -> Node {
    Node {
        core: node.core,
        uniq: match node.uniq {
            Some(u) => Some(renamed(u, a, b)),
            None => None,
        },
    }
}

/// The node table once `a` and `b` have changed places.
pub open spec fn swapped_nodes(nodes: Seq<Node>, a: usize, b: usize) -> Seq<Node> {
    Seq::new(nodes.len(), |i: int| swapped_node(nodes[renamed(i as usize, a, b) as int], a, b))
}

/// Letting two nodes change places twice gives back the graph as it was.
pub proof fn lemma_swap_twice(nodes: Seq<Node>, edges: Seq<(usize, usize)>, a: usize, b: usize)
    requires
        nodes.len() <= usize::MAX,
        a < nodes.len(),
        b < nodes.len(),
        edges_canonical(edges),
    ensures
        swapped_edges(swapped_edges(edges, a, b), a, b) == edges,
        swapped_nodes(swapped_nodes(nodes, a, b), a, b) == nodes,
{
}

/// Letting a node change places with itself changes nothing.
pub proof fn lemma_swap_same(nodes: Seq<Node>, edges: Seq<(usize, usize)>, a: usize)
    requires
        nodes.len() <= usize::MAX,
        edges_canonical(edges),
    ensures
        swapped_edges(edges, a, a) == edges,
        swapped_nodes(nodes, a, a) == nodes,
{
}

/// Letting two existing nodes change places keeps the store in order.
pub proof fn lemma_swap_keeps_order(nodes: Seq<Node>, edges: Seq<(usize, usize)>, a: usize, b: usize)
    requires
        nodes.len() <= usize::MAX,
        a < nodes.len(),
        b < nodes.len(),
        edges_in_range(edges, nodes.len()),
        edges_canonical(edges),
        edges.no_duplicates(),
        uniq_in_range(nodes),
    ensures
        edges_in_range(swapped_edges(edges, a, b), nodes.len()),
        edges_canonical(swapped_edges(edges, a, b)),
        swapped_edges(edges, a, b).no_duplicates(),
        uniq_in_range(swapped_nodes(nodes, a, b)),
{
}

impl Graph {
    /// Lets the nodes `a` and `b` change places: every edge and every
    /// unique edge that named one of them names the other, edges are put
    /// smaller endpoint first again, and the two nodes change their slots.
    pub fn swap(&mut self, a: usize, b: usize)
        requires
            a < old(self).nodes@.len(),
            b < old(self).nodes@.len(),
        ensures
            final(self).edges@ == swapped_edges(old(self).edges@, a, b),
            final(self).nodes@ == swapped_nodes(old(self).nodes@, a, b),
            old(self).wf() ==> final(self).wf(),
    {
        let n = self.nodes.len();
        let mut i: usize = 0;
        while i < self.edges.len()
            invariant
                i <= self.edges@.len(),
                self.nodes@ == old(self).nodes@,
                self.edges@.len() == old(self).edges@.len(),
                forall|k: int|
                    0 <= k < i ==> #[trigger] self.edges@[k] == swapped_edge(old(self).edges@[k], a, b),
                forall|k: int|
                    i <= k < self.edges@.len() ==> #[trigger] self.edges@[k] == old(self).edges@[k],
            decreases self.edges@.len() - i,
        {
            let (ea, eb) = self.edges[i];
            let ea = if ea == a {
                b
            } else if ea == b {
                a
            } else {
                ea
            };
            let eb = if eb == a {
                b
            } else if eb == b {
                a
            } else {
                eb
            };
            let pair = if ea <= eb {
                (ea, eb)
            } else {
                (eb, ea)
            };
            self.edges.set(i, pair);
            i += 1;
        }
        let mut i: usize = 0;
        while i < n
            invariant
                i <= n,
                self.nodes@.len() == n,
                old(self).nodes@.len() == n,
                self.edges@ == swapped_edges(old(self).edges@, a, b),
                forall|k: int|
                    0 <= k < i ==> #[trigger] self.nodes@[k] == swapped_node(old(self).nodes@[k], a, b),
                forall|k: int| i <= k < n ==> #[trigger] self.nodes@[k] == old(self).nodes@[k],
            decreases n - i,
        {
            match self.nodes[i].uniq {
                Some(j) => {
                    let j = if j == a {
                        b
                    } else if j == b {
                        a
                    } else {
                        j
                    };
                    let core = self.nodes[i].core;
                    self.nodes.set(i, Node { core, uniq: Some(j) });
                },
                None => {},
            }
            i += 1;
        }
        let first = Node { core: self.nodes[a].core, uniq: self.nodes[a].uniq };
        let second = Node { core: self.nodes[b].core, uniq: self.nodes[b].uniq };
        self.nodes.set(a, second);
        self.nodes.set(b, first);
    }
}

} // verus!
