//! The avatar-graph predicate, and the marking of every node that passes it
//! as a core.

use crate::along::all_visited;
use crate::avatar::avatar_fits;
use crate::avatar::avatar_values;
use crate::connectivity::all_obey;
use crate::contraction::contractibles;
use crate::distance::spans;
use crate::graph::Graph;
use crate::graph::Node;
use crate::highest::holders;
use crate::highest::peak;
use vstd::prelude::*;

verus! {

/// The nodes that hold the largest avatar distance from `src`.
pub open spec fn highest_avatars(edges: Seq<(usize, usize)>, n: nat, src: usize) -> Seq<usize> {
    let vals = avatar_values(edges, n, src);
    holders(vals, peak(vals))
}

/// Whether avatar distances from `src` are asked for when `src` is tested
/// as a core: nothing is contractible and distances are complete.
pub open spec fn asks_for_avatars(edges: Seq<(usize, usize)>, n: nat, src: usize) -> bool {
    contractibles(edges, n, src).len() == 0 && spans(edges, n, src)
}

/// Whether the graph is an avatar graph seen from `src`: nothing is
/// contractible, every vertex can be reached, one vertex alone holds the
/// largest avatar distance, every vertex is visited on the way from that
/// vertex to `src`, and the avatar distances obey along every edge.
pub open spec fn is_avatar(edges: Seq<(usize, usize)>, n: nat, src: usize) -> bool {
    &&& contractibles(edges, n, src).len() == 0
    &&& spans(edges, n, src)
    &&& highest_avatars(edges, n, src).len() == 1
    &&& all_visited(edges, n, highest_avatars(edges, n, src)[0], src)
    &&& all_obey(edges, avatar_values(edges, n, src))
}

/// What marking makes of node `i`: a core with a unique edge to its highest
/// avatar where the graph is an avatar graph seen from `i`, a plain node
/// without a unique edge otherwise.
pub open spec fn marked_node(edges: Seq<(usize, usize)>, n: nat, i: usize) -> Node {
    if is_avatar(edges, n, i) {
        Node { core: true, uniq: Some(highest_avatars(edges, n, i)[0]) }
    } else {
        Node { core: false, uniq: None }
    }
}

/// The node table after marking.
pub open spec fn marked_nodes(edges: Seq<(usize, usize)>, n: nat) -> Seq<Node> {
    Seq::new(n, |i: int| marked_node(edges, n, i as usize))
}

/// Marking a second time changes nothing: what marking makes of a graph
/// rests on its edges and the number of its nodes, and marking keeps both.
pub proof fn lemma_marking_is_idempotent(edges: Seq<(usize, usize)>, nodes: Seq<Node>)
    ensures
        marked_nodes(edges, marked_nodes(edges, nodes.len()).len()) == marked_nodes(
            edges,
            nodes.len(),
        ),
{
}

/// After marking, a node is a core exactly where the graph is an avatar
/// graph seen from it, and exactly the cores have a unique edge.
pub proof fn lemma_marking_agrees(edges: Seq<(usize, usize)>, n: nat, i: usize)
    requires
        i < n,
    ensures
        marked_nodes(edges, n)[i as int].core <==> is_avatar(edges, n, i),
        marked_nodes(edges, n)[i as int].uniq is Some <==> is_avatar(edges, n, i),
{
}

impl Graph {
    /// Whether the graph is an avatar graph seen from `ind`.
    pub fn is_avatar_graph(&self, ind: usize) -> (yes: bool)
        requires
            self.wf(),
            ind < self.nodes@.len(),
            asks_for_avatars(self.edges@, self.nodes@.len(), ind) ==> avatar_fits(
                self.edges@,
                self.nodes@.len(),
                ind,
            ),
        ensures
            yes == is_avatar(self.edges@, self.nodes@.len(), ind),
    {
        if self.contractible(ind) != 0 {
            return false;
        }
        match self.distance(ind) {
            Ok(_) => {},
            Err(_) => {
                return false;
            },
        }
        let max_avatars = self.max_avatars(ind);
        if max_avatars.1.len() != 1 {
            return false;
        }
        if !self.all_reachable_along(max_avatars.1[0], ind) {
            return false;
        }
        if !self.avatar_connectivity(ind) {
            return false;
        }
        true
    }

    /// Marks every node from which the graph is an avatar graph as a core
    /// and gives it a unique edge to its highest avatar; unmarks every
    /// other node and takes its unique edge away.
    pub fn corify(&mut self)
        requires
            old(self).wf(),
            forall|i: usize|
                i < old(self).nodes@.len() && #[trigger] asks_for_avatars(
                    old(self).edges@,
                    old(self).nodes@.len(),
                    i,
                ) ==> avatar_fits(old(self).edges@, old(self).nodes@.len(), i),
        ensures
            final(self).edges@ == old(self).edges@,
            final(self).nodes@ == marked_nodes(old(self).edges@, old(self).nodes@.len()),
            final(self).wf(),
    {
        let n = self.nodes.len();
        let ghost edges = self.edges@;
        let mut i: usize = 0;
        while i < n
            invariant
                i <= n,
                self.nodes@.len() == n,
                self.edges@ == edges,
                self.wf(),
                forall|k: usize|
                    k < n && #[trigger] asks_for_avatars(edges, n as nat, k) ==> avatar_fits(
                        edges,
                        n as nat,
                        k,
                    ),
                forall|k: int|
                    0 <= k < i ==> #[trigger] self.nodes@[k] == marked_node(edges, n as nat, k as usize),
            decreases n - i,
        {
            if self.is_avatar_graph(i) {
                proof {
                    assert(asks_for_avatars(edges, n as nat, i));
                }
                let max_avatars = self.max_avatars(i);
                let top = max_avatars.1[0];
                self.nodes.set(i, Node { core: true, uniq: Some(top) });
            } else {
                self.nodes.set(i, Node { core: false, uniq: None });
            }
            i += 1;
        }
    }
}

} // verus!
