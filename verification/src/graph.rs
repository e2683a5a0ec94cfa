//! The graph store: a table of nodes and a list of undirected edges.

use crate::paths::edges_in_range;
use crate::paths::neighbors;
use vstd::prelude::*;

verus! {

/// Every edge has its smaller endpoint first.
pub open spec fn edges_canonical(edges: Seq<(usize, usize)>) -> bool {
    forall|i: int| 0 <= i < edges.len() ==> (#[trigger] edges[i]).0 <= edges[i].1
}

/// Every recorded unique edge points at an existing node.
pub open spec fn uniq_in_range(nodes: Seq<Node>) -> bool {
    forall|i: int|
        0 <= i < nodes.len() ==> ((#[trigger] nodes[i]).uniq matches Some(u) ==> u < nodes.len())
}

/// The pair of `a` and `b` with the smaller first.
pub open spec fn canonical(a: usize, b: usize) -> (usize, usize) {
    if a <= b {
        (a, b)
    } else {
        (b, a)
    }
}

/// The position of the first edge equal to `pair`, if there is one.
pub open spec fn position(edges: Seq<(usize, usize)>, pair: (usize, usize)) -> Option<int>
    decreases edges.len(),
{
    if edges.len() == 0 {
        None
    } else {
        match position(edges.drop_last(), pair) {
            Some(i) => Some(i),
            None => if edges.last() == pair {
                Some(edges.len() - 1)
            } else {
                None
            },
        }
    }
}

/// The edge list once `a` and `b` are joined, and the position of the
/// edge that joins them: an edge that is there is found, one that is not
/// is added at the end.
pub open spec fn with_edge(edges: Seq<(usize, usize)>, a: usize, b: usize) -> (
    Seq<(usize, usize)>,
    int,
) {
    match position(edges, canonical(a, b)) {
        Some(i) => (edges, i),
        None => (edges.push(canonical(a, b)), edges.len() as int),
    }
}

/// `position` finds the first edge equal to `pair`, and finds none only
/// where there is none.
pub proof fn lemma_position(edges: Seq<(usize, usize)>, pair: (usize, usize))
    ensures
        match position(edges, pair) {
            Some(i) => 0 <= i < edges.len() && edges[i] == pair && forall|k: int|
                0 <= k < i ==> edges[k] != pair,
            None => !edges.contains(pair),
        },
    decreases edges.len(),
{
    if edges.len() > 0 {
        let front = edges.drop_last();
        lemma_position(front, pair);
        match position(front, pair) {
            Some(i) => {
                assert forall|k: int| 0 <= k < i implies edges[k] != pair by {
                    assert(edges[k] == front[k]);
                }
            },
            None => {
                if edges.last() == pair {
                    assert forall|k: int| 0 <= k < edges.len() - 1 implies edges[k] != pair by {
                        assert(front[k] == edges[k]);
                    }
                } else {
                    if edges.contains(pair) {
                        let k = choose|k: int| 0 <= k < edges.len() && edges[k] == pair;
                        assert(front[k] == pair);
                    }
                }
            },
        }
    }
}

/// Joining two nodes a second time finds the same edge and leaves the edge
/// list as the first time left it.
pub proof fn lemma_add_edge_twice(edges: Seq<(usize, usize)>, a: usize, b: usize)
    ensures
        with_edge(with_edge(edges, a, b).0, a, b) == with_edge(edges, a, b),
{
    let pair = canonical(a, b);
    lemma_position(edges, pair);
    let once = with_edge(edges, a, b);
    lemma_position(once.0, pair);
}

/// Joining two existing nodes keeps the edge list in order: edges join
/// existing nodes, have the smaller endpoint first and occur once.
pub proof fn lemma_add_edge_keeps_order(edges: Seq<(usize, usize)>, n: nat, a: usize, b: usize)
    requires
        edges_in_range(edges, n),
        edges_canonical(edges),
        edges.no_duplicates(),
        a < n,
        b < n,
    ensures
        edges_in_range(with_edge(edges, a, b).0, n),
        edges_canonical(with_edge(edges, a, b).0),
        with_edge(edges, a, b).0.no_duplicates(),
{
    let pair = canonical(a, b);
    lemma_position(edges, pair);
}

/// A node of the graph.
#[derive(Debug, Clone)]
pub struct Node {
    /// Whether the node is marked as a core.
    pub core: bool,
    /// The unique edge from a core to its highest avatar, if recorded.
    pub uniq: Option<usize>,
}

impl Node {
    /// Creates a node with no unique edge.
    pub fn new(core: bool) -> (node: Node)
        ensures
            node.core == core,
            node.uniq is None,
    {
        Node { core, uniq: None }
    }
}

/// An undirected graph over densely numbered nodes.
#[derive(Debug, Clone)]
pub struct Graph {
    /// The nodes, addressed by their position.
    pub nodes: Vec<Node>,
    /// The edges, each stored with its smaller endpoint first.
    pub edges: Vec<(usize, usize)>,
}

impl Graph {
    /// The invariant of the store: edges join existing nodes, are stored
    /// smaller endpoint first and occur once; unique edges point at
    /// existing nodes.
    pub open spec fn wf(&self) -> bool {
        &&& edges_in_range(self.edges@, self.nodes@.len())
        &&& edges_canonical(self.edges@)
        &&& self.edges@.no_duplicates()
        &&& uniq_in_range(self.nodes@)
    }

    /// Tells whether the store is in order, as `wf` describes it. The
    /// fields are open to everyone, so a graph that was put together or
    /// changed by hand can be tested here.
    pub fn is_valid(&self) -> (ok: bool)
        ensures
            ok == self.wf(),
    {
        let n = self.nodes.len();
        let mut v: usize = 0;
        while v < n
            invariant
                v <= n,
                n == self.nodes@.len(),
                forall|k: int|
                    0 <= k < v ==> ((#[trigger] self.nodes@[k]).uniq matches Some(u) ==> u < n),
            decreases n - v,
        {
            match self.nodes[v].uniq {
                Some(u) => {
                    if u >= n {
                        return false;
                    }
                },
                None => {},
            }
            v += 1;
        }
        let mut i: usize = 0;
        while i < self.edges.len()
            invariant
                i <= self.edges@.len(),
                n == self.nodes@.len(),
                uniq_in_range(self.nodes@),
                forall|k: int|
                    0 <= k < i ==> (#[trigger] self.edges@[k]).0 <= self.edges@[k].1
                        && self.edges@[k].1 < n,
                forall|x: int, y: int| 0 <= x < y < i ==> self.edges@[x] != self.edges@[y],
            decreases self.edges@.len() - i,
        {
            let (a, b) = self.edges[i];
            if a > b || b >= n {
                return false;
            }
            let mut j: usize = 0;
            while j < i
                invariant
                    j <= i,
                    i < self.edges@.len(),
                    (a, b) == self.edges@[i as int],
                    forall|x: int| 0 <= x < j ==> self.edges@[x] != self.edges@[i as int],
                decreases i - j,
            {
                let (c, d) = self.edges[j];
                if a == c && b == d {
                    return false;
                }
                j += 1;
            }
            i += 1;
        }
        true
    }

    /// Creates an empty graph.
    pub fn new() -> (g: Graph)
        ensures
            g.nodes@.len() == 0,
            g.edges@.len() == 0,
            g.wf(),
    {
        Graph { nodes: Vec::new(), edges: Vec::new() }
    }

    /// Appends a node and returns its index.
    pub fn add_node(&mut self, node: Node) -> (id: usize)
        ensures
            id == old(self).nodes@.len(),
            final(self).nodes@ == old(self).nodes@.push(node),
            final(self).edges@ == old(self).edges@,
            old(self).wf() && (node.uniq matches Some(u) ==> u <= old(self).nodes@.len())
                ==> final(self).wf(),
    {
        let id = self.nodes.len();
        self.nodes.push(node);
        id
    }

    /// Joins `a` and `b` by an edge, stored with the smaller of the two
    /// first, and returns the edge's index. Where the two are joined
    /// already, nothing is added and the index of the edge that is there
    /// is returned. An edge from a node to itself is taken like any other.
    pub fn add_edge(&mut self, a: usize, b: usize) -> (id: usize)
        ensures
            final(self).nodes@ == old(self).nodes@,
            (final(self).edges@, id as int) == with_edge(old(self).edges@, a, b),
            old(self).wf() && a < old(self).nodes@.len() && b < old(self).nodes@.len()
                ==> final(self).wf(),
    {
        let min = if a <= b {
            a
        } else {
            b
        };
        let max = if a <= b {
            b
        } else {
            a
        };
        let id = self.edges.len();
        proof {
            lemma_position(self.edges@, (min, max));
        }
        let mut i: usize = 0;
        while i < id
            invariant
                i <= id,
                id == self.edges@.len(),
                self.edges@ == old(self).edges@,
                self.nodes@ == old(self).nodes@,
                (min, max) == canonical(a, b),
                forall|k: int| 0 <= k < i ==> self.edges@[k] != (min, max),
            decreases id - i,
        {
            let e = self.edges[i];
            if e.0 == min && e.1 == max {
                proof {
                    lemma_position(self.edges@, (min, max));
                }
                return i;
            }
            i += 1;
        }
        self.edges.push((min, max));
        id
    }

    /// Lists the nodes joined to `node` by an edge, in edge order.
    pub fn edges_of(&self, node: usize) -> (res: Vec<usize>)
        ensures
            res@ == neighbors(self.edges@, node),
    {
        let mut res: Vec<usize> = Vec::new();
        let mut i: usize = 0;
        while i < self.edges.len()
            invariant
                i <= self.edges@.len(),
                res@ == neighbors(self.edges@.take(i as int), node),
            decreases self.edges@.len() - i,
        {
            let (a, b) = self.edges[i];
            proof {
                assert(self.edges@.take(i + 1).drop_last() == self.edges@.take(i as int));
            }
            if a == node {
                res.push(b);
            }
            if b == node {
                res.push(a);
            }
            i += 1;
        }
        proof {
            assert(self.edges@.take(i as int) == self.edges@);
        }
        res
    }
}

} // verus!
