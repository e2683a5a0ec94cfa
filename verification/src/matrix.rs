//! The graph laid out as a square table of small numbers.

use crate::graph::Graph;
use crate::graph::Node;
use crate::graph::canonical;
use crate::graph::uniq_in_range;
use crate::paths::edges_in_range;
use vstd::prelude::*;

verus! {

/// Whether some node has a unique edge that joins `i` and `j`, `i` being
/// the smaller of the two.
pub open spec fn has_uniq(nodes: Seq<Node>, i: usize, j: usize) -> bool {
    exists|v: int|
        0 <= v < nodes.len() && (#[trigger] nodes[v]).uniq is Some && canonical(
            v as usize,
            nodes[v].uniq->0,
        ) == (i, j)
}

/// The matrix entry for an ordinary edge and a unique edge that are there
/// or not: one for the ordinary edge plus two for the unique edge.
pub open spec fn cell_of(uniq: bool, edge: bool) -> u8 {
    if uniq {
        if edge {
            3
        } else {
            2
        }
    } else {
        if edge {
            1
        } else {
            0
        }
    }
}

/// The matrix entry at row `i` and column `j`.
pub open spec fn cell(nodes: Seq<Node>, edges: Seq<(usize, usize)>, i: usize, j: usize) -> u8 {
    cell_of(has_uniq(nodes, i, j), edges.contains((i, j)))
}

/// Every matrix entry is one of 0, 1, 2 and 3; its lowest bit tells of an
/// ordinary edge, the next bit of a unique edge.
pub proof fn lemma_cell_bits(nodes: Seq<Node>, edges: Seq<(usize, usize)>, i: usize, j: usize)
    ensures
        cell(nodes, edges, i, j) <= 3,
        cell(nodes, edges, i, j) & 1 == 1 <==> edges.contains((i, j)),
        cell(nodes, edges, i, j) & 2 == 2 <==> has_uniq(nodes, i, j),
{
    assert(0u8 & 1 == 0 && 0u8 & 2 == 0) by (bit_vector);
    assert(1u8 & 1 == 1 && 1u8 & 2 == 0) by (bit_vector);
    assert(2u8 & 1 == 0 && 2u8 & 2 == 2) by (bit_vector);
    assert(3u8 & 1 == 1 && 3u8 & 2 == 2) by (bit_vector);
}

impl Graph {
    /// Lays the graph out as a square table with a row and a column per
    /// node. An edge adds one to the entry at the row of its first and the
    /// column of its second endpoint. A unique edge sets two in the entry
    /// at the row of the smaller and the column of the larger of its ends.
    pub fn matrix(&self) -> (mat: Vec<Vec<u8>>)
        requires
            self.wf(),
        ensures
            mat@.len() == self.nodes@.len(),
            forall|i: int| 0 <= i < mat@.len() ==> (#[trigger] mat@[i])@.len() == self.nodes@.len(),
            forall|i: usize, j: usize|
                i < self.nodes@.len() && j < self.nodes@.len() ==> #[trigger] mat@[i as int]@[j as int]
                    == cell(self.nodes@, self.edges@, i, j),
    {
        let n = self.nodes.len();
        let ghost nodes = self.nodes@;
        let ghost edges = self.edges@;
        let mut mat: Vec<Vec<u8>> = Vec::new();
        let mut i: usize = 0;
        while i < n
            invariant
                i <= n,
                mat@.len() == i,
                forall|r: int| 0 <= r < i ==> (#[trigger] mat@[r])@.len() == n,
                forall|r: int, c: int| 0 <= r < i && 0 <= c < n ==> #[trigger] mat@[r]@[c] == 0,
            decreases n - i,
        {
            let mut row: Vec<u8> = Vec::new();
            let mut j: usize = 0;
            while j < n
                invariant
                    j <= n,
                    row@.len() == j,
                    forall|c: int| 0 <= c < j ==> #[trigger] row@[c] == 0,
                decreases n - j,
            {
                row.push(0);
                j += 1;
            }
            mat.push(row);
            i += 1;
        }
        let mut v: usize = 0;
        while v < n
            invariant
                v <= n,
                n == nodes.len(),
                nodes == self.nodes@,
                uniq_in_range(nodes),
                mat@.len() == n,
                forall|r: int| 0 <= r < n ==> (#[trigger] mat@[r])@.len() == n,
                forall|r: usize, c: usize|
                    r < n && c < n ==> #[trigger] mat@[r as int]@[c as int] == cell_of(
                        has_uniq(nodes.take(v as int), r, c),
                        false,
                    ),
            decreases n - v,
        {
            let ghost seen = nodes.take(v as int);
            let ghost more = nodes.take(v + 1);
            proof {
                assert forall|r: usize, c: usize| has_uniq(more, r, c) <==> has_uniq(seen, r, c) || (
                nodes[v as int].uniq is Some && canonical(v, nodes[v as int].uniq->0) == (r, c)) by {
                    if nodes[v as int].uniq is Some && canonical(v, nodes[v as int].uniq->0) == (r, c) {
                        assert(more[v as int] == nodes[v as int]);
                    }
                }
            }
            match self.nodes[v].uniq {
                Some(u) => {
                    let min = if v <= u {
                        v
                    } else {
                        u
                    };
                    let max = if v <= u {
                        u
                    } else {
                        v
                    };
                    mat[min][max] = 2;
                },
                None => {},
            }
            v += 1;
        }
        proof {
            assert(nodes.take(n as int) == nodes);
        }
        let mut k: usize = 0;
        while k < self.edges.len()
            invariant
                k <= edges.len(),
                n == nodes.len(),
                edges == self.edges@,
                edges_in_range(edges, n as nat),
                edges.no_duplicates(),
                mat@.len() == n,
                forall|r: int| 0 <= r < n ==> (#[trigger] mat@[r])@.len() == n,
                forall|r: usize, c: usize|
                    r < n && c < n ==> #[trigger] mat@[r as int]@[c as int] == cell_of(
                        has_uniq(nodes, r, c),
                        edges.take(k as int).contains((r, c)),
                    ),
            decreases edges.len() - k,
        {
            let (a, b) = self.edges[k];
            let ghost seen = edges.take(k as int);
            let ghost more = edges.take(k + 1);
            proof {
                assert forall|r: usize, c: usize| more.contains((r, c)) <==> seen.contains((r, c)) || (
                r, c) == (a, b) by {
                    if (r, c) == (a, b) {
                        assert(more[k as int] == (r, c));
                    }
                }
            }
            let held = mat[a][b];
            mat[a][b] = held + 1;
            k += 1;
        }
        proof {
            assert(edges.take(k as int) == edges);
        }
        mat
    }
}

} // verus!
