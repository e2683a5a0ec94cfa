//! Avatar graphs.
//!
//! An avatar graph is an undirected graph seen from one of its nodes, the
//! core. Every other node is an avatar of the core, and its avatar distance
//! counts the ways that lead from it down to the core. A node qualifies as
//! a core where nothing in the graph is contractible, every node can be
//! reached, one node alone is the highest avatar, every node lies on the
//! way from the highest avatar back to the core, and no edge joins two
//! avatars of levels that may not be joined.
//!
//! The graph itself is a [`Graph`]: a table of [`Node`]s and a list of
//! edges, both open to the user. What the queries expect of the two is
//! [`Graph::wf`], which every operation of the library keeps and
//! [`Graph::is_valid`] tests. Queries take the index of the node that
//! plays the core.
//!
//! - [`graph`] holds the store and how it is built up, [`counts`] what can
//!   be counted and cleaned up in it, [`matrix`] its layout as a table and
//!   [`swap`] the exchange of two nodes.
//! - [`paths`] says what reaching a node and the distance between two
//!   nodes mean, and [`distance`] finds the distances from a node.
//! - [`avatar`] works out avatar distances, [`highest`] finds the highest
//!   avatars and [`connectivity`] tests the edges against the levels they
//!   join.
//! - [`contraction`] finds the contractible nodes and [`along`] the nodes on
//!   the way from one node towards another.
//! - [`corify`] puts these together into the test of a core, and marks
//!   every node that passes it.
//! - [`tables`] and [`sequences`] hold what the others share: tables of
//!   numbers per node, sorting, sums and selections.
//!
//! Avatar distances can grow beyond a machine word on large graphs. The
//! functions that work with them ask that they fit, which
//! [`Graph::avatar_distances_fit`] tests.

pub mod along;
pub mod avatar;
pub mod connectivity;
pub mod contraction;
pub mod corify;
pub mod counts;
pub mod distance;
pub mod graph;
pub mod highest;
pub mod matrix;
pub mod paths;
pub mod sequences;
pub mod swap;
pub mod tables;

pub use graph::Graph;
pub use graph::Node;
