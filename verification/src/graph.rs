//! Edge-list undirected graph.
//!
//! Nodes are keyed by caller-chosen labels.  Edges form their own label
//! namespace and join an unordered pair of node labels; self-loops and
//! parallel edges are permitted.  Connecting checks only that both endpoints
//! are registered nodes.

use crate::table::Table;
use vstd::prelude::*;

verus! {

/// The failures of the connect operations, shared by both graph containers.
#[derive(Debug, PartialEq, Eq, Structural, Clone, Copy)]
pub enum GraphConnectError {
    /// An endpoint label is not a registered node.
    NodeNotExit,
    /// The requested edge would close a directed cycle.
    CyclicConnect,
}

/// An edge-list undirected graph: a map from node labels to payloads and a
/// map from edge labels to the pair of node labels the edge connects.
pub struct Graph<T> {
    nodes: Table<T>,
    edges: Table<(String, String)>,
}

impl<T> Graph<T> {
    /// The registered nodes: label view to payload.
    pub closed spec fn nodes_view(&self) -> Map<Seq<char>, T> {
        self.nodes@
    }

    /// The edges: edge-label view to the connected pair.
    pub closed spec fn edges_view(&self) -> Map<Seq<char>, (String, String)> {
        self.edges@
    }

    /// The node and edge maps are well formed and every edge references two
    /// registered node labels.
    pub closed spec fn wf(&self) -> bool {
        &&& self.nodes.wf()
        &&& self.edges.wf()
        &&& forall|k: Seq<char>| #[trigger]
            self.edges@.dom().contains(k) ==> self.nodes@.dom().contains(self.edges@[k].0@)
                && self.nodes@.dom().contains(self.edges@[k].1@)
    }

    /// The invariant the edge map maintains: both endpoints of every edge
    /// are registered nodes.
    pub proof fn lemma_edges_reference_nodes(&self, k: Seq<char>)
        requires
            self.wf(),
            self.edges_view().dom().contains(k),
        ensures
            self.nodes_view().dom().contains(self.edges_view()[k].0@),
            self.nodes_view().dom().contains(self.edges_view()[k].1@),
    {
    }

    pub fn new() -> (g: Self)
        ensures
            g.wf(),
            g.nodes_view() == Map::<Seq<char>, T>::empty(),
            g.edges_view() == Map::<Seq<char>, (String, String)>::empty(),
    {
        Graph { nodes: Table::new(), edges: Table::new() }
    }

    /// Inserts or replaces the node stored under `label`, handing back the
    /// payload it replaced.
    pub fn add_node(&mut self, label: String, node: T) -> (r: Option<T>)
        requires
            old(self).wf(),
        ensures
            final(self).wf(),
            final(self).nodes_view() == old(self).nodes_view().insert(label@, node),
            final(self).edges_view() == old(self).edges_view(),
            r == (if old(self).nodes_view().dom().contains(label@) {
                Some(old(self).nodes_view()[label@])
            } else {
                None::<T>
            }),
    {
        self.nodes.insert(label, node)
    }

    /// Inserts or replaces the edge stored under `label`, connecting `a` and
    /// `b`, provided both are registered nodes; hands back the pair the edge
    /// label previously connected.  Fails with `NodeNotExit`, mutating
    /// nothing, when either endpoint is missing.
    pub fn connect(&mut self, label: String, a: String, b: String) -> (r: Result<
        Option<(String, String)>,
        GraphConnectError,
    >)
        requires
            old(self).wf(),
        ensures
            final(self).wf(),
            final(self).nodes_view() == old(self).nodes_view(),
            match r {
                Ok(prev) => {
                    &&& old(self).nodes_view().dom().contains(a@)
                    &&& old(self).nodes_view().dom().contains(b@)
                    &&& final(self).edges_view() == old(self).edges_view().insert(
                        label@,
                        (a, b),
                    )
                    &&& prev == (if old(self).edges_view().dom().contains(label@) {
                        Some(old(self).edges_view()[label@])
                    } else {
                        None::<(String, String)>
                    })
                },
                Err(e) => {
                    &&& e == GraphConnectError::NodeNotExit
                    &&& !(old(self).nodes_view().dom().contains(a@)
                        && old(self).nodes_view().dom().contains(b@))
                    &&& *final(self) == *old(self)
                },
            },
    {
        if self.nodes.contains_key(&a) && self.nodes.contains_key(&b) {
            let ghost va = a@;
            let ghost vb = b@;
            let prev = self.edges.insert(label, (a, b));
            proof {
                assert forall|k: Seq<char>| #[trigger]
                    self.edges@.dom().contains(k) implies self.nodes@.dom().contains(
                    self.edges@[k].0@,
                ) && self.nodes@.dom().contains(self.edges@[k].1@) by {
                    if k != label@ {
                        assert(old(self).edges@.dom().contains(k));
                        assert(self.edges@[k] == old(self).edges@[k]);
                    }
                }
            }
            Ok(prev)
        } else {
            Err(GraphConnectError::NodeNotExit)
        }
    }
}

/// Law: registering the same label twice hands back the first payload on the
/// second registration and leaves a single entry under that label, holding
/// the second payload.
pub proof fn lemma_add_node_idempotent<T>(
    nodes: Map<Seq<char>, T>,
    label: Seq<char>,
    first: T,
    second: T,
)
    ensures
        nodes.insert(label, first).dom().contains(label),
        nodes.insert(label, first)[label] == first,
        nodes.insert(label, first).insert(label, second) == nodes.insert(label, second),
        nodes.insert(label, first).insert(label, second).dom() == nodes.insert(
            label,
            first,
        ).dom(),
{
    assert(nodes.insert(label, first).insert(label, second) =~= nodes.insert(label, second));
    assert(nodes.insert(label, first).insert(label, second).dom() =~= nodes.insert(
        label,
        first,
    ).dom());
}

} // verus!
