//! The abstract operation set shared by the graph variants, and the error
//! value with which a variant signals an operation its backing store does
//! not support.

use vstd::prelude::*;

verus! {

/// An operation was addressed at a graph variant whose backing store
/// deliberately does not implement it; the caller chose the capability
/// trade-off when choosing the variant.
#[derive(Clone, Copy, Debug, PartialEq, Eq, Structural)]
pub enum GraphError {
    Unsupported,
}

/// The operation set of a directed graph over payloads `TNode` and
/// `TEdge`, addressed through handles of the implementation's choosing.
/// Every operation preserves the implementation's bookkeeping invariant
/// `wf`; what each operation returns and changes is pinned down by the
/// implementation's own, stronger contract.
pub trait Graph<TNode, TEdge> {
    /// The handle type with which callers name nodes and edges.
    type TIndex;

    /// The implementation's bookkeeping invariant; constructors establish
    /// it and every operation preserves it.
    spec fn wf(&self) -> bool;

    /// Adds a single node to the graph and returns its fresh handle.
    fn add_node(&mut self, data: TNode) -> (node: Self::TIndex)
        requires
            old(self).wf(),
        ensures
            final(self).wf(),
    ;

    /// Removes a node and every edge incident on it, returning the node's
    /// payload; returns nothing if the handle is unknown.
    fn remove_node(&mut self, node: Self::TIndex) -> (r: Option<TNode>)
        requires
            old(self).wf(),
        ensures
            final(self).wf(),
    ;

    /// Adds a single edge between two existing nodes and returns its fresh
    /// handle; returns nothing if either endpoint is absent.
    fn add_edge(&mut self, node_a: Self::TIndex, node_b: Self::TIndex, data: TEdge) -> (r: Option<Self::TIndex>)
        requires
            old(self).wf(),
        ensures
            final(self).wf(),
    ;

    /// Removes an edge, returning its payload; returns nothing if the
    /// handle is unknown.
    fn remove_edge(&mut self, edge: Self::TIndex) -> (r: Option<TEdge>)
        requires
            old(self).wf(),
        ensures
            final(self).wf(),
    ;

    /// Removes the first edge leading from `node_a` to `node_b`, returning
    /// its payload; returns nothing if no such edge exists.
    fn remove_edge_between(&mut self, node_a: Self::TIndex, node_b: Self::TIndex) -> (r: Option<TEdge>)
        requires
            old(self).wf(),
        ensures
            final(self).wf(),
    ;

    /// Removes all nodes and edges from the graph.
    fn clear(&mut self)
        ensures
            final(self).wf(),
    ;

    /// The total number of nodes in the graph.
    fn order(&self) -> (r: usize)
        requires
            self.wf(),
    ;

    /// Whether the graph contains the node.
    fn has_node(&self, node: Self::TIndex) -> bool;

    /// The data contained in a node, or nothing if the node is absent.
    fn get_node_data(&self, node: Self::TIndex) -> Option<&TNode>;

    /// Whether the graph contains the edge.
    fn has_edge(&self, edge: Self::TIndex) -> bool;

    /// Whether the graph contains an edge between the two nodes.
    fn has_edge_between(&self, node_a: Self::TIndex, node_b: Self::TIndex) -> (r: bool)
        requires
            self.wf(),
    ;

    /// The first edge between the two nodes, or nothing if there is none.
    fn get_edge(&self, node_a: Self::TIndex, node_b: Self::TIndex) -> (r: Option<Self::TIndex>)
        requires
            self.wf(),
    ;

    /// The start node of an edge, or nothing if the edge is absent.
    fn get_edge_start(&self, edge: Self::TIndex) -> Option<Self::TIndex>;

    /// The end node of an edge, or nothing if the edge is absent.
    fn get_edge_end(&self, edge: Self::TIndex) -> Option<Self::TIndex>;

    /// The data associated with an edge, or nothing if the edge is absent.
    fn get_edge_data(&self, edge: Self::TIndex) -> Option<&TEdge>;

    /// The handles of all the graph's nodes.
    fn nodes(&self) -> Vec<Self::TIndex>;

    /// The handles of all the graph's edges.
    fn edges(&self) -> Vec<Self::TIndex>;

    /// The handles of all edges incident on a node, in either direction;
    /// empty if the node is absent.
    fn get_edges_of(&self, node: Self::TIndex) -> Vec<Self::TIndex>;

    /// The handles of all incoming edges of a node; empty if the node is
    /// absent.
    fn get_pred_edges_of(&self, node: Self::TIndex) -> Vec<Self::TIndex>;

    /// The handles of all outgoing edges of a node; empty if the node is
    /// absent.
    fn get_succ_edges_of(&self, node: Self::TIndex) -> Vec<Self::TIndex>;
}

} // verus!
