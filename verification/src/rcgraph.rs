//! The shared-ownership graph: the graph's own top-level sequences hold
//! sole strong ownership of every node and edge record, and all adjacency
//! and endpoint references are weak — stable identities resolved through
//! the graph — so that a node and its incident edges never form an
//! ownership cycle. Removal of single elements would require an explicit
//! cycle-breaking protocol that this backing store deliberately does not
//! provide: those operations signal `GraphError::Unsupported`.

use vstd::prelude::*;

use crate::graph::GraphError;

verus! {

/// A node record: its payload and the identities of the edges ending here
/// (`pred`) and starting here (`succ`).
pub struct Node<TNode> {
    data: TNode,
    pred: Vec<usize>,
    succ: Vec<usize>,
}

impl<TNode> Node<TNode> {
    /// A node with no incident edges yet.
    fn new(data: TNode) -> (n: Node<TNode>)
        ensures
            n.data == data,
            n.pred@ == Seq::<usize>::empty(),
            n.succ@ == Seq::<usize>::empty(),
    {
        Node { data, pred: Vec::new(), succ: Vec::new() }
    }
}

/// An edge record: its payload and the identities of its two endpoints.
pub struct Edge<TEdge> {
    data: TEdge,
    start: usize,
    end: usize,
}

impl<TEdge> Edge<TEdge> {
    /// An edge record from `start` to `end` holding `data`.
    fn new(data: TEdge, start: usize, end: usize) -> (e: Edge<TEdge>)
        ensures
            e.data == data,
            e.start == start,
            e.end == end,
    {
        Edge { data, start, end }
    }
}

/// A graph whose records live for exactly as long as the graph's own two
/// sequences keep them; handles are positions in those sequences, valid
/// until `clear` drops everything at once.
pub struct RcGraph<TNode, TEdge> {
    nodes: Vec<Node<TNode>>,
    edges: Vec<Edge<TEdge>>,
}

impl<TNode, TEdge> RcGraph<TNode, TEdge> {
    /// The node handle `n` refers to a live node.
    pub closed spec fn spec_has_node(self, n: usize) -> bool {
        n < self.nodes@.len()
    }

    /// The payload of live node `n`.
    pub closed spec fn spec_node_data(self, n: usize) -> TNode
        recommends
            self.spec_has_node(n),
    {
        self.nodes@[n as int].data
    }

    /// The identities of the edges ending at node `n`, in list order.
    pub closed spec fn spec_pred(self, n: usize) -> Seq<usize>
        recommends
            self.spec_has_node(n),
    {
        self.nodes@[n as int].pred@
    }

    /// The identities of the edges starting at node `n`, in list order.
    pub closed spec fn spec_succ(self, n: usize) -> Seq<usize>
        recommends
            self.spec_has_node(n),
    {
        self.nodes@[n as int].succ@
    }

    /// The edge handle `e` refers to a live edge.
    pub closed spec fn spec_has_edge(self, e: usize) -> bool {
        e < self.edges@.len()
    }

    /// The start node of live edge `e`.
    pub closed spec fn spec_edge_start(self, e: usize) -> usize
        recommends
            self.spec_has_edge(e),
    {
        self.edges@[e as int].start
    }

    /// The end node of live edge `e`.
    pub closed spec fn spec_edge_end(self, e: usize) -> usize
        recommends
            self.spec_has_edge(e),
    {
        self.edges@[e as int].end
    }

    /// The payload of live edge `e`.
    pub closed spec fn spec_edge_data(self, e: usize) -> TEdge
        recommends
            self.spec_has_edge(e),
    {
        self.edges@[e as int].data
    }

    /// The number of live nodes.
    pub closed spec fn spec_order(self) -> nat {
        self.nodes@.len()
    }

    /// The number of live edges.
    pub closed spec fn spec_size(self) -> nat {
        self.edges@.len()
    }

    /// The bookkeeping invariant: every edge's endpoints are live and list
    /// it under the matching role, every adjacency entry names a live edge
    /// with the matching endpoint, and no list repeats an entry.
    pub closed spec fn wf(self) -> bool {
        &&& forall|e: usize|
            #![trigger self.edges@[e as int]]
            e < self.edges@.len() ==> {
                let ed = self.edges@[e as int];
                &&& self.spec_has_node(ed.start)
                &&& self.spec_has_node(ed.end)
                &&& self.spec_succ(ed.start).contains(e)
                &&& self.spec_pred(ed.end).contains(e)
            }
        &&& forall|n: usize|
            #![trigger self.nodes@[n as int]]
            n < self.nodes@.len() ==> {
                &&& (forall|k: int|
                    0 <= k < self.spec_succ(n).len() ==> {
                        let e = #[trigger] self.spec_succ(n)[k];
                        self.spec_has_edge(e) && self.spec_edge_start(e) == n
                    })
                &&& (forall|k: int|
                    0 <= k < self.spec_pred(n).len() ==> {
                        let e = #[trigger] self.spec_pred(n)[k];
                        self.spec_has_edge(e) && self.spec_edge_end(e) == n
                    })
            }
    }

    /// A fresh, empty graph.
    pub fn new() -> (g: RcGraph<TNode, TEdge>)
        ensures
            g.wf(),
            g.spec_order() == 0,
            g.spec_size() == 0,
    {
        RcGraph { nodes: Vec::new(), edges: Vec::new() }
    }

    /// Adds a node holding `data` and returns its handle.
    pub fn add_node(&mut self, data: TNode) -> (n: usize)
        requires
            old(self).wf(),
        ensures
            final(self).wf(),
            n == old(self).spec_order(),
            !old(self).spec_has_node(n),
            final(self).spec_has_node(n),
            final(self).spec_node_data(n) == data,
            final(self).spec_pred(n) == Seq::<usize>::empty(),
            final(self).spec_succ(n) == Seq::<usize>::empty(),
            final(self).spec_order() == old(self).spec_order() + 1,
            final(self).spec_size() == old(self).spec_size(),
            forall|m: usize| m != n ==> final(self).spec_has_node(m) == old(self).spec_has_node(m),
            forall|m: usize|
                m != n && old(self).spec_has_node(m) ==> {
                    &&& final(self).spec_node_data(m) == old(self).spec_node_data(m)
                    &&& final(self).spec_pred(m) == old(self).spec_pred(m)
                    &&& final(self).spec_succ(m) == old(self).spec_succ(m)
                },
            forall|e: usize| final(self).spec_has_edge(e) == old(self).spec_has_edge(e),
            forall|e: usize|
                old(self).spec_has_edge(e) ==> {
                    &&& final(self).spec_edge_start(e) == old(self).spec_edge_start(e)
                    &&& final(self).spec_edge_end(e) == old(self).spec_edge_end(e)
                    &&& final(self).spec_edge_data(e) == old(self).spec_edge_data(e)
                },
    {
        let n = self.nodes.len();
        self.nodes.push(Node::new(data));
        proof {
            assert forall|e: usize|
                #![trigger self.edges@[e as int]]
                e < self.edges@.len() implies {
                let ed = self.edges@[e as int];
                &&& self.spec_has_node(ed.start)
                &&& self.spec_has_node(ed.end)
                &&& self.spec_succ(ed.start).contains(e)
                &&& self.spec_pred(ed.end).contains(e)
            } by {
                let ed = self.edges@[e as int];
                assert(old(self).edges@[e as int] == ed);
                assert(self.spec_succ(ed.start) == old(self).spec_succ(ed.start));
                assert(self.spec_pred(ed.end) == old(self).spec_pred(ed.end));
            }
            assert forall|m: usize|
                #![trigger self.nodes@[m as int]]
                m < self.nodes@.len() implies {
                &&& (forall|k: int|
                    0 <= k < self.spec_succ(m).len() ==> {
                        let e = #[trigger] self.spec_succ(m)[k];
                        self.spec_has_edge(e) && self.spec_edge_start(e) == m
                    })
                &&& (forall|k: int|
                    0 <= k < self.spec_pred(m).len() ==> {
                        let e = #[trigger] self.spec_pred(m)[k];
                        self.spec_has_edge(e) && self.spec_edge_end(e) == m
                    })
            } by {
                if m != n {
                    assert(self.nodes@[m as int] == old(self).nodes@[m as int]);
                    assert(old(self).spec_has_node(m));
                    assert(self.spec_succ(m) == old(self).spec_succ(m));
                    assert(self.spec_pred(m) == old(self).spec_pred(m));
                } else {
                    assert(self.spec_succ(m).len() == 0);
                    assert(self.spec_pred(m).len() == 0);
                }
            }
        }
        n
    }

    /// Node removal would have to break the node-edge reference cycle;
    /// this backing store does not support it and changes nothing.
    pub fn remove_node(&mut self, node: usize) -> (r: Result<TNode, GraphError>)
        ensures
            *final(self) == *old(self),
            r == Result::<TNode, GraphError>::Err(GraphError::Unsupported),
    {
        let _ = node;
        Err(GraphError::Unsupported)
    }

    /// Adds an edge from `start_node` to `end_node` holding `data` and
    /// returns its handle, appended to the start node's successor list and
    /// the end node's predecessor list; returns nothing (and changes
    /// nothing) if either endpoint is absent.
    pub fn add_edge(&mut self, start_node: usize, end_node: usize, data: TEdge) -> (r: Option<
        usize,
    >)
        requires
            old(self).wf(),
        ensures
            final(self).wf(),
            r is Some <==> old(self).spec_has_node(start_node) && old(self).spec_has_node(
                end_node,
            ),
            r is None ==> *final(self) == *old(self),
            r is Some ==> {
                let e = r.unwrap();
                &&& e == old(self).spec_size()
                &&& !old(self).spec_has_edge(e)
                &&& final(self).spec_has_edge(e)
                &&& final(self).spec_edge_start(e) == start_node
                &&& final(self).spec_edge_end(e) == end_node
                &&& final(self).spec_edge_data(e) == data
                &&& forall|e2: usize|
                    e2 != e ==> final(self).spec_has_edge(e2) == old(self).spec_has_edge(e2)
                &&& forall|e2: usize|
                    e2 != e && old(self).spec_has_edge(e2) ==> {
                        &&& final(self).spec_edge_start(e2) == old(self).spec_edge_start(e2)
                        &&& final(self).spec_edge_end(e2) == old(self).spec_edge_end(e2)
                        &&& final(self).spec_edge_data(e2) == old(self).spec_edge_data(e2)
                    }
                &&& forall|m: usize|
                    final(self).spec_has_node(m) == old(self).spec_has_node(m)
                &&& forall|m: usize|
                    old(self).spec_has_node(m) ==> final(self).spec_node_data(m) == old(
                        self,
                    ).spec_node_data(m)
                &&& final(self).spec_succ(start_node) == old(self).spec_succ(start_node).push(e)
                &&& final(self).spec_pred(end_node) == old(self).spec_pred(end_node).push(e)
                &&& forall|m: usize|
                    m != start_node && old(self).spec_has_node(m) ==> final(self).spec_succ(m)
                        == old(self).spec_succ(m)
                &&& forall|m: usize|
                    m != end_node && old(self).spec_has_node(m) ==> final(self).spec_pred(m) == old(
                        self,
                    ).spec_pred(m)
                &&& final(self).spec_order() == old(self).spec_order()
                &&& final(self).spec_size() == old(self).spec_size() + 1
            },
    {
        if !(start_node < self.nodes.len() && end_node < self.nodes.len()) {
            return None;
        }
        let e = self.edges.len();
        self.edges.push(Edge::new(data, start_node, end_node));
        let nd = &mut self.nodes[start_node];
        nd.succ.push(e);
        let ghost mid = *self;
        let nd2 = &mut self.nodes[end_node];
        nd2.pred.push(e);
        proof {
            assert(self.spec_succ(start_node) =~= old(self).spec_succ(start_node).push(e));
            assert(self.spec_pred(end_node) =~= old(self).spec_pred(end_node).push(e));
            Self::lemma_wf_after_add_edge(*old(self), *self, start_node, end_node, e);
        }
        Some(e)
    }

    /// Appending a fresh edge to the table and to the two adjacency lists
    /// it belongs in re-establishes the invariant.
    proof fn lemma_wf_after_add_edge(pre: Self, post: Self, s: usize, en: usize, e: usize)
        requires
            pre.wf(),
            pre.spec_has_node(s),
            pre.spec_has_node(en),
            e == pre.edges@.len(),
            post.edges@ == pre.edges@.push(post.edges@.last()),
            post.edges@.last().start == s,
            post.edges@.last().end == en,
            post.nodes@.len() == pre.nodes@.len(),
            post.spec_succ(s) == pre.spec_succ(s).push(e),
            post.spec_pred(en) == pre.spec_pred(en).push(e),
            forall|m: usize|
                m != s && pre.spec_has_node(m) ==> post.spec_succ(m) == pre.spec_succ(m),
            forall|m: usize|
                m != en && pre.spec_has_node(m) ==> post.spec_pred(m) == pre.spec_pred(m),
        ensures
            post.wf(),
    {
        broadcast use vstd::seq_lib::group_seq_properties;

        assert forall|e2: usize|
            #![trigger post.edges@[e2 as int]]
            e2 < post.edges@.len() implies {
            let ed = post.edges@[e2 as int];
            &&& post.spec_has_node(ed.start)
            &&& post.spec_has_node(ed.end)
            &&& post.spec_succ(ed.start).contains(e2)
            &&& post.spec_pred(ed.end).contains(e2)
        } by {
            let ed = post.edges@[e2 as int];
            if e2 == e {
                assert(post.spec_succ(s).contains(e2));
                assert(post.spec_pred(en).contains(e2));
            } else {
                assert(post.edges@[e2 as int] == pre.edges@[e2 as int]);
                assert(pre.spec_succ(ed.start).contains(e2));
                assert(pre.spec_pred(ed.end).contains(e2));
            }
        }
        assert forall|n: usize|
            #![trigger post.nodes@[n as int]]
            n < post.nodes@.len() implies {
            &&& (forall|k: int|
                0 <= k < post.spec_succ(n).len() ==> {
                    let e2 = #[trigger] post.spec_succ(n)[k];
                    post.spec_has_edge(e2) && post.spec_edge_start(e2) == n
                })
            &&& (forall|k: int|
                0 <= k < post.spec_pred(n).len() ==> {
                    let e2 = #[trigger] post.spec_pred(n)[k];
                    post.spec_has_edge(e2) && post.spec_edge_end(e2) == n
                })
        } by {
            assert(pre.spec_succ(n) == pre.nodes@[n as int].succ@);
            assert forall|k: int|
                #![trigger post.spec_succ(n)[k]]
                0 <= k < post.spec_succ(n).len() implies {
                let e2 = post.spec_succ(n)[k];
                post.spec_has_edge(e2) && post.spec_edge_start(e2) == n
            } by {
                let e2 = post.spec_succ(n)[k];
                if n == s && k == post.spec_succ(n).len() - 1 {
                } else {
                    assert(e2 == pre.spec_succ(n)[k]);
                    assert(pre.spec_has_edge(e2) && pre.spec_edge_start(e2) == n);
                }
            }
            assert forall|k: int|
                #![trigger post.spec_pred(n)[k]]
                0 <= k < post.spec_pred(n).len() implies {
                let e2 = post.spec_pred(n)[k];
                post.spec_has_edge(e2) && post.spec_edge_end(e2) == n
            } by {
                let e2 = post.spec_pred(n)[k];
                if n == en && k == post.spec_pred(n).len() - 1 {
                } else {
                    assert(e2 == pre.spec_pred(n)[k]);
                    assert(pre.spec_has_edge(e2) && pre.spec_edge_end(e2) == n);
                }
            }
        }
    }

    /// Edge removal would have to break the node-edge reference cycle;
    /// this backing store does not support it and changes nothing.
    pub fn remove_edge(&mut self, edge: usize) -> (r: Result<TEdge, GraphError>)
        ensures
            *final(self) == *old(self),
            r == Result::<TEdge, GraphError>::Err(GraphError::Unsupported),
    {
        let _ = edge;
        Err(GraphError::Unsupported)
    }

    /// Edge removal would have to break the node-edge reference cycle;
    /// this backing store does not support it and changes nothing.
    pub fn remove_edge_between(&mut self, node_a: usize, node_b: usize) -> (r: Result<
        TEdge,
        GraphError,
    >)
        ensures
            *final(self) == *old(self),
            r == Result::<TEdge, GraphError>::Err(GraphError::Unsupported),
    {
        let _ = node_a;
        let _ = node_b;
        Err(GraphError::Unsupported)
    }

    /// Drops the graph's own top-level sequences, releasing every record
    /// the graph still owns; afterwards the graph is indistinguishable
    /// from a freshly constructed one.
    pub fn clear(&mut self)
        ensures
            final(self).wf(),
            final(self).spec_order() == 0,
            final(self).spec_size() == 0,
            forall|n: usize| !final(self).spec_has_node(n),
            forall|e: usize| !final(self).spec_has_edge(e),
    {
        self.nodes.clear();
        self.edges.clear();
    }

    /// The number of live nodes.
    pub fn order(&self) -> (r: usize)
        ensures
            r == self.spec_order(),
    {
        self.nodes.len()
    }

    /// The number of live edges.
    pub fn size(&self) -> (r: usize)
        ensures
            r == self.spec_size(),
    {
        self.edges.len()
    }

    /// Reading a payload back out would hand a caller a reference into
    /// shared storage; this backing store does not support it.
    pub fn get_node_data(&self, node: usize) -> (r: Result<&TNode, GraphError>)
        ensures
            r == Result::<&TNode, GraphError>::Err(GraphError::Unsupported),
    {
        let _ = node;
        Err(GraphError::Unsupported)
    }

    /// Reading a payload back out would hand a caller a reference into
    /// shared storage; this backing store does not support it.
    pub fn get_edge_data(&self, edge: usize) -> (r: Result<&TEdge, GraphError>)
        ensures
            r == Result::<&TEdge, GraphError>::Err(GraphError::Unsupported),
    {
        let _ = edge;
        Err(GraphError::Unsupported)
    }

    /// The handles of all live nodes, in insertion order.
    pub fn nodes(&self) -> (r: Vec<usize>)
        ensures
            r@.len() == self.spec_order(),
            forall|i: int| 0 <= i < r@.len() ==> r@[i] == i,
    {
        let mut r: Vec<usize> = Vec::new();
        let mut i: usize = 0;
        while i < self.nodes.len()
            invariant
                i <= self.nodes@.len(),
                r@.len() == i,
                forall|j: int| 0 <= j < r@.len() ==> r@[j] == j,
            decreases self.nodes@.len() - i,
        {
            r.push(i);
            i = i + 1;
        }
        r
    }

    /// The handles of all live edges, in insertion order.
    pub fn edges(&self) -> (r: Vec<usize>)
        ensures
            r@.len() == self.spec_size(),
            forall|i: int| 0 <= i < r@.len() ==> r@[i] == i,
    {
        let mut r: Vec<usize> = Vec::new();
        let mut i: usize = 0;
        while i < self.edges.len()
            invariant
                i <= self.edges@.len(),
                r@.len() == i,
                forall|j: int| 0 <= j < r@.len() ==> r@[j] == j,
            decreases self.edges@.len() - i,
        {
            r.push(i);
            i = i + 1;
        }
        r
    }
}

} // verus!
