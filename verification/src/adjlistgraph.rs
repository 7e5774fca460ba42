//! The index-table graph: nodes and edges live in two handle-indexed
//! tables, and a handle, once retired by a removal, is never handed out
//! again for the lifetime of the graph.

use vstd::prelude::*;

use crate::graph::Graph;

verus! {

/// A node record: its payload and the identifiers of the edges ending
/// here (`pred`) and starting here (`succ`).
struct Node<TNode> {
    data: TNode,
    pred: Vec<usize>,
    succ: Vec<usize>,
}

impl<TNode> Node<TNode> {
    /// A node with no incident edges yet.
    fn new(data: TNode) -> (n: Node<TNode>)
        ensures
            n.data == data,
            n.pred@ == Seq::<usize>::empty(),
            n.succ@ == Seq::<usize>::empty(),
    {
        Node { data, pred: Vec::new(), succ: Vec::new() }
    }

    /// Deletes `edge` from the successor list (it occurs at most once) by
    /// swapping the last entry into its place.
    fn remove_succ(&mut self, edge: usize)
        requires
            no_dups(old(self).succ@),
        ensures
            final(self).data == old(self).data,
            final(self).pred == old(self).pred,
            no_dups(final(self).succ@),
            forall|x: usize|
                #[trigger] final(self).succ@.contains(x) <==> old(self).succ@.contains(x) && x
                    != edge,
    {
        let mut i: usize = 0;
        let mut found = false;
        while !found && i < self.succ.len()
            invariant
                *self == *old(self),
                i <= self.succ@.len(),
                forall|j: int| 0 <= j < i ==> self.succ@[j] != edge,
                found ==> i < self.succ@.len() && self.succ@[i as int] == edge,
            decreases self.succ@.len() - i + (if found {
                0int
            } else {
                1int
            }),
        {
            if self.succ[i] == edge {
                found = true;
            } else {
                i = i + 1;
            }
        }
        if found {
            proof {
                lemma_swap_remove_membership(self.succ@, i as int);
            }
            self.succ.swap_remove(i);
        }
    }

    /// Deletes `edge` from the predecessor list (it occurs at most once)
    /// by swapping the last entry into its place.
    fn remove_pred(&mut self, edge: usize)
        requires
            no_dups(old(self).pred@),
        ensures
            final(self).data == old(self).data,
            final(self).succ == old(self).succ,
            no_dups(final(self).pred@),
            forall|x: usize|
                #[trigger] final(self).pred@.contains(x) <==> old(self).pred@.contains(x) && x
                    != edge,
    {
        let mut i: usize = 0;
        let mut found = false;
        while !found && i < self.pred.len()
            invariant
                *self == *old(self),
                i <= self.pred@.len(),
                forall|j: int| 0 <= j < i ==> self.pred@[j] != edge,
                found ==> i < self.pred@.len() && self.pred@[i as int] == edge,
            decreases self.pred@.len() - i + (if found {
                0int
            } else {
                1int
            }),
        {
            if self.pred[i] == edge {
                found = true;
            } else {
                i = i + 1;
            }
        }
        if found {
            proof {
                lemma_swap_remove_membership(self.pred@, i as int);
            }
            self.pred.swap_remove(i);
        }
    }
}

/// An edge record: its payload and its two endpoint node handles.
struct Edge<TEdge> {
    data: TEdge,
    start: usize,
    end: usize,
}

impl<TEdge> Edge<TEdge> {
    /// An edge record from `start` to `end` holding `data`.
    fn new(data: TEdge, start: usize, end: usize) -> (e: Edge<TEdge>)
        ensures
            e.data == data,
            e.start == start,
            e.end == end,
    {
        Edge { data, start, end }
    }
}

/// How many entries of a table are occupied.
pub open spec fn count_some<T>(s: Seq<Option<T>>) -> nat
    decreases s.len(),
{
    if s.len() == 0 {
        0
    } else {
        count_some(s.drop_last()) + if s.last() is Some {
            1nat
        } else {
            0nat
        }
    }
}

proof fn lemma_count_some_le_len<T>(s: Seq<Option<T>>)
    ensures
        count_some(s) <= s.len(),
    decreases s.len(),
{
    if s.len() > 0 {
        lemma_count_some_le_len(s.drop_last());
    }
}

proof fn lemma_count_some_push<T>(s: Seq<Option<T>>, v: Option<T>)
    ensures
        count_some(s.push(v)) == count_some(s) + if v is Some {
            1int
        } else {
            0int
        },
{
    assert(s.push(v).drop_last() =~= s);
}

proof fn lemma_count_some_update<T>(s: Seq<Option<T>>, i: int, v: Option<T>)
    requires
        0 <= i < s.len(),
    ensures
        count_some(s.update(i, v)) == count_some(s) - (if s[i] is Some {
            1int
        } else {
            0int
        }) + (if v is Some {
            1int
        } else {
            0int
        }),
    decreases s.len(),
{
    let t = s.update(i, v);
    if i == s.len() - 1 {
        assert(t.drop_last() =~= s.drop_last());
    } else {
        assert(t.drop_last() =~= s.drop_last().update(i, v));
        lemma_count_some_update(s.drop_last(), i, v);
    }
}

proof fn lemma_count_some_snoc<T>(s: Seq<Option<T>>, i: int)
    requires
        0 <= i < s.len(),
    ensures
        count_some(s.subrange(0, i + 1)) == count_some(s.subrange(0, i)) + if s[i] is Some {
            1int
        } else {
            0int
        },
{
    assert(s.subrange(0, i + 1).drop_last() =~= s.subrange(0, i));
    assert(s.subrange(0, i + 1).last() == s[i]);
}

/// The occupied-slot count of a table is the cardinality of the set of
/// indices holding an occupant.
proof fn lemma_count_some_is_card<T>(s: Seq<Option<T>>)
    requires
        s.len() <= usize::MAX,
    ensures
        Set::new(|i: usize| i < s.len() && s[i as int] is Some).finite(),
        count_some(s) == Set::new(|i: usize| i < s.len() && s[i as int] is Some).len(),
    decreases s.len(),
{
    let a = Set::new(|i: usize| i < s.len() && s[i as int] is Some);
    if s.len() == 0 {
        assert(a =~= Set::<usize>::empty());
    } else {
        let d = s.drop_last();
        lemma_count_some_is_card(d);
        let b = Set::new(|i: usize| i < d.len() && d[i as int] is Some);
        let last_i = (s.len() - 1) as usize;
        if s.last() is Some {
            assert(a =~= b.insert(last_i));
            assert(!b.contains(last_i));
        } else {
            assert(a =~= b);
        }
    }
}

/// No identifier occurs twice in an adjacency list.
pub open spec fn no_dups(s: Seq<usize>) -> bool {
    forall|i: int, j: int| 0 <= i < j < s.len() ==> s[i] != s[j]
}

/// Removing a list entry by swapping the last element into its place
/// keeps exactly the other entries, provided no entry repeats.
proof fn lemma_swap_remove_membership(s: Seq<usize>, i: int)
    requires
        0 <= i < s.len(),
        no_dups(s),
    ensures
        no_dups(s.update(i, s.last()).drop_last()),
        forall|x: usize|
            #[trigger] s.update(i, s.last()).drop_last().contains(x) <==> s.contains(x) && x
                != s[i],
{
    let t = s.update(i, s.last()).drop_last();
    assert forall|x: usize| #[trigger] t.contains(x) implies s.contains(x) && x != s[i] by {
        let j = choose|j: int| 0 <= j < t.len() && t[j] == x;
        if j == i {
            assert(s[s.len() - 1] == x);
            assert(s[i] != s[s.len() - 1]);
        } else {
            assert(s[j] == x);
            assert(s[j] != s[i]);
        }
    }
    assert forall|x: usize| s.contains(x) && x != s[i] implies #[trigger] t.contains(x) by {
        let j = choose|j: int| 0 <= j < s.len() && s[j] == x;
        if j < s.len() - 1 {
            assert(t[j] == x);
        } else {
            assert(i < s.len() - 1);
            assert(t[i] == x);
        }
    }
    assert forall|a: int, b: int| 0 <= a < b < t.len() implies t[a] != t[b] by {
        let a2: int = if a == i {
            s.len() - 1
        } else {
            a
        };
        let b2: int = if b == i {
            s.len() - 1
        } else {
            b
        };
        assert(t[a] == s[a2]);
        assert(t[b] == s[b2]);
        assert(a2 != b2);
    }
}

proof fn lemma_count_some_all_none<T>(s: Seq<Option<T>>)
    requires
        forall|j: int| 0 <= j < s.len() ==> s[j] is None,
    ensures
        count_some(s) == 0,
    decreases s.len(),
{
    if s.len() > 0 {
        lemma_count_some_all_none(s.drop_last());
    }
}

/// Empties every slot of a table while keeping its length, so that the
/// retired slot positions are never handed out again.
fn blank_all<T>(v: &mut Vec<Option<T>>)
    ensures
        final(v)@.len() == old(v)@.len(),
        forall|j: int| 0 <= j < final(v)@.len() ==> final(v)@[j] is None,
{
    let mut i: usize = 0;
    while i < v.len()
        invariant
            i <= v@.len(),
            v@.len() == old(v)@.len(),
            forall|j: int| 0 <= j < i ==> v@[j] is None,
        decreases v@.len() - i,
    {
        v[i] = None;
        i = i + 1;
    }
}

/// Takes the occupant of table slot `i` out, leaving the slot empty.
fn take_slot<T>(v: &mut Vec<Option<T>>, i: usize) -> (r: Option<T>)
    requires
        i < old(v)@.len(),
    ensures
        r == old(v)@[i as int],
        final(v)@ == old(v)@.update(i as int, None::<T>),
{
    let slot = &mut v[i];
    slot.take()
}

/// Puts `x` into table slot `i`.
fn put_slot<T>(v: &mut Vec<Option<T>>, i: usize, x: T)
    requires
        i < old(v)@.len(),
    ensures
        final(v)@ == old(v)@.update(i as int, Some(x)),
{
    v[i] = Some(x);
}

/// A directed graph backed by two handle-indexed tables. Handles are
/// indices that grow monotonically: a removal retires its slot, and no
/// later insertion reuses it, so a stale handle kept by a caller resolves
/// to "absent" rather than to a younger element.
pub struct AdjListGraph<TNode, TEdge> {
    nodes: Vec<Option<Node<TNode>>>,
    edges: Vec<Option<Edge<TEdge>>>,
    n_nodes: usize,
    n_edges: usize,
}

impl<TNode, TEdge> AdjListGraph<TNode, TEdge> {

    /// The node handle `n` refers to a live node.
    pub closed spec fn spec_has_node(self, n: usize) -> bool {
        n < self.nodes@.len() && self.nodes@[n as int] is Some
    }

    /// The payload of live node `n`.
    pub closed spec fn spec_node_data(self, n: usize) -> TNode
        recommends
            self.spec_has_node(n),
    {
        self.nodes@[n as int].unwrap().data
    }

    /// The identifiers of the edges ending at node `n`, in list order.
    pub closed spec fn spec_pred(self, n: usize) -> Seq<usize>
        recommends
            self.spec_has_node(n),
    {
        self.nodes@[n as int].unwrap().pred@
    }

    /// The identifiers of the edges starting at node `n`, in list order.
    pub closed spec fn spec_succ(self, n: usize) -> Seq<usize>
        recommends
            self.spec_has_node(n),
    {
        self.nodes@[n as int].unwrap().succ@
    }

    /// The edge handle `e` refers to a live edge.
    pub closed spec fn spec_has_edge(self, e: usize) -> bool {
        e < self.edges@.len() && self.edges@[e as int] is Some
    }

    /// The start node of live edge `e`.
    pub closed spec fn spec_edge_start(self, e: usize) -> usize
        recommends
            self.spec_has_edge(e),
    {
        self.edges@[e as int].unwrap().start
    }

    /// The end node of live edge `e`.
    pub closed spec fn spec_edge_end(self, e: usize) -> usize
        recommends
            self.spec_has_edge(e),
    {
        self.edges@[e as int].unwrap().end
    }

    /// The payload of live edge `e`.
    pub closed spec fn spec_edge_data(self, e: usize) -> TEdge
        recommends
            self.spec_has_edge(e),
    {
        self.edges@[e as int].unwrap().data
    }

    /// The number of live nodes.
    pub closed spec fn spec_order(self) -> nat {
        count_some(self.nodes@)
    }

    /// The number of live edges.
    pub closed spec fn spec_size(self) -> nat {
        count_some(self.edges@)
    }

    /// All node handles ever issued lie below this bound; no operation,
    /// removal or `clear`, ever lowers it, which is what makes handle
    /// reuse impossible.
    pub closed spec fn spec_node_bound(self) -> nat {
        self.nodes@.len()
    }

    /// All edge handles ever issued lie below this bound.
    pub closed spec fn spec_edge_bound(self) -> nat {
        self.edges@.len()
    }

    /// Some edge leads from live node `a` straight to node `b`.
    pub open spec fn spec_has_edge_between(self, a: usize, b: usize) -> bool {
        self.spec_has_node(a) && exists|k: int|
            0 <= k < self.spec_succ(a).len() && self.spec_edge_end(
                #[trigger] self.spec_succ(a)[k],
            ) == b
    }

    /// The first edge at or after position `k` of `a`'s successor list
    /// that ends at `b`.
    spec fn first_to_from(self, a: usize, b: usize, k: int) -> Option<usize>
        decreases self.spec_succ(a).len() - k,
    {
        if k < 0 || k >= self.spec_succ(a).len() {
            None
        } else if self.spec_edge_end(self.spec_succ(a)[k]) == b {
            Some(self.spec_succ(a)[k])
        } else {
            self.first_to_from(a, b, k + 1)
        }
    }

    /// The first edge, in successor-list order, leading from `a` to `b`.
    pub closed spec fn spec_first_edge_to(self, a: usize, b: usize) -> Option<usize> {
        if self.spec_has_node(a) {
            self.first_to_from(a, b, 0)
        } else {
            None
        }
    }

    /// Every live edge points at live endpoints, each of which lists it
    /// under the matching role.
    spec fn edges_consistent(self) -> bool {
        forall|e: usize|
            #![trigger self.edges@[e as int]]
            e < self.edges@.len() && self.edges@[e as int] is Some ==> {
                let ed = self.edges@[e as int].unwrap();
                &&& self.spec_has_node(ed.start)
                &&& self.spec_has_node(ed.end)
                &&& self.spec_succ(ed.start).contains(e)
                &&& self.spec_pred(ed.end).contains(e)
            }
    }

    /// Every adjacency entry of a live node names a live edge whose
    /// endpoint field matches the list's role, and no list repeats an
    /// entry.
    spec fn nodes_consistent(self) -> bool {
        forall|n: usize|
            #![trigger self.nodes@[n as int]]
            n < self.nodes@.len() && self.nodes@[n as int] is Some ==> {
                &&& (forall|k: int|
                    0 <= k < self.spec_succ(n).len() ==> {
                        let e = #[trigger] self.spec_succ(n)[k];
                        self.spec_has_edge(e) && self.spec_edge_start(e) == n
                    })
                &&& (forall|k: int|
                    0 <= k < self.spec_pred(n).len() ==> {
                        let e = #[trigger] self.spec_pred(n)[k];
                        self.spec_has_edge(e) && self.spec_edge_end(e) == n
                    })
                &&& no_dups(self.spec_succ(n))
                &&& no_dups(self.spec_pred(n))
            }
    }

    /// A fresh, empty graph.
    pub fn new() -> (g: AdjListGraph<TNode, TEdge>)
        ensures
            g.wf(),
            g.spec_order() == 0,
            g.spec_size() == 0,
            forall|n: usize| !g.spec_has_node(n),
            forall|e: usize| !g.spec_has_edge(e),
            g.spec_node_bound() == 0,
            g.spec_edge_bound() == 0,
    {
        AdjListGraph { nodes: Vec::new(), edges: Vec::new(), n_nodes: 0, n_edges: 0 }
    }

    /// Appending a fresh edge to the tables and to the two adjacency
    /// lists it belongs in re-establishes the invariant.
    proof fn lemma_wf_after_add_edge(pre: Self, post: Self, s: usize, en: usize, e: usize)
        requires
            pre.edges_consistent(),
            pre.nodes_consistent(),
            pre.spec_has_node(s),
            pre.spec_has_node(en),
            e == pre.edges@.len(),
            post.edges@.last() is Some,
            post.edges@.last().unwrap().start == s,
            post.edges@.last().unwrap().end == en,
            post.edges@ == pre.edges@.push(post.edges@.last()),
            post.nodes@.len() == pre.nodes@.len(),
            forall|m: usize| post.spec_has_node(m) == pre.spec_has_node(m),
            post.spec_succ(s) == pre.spec_succ(s).push(e),
            post.spec_pred(en) == pre.spec_pred(en).push(e),
            forall|m: usize|
                m != s && pre.spec_has_node(m) ==> post.spec_succ(m) == pre.spec_succ(m),
            forall|m: usize|
                m != en && pre.spec_has_node(m) ==> post.spec_pred(m) == pre.spec_pred(m),
        ensures
            post.edges_consistent(),
            post.nodes_consistent(),
    {
        broadcast use vstd::seq_lib::group_seq_properties;

        assert forall|e2: usize|
            e2 < post.edges@.len() && post.edges@[e2 as int] is Some implies {
            let ed = post.edges@[e2 as int].unwrap();
            &&& post.spec_has_node(ed.start)
            &&& post.spec_has_node(ed.end)
            &&& post.spec_succ(ed.start).contains(e2)
            &&& post.spec_pred(ed.end).contains(e2)
        } by {
            let ed = post.edges@[e2 as int].unwrap();
            if e2 == e {
                assert(post.spec_succ(s).contains(e2));
                assert(post.spec_pred(en).contains(e2));
            } else {
                assert(pre.edges@[e2 as int] is Some);
                assert(pre.spec_succ(ed.start).contains(e2));
                assert(pre.spec_pred(ed.end).contains(e2));
            }
        }
        assert forall|n: usize|
            n < post.nodes@.len() && post.nodes@[n as int] is Some implies {
            &&& (forall|k: int|
                0 <= k < post.spec_succ(n).len() ==> {
                    let e2 = #[trigger] post.spec_succ(n)[k];
                    post.spec_has_edge(e2) && post.spec_edge_start(e2) == n
                })
            &&& (forall|k: int|
                0 <= k < post.spec_pred(n).len() ==> {
                    let e2 = #[trigger] post.spec_pred(n)[k];
                    post.spec_has_edge(e2) && post.spec_edge_end(e2) == n
                })
            &&& no_dups(post.spec_succ(n))
            &&& no_dups(post.spec_pred(n))
        } by {
            assert(pre.spec_has_node(n));
            assert forall|k: int|
                #![trigger post.spec_succ(n)[k]]
                0 <= k < post.spec_succ(n).len() implies {
                let e2 = post.spec_succ(n)[k];
                post.spec_has_edge(e2) && post.spec_edge_start(e2) == n
            } by {
                let e2 = post.spec_succ(n)[k];
                if n == s && k == post.spec_succ(n).len() - 1 {
                } else {
                    assert(e2 == pre.spec_succ(n)[k]);
                    assert(pre.spec_has_edge(e2) && pre.spec_edge_start(e2) == n);
                }
            }
            assert forall|k: int|
                #![trigger post.spec_pred(n)[k]]
                0 <= k < post.spec_pred(n).len() implies {
                let e2 = post.spec_pred(n)[k];
                post.spec_has_edge(e2) && post.spec_edge_end(e2) == n
            } by {
                let e2 = post.spec_pred(n)[k];
                if n == en && k == post.spec_pred(n).len() - 1 {
                } else {
                    assert(e2 == pre.spec_pred(n)[k]);
                    assert(pre.spec_has_edge(e2) && pre.spec_edge_end(e2) == n);
                }
            }
            assert(no_dups(post.spec_succ(n))) by {
                if n == s {
                    assert(forall|k: int|
                        0 <= k < pre.spec_succ(n).len() ==> #[trigger] pre.spec_succ(n)[k] != e);
                }
            }
            assert(no_dups(post.spec_pred(n))) by {
                if n == en {
                    assert(forall|k: int|
                        0 <= k < pre.spec_pred(n).len() ==> #[trigger] pre.spec_pred(n)[k] != e);
                }
            }
        }
    }

    /// Blanking an edge's table slot and stripping its handle from its two
    /// endpoints' lists re-establishes the invariant.
    proof fn lemma_wf_after_remove_edge(pre: Self, post: Self, s: usize, en: usize, edge: usize)
        requires
            pre.edges_consistent(),
            pre.nodes_consistent(),
            pre.spec_has_edge(edge),
            s == pre.spec_edge_start(edge),
            en == pre.spec_edge_end(edge),
            post.edges@ == pre.edges@.update(edge as int, None::<Edge<TEdge>>),
            post.nodes@.len() == pre.nodes@.len(),
            forall|m: usize| post.spec_has_node(m) == pre.spec_has_node(m),
            forall|m: usize|
                m != s && pre.spec_has_node(m) ==> post.spec_succ(m) == pre.spec_succ(m),
            forall|m: usize|
                m != en && pre.spec_has_node(m) ==> post.spec_pred(m) == pre.spec_pred(m),
            no_dups(post.spec_succ(s)),
            no_dups(post.spec_pred(en)),
            forall|x: usize|
                #[trigger] post.spec_succ(s).contains(x) <==> pre.spec_succ(s).contains(x) && x
                    != edge,
            forall|x: usize|
                #[trigger] post.spec_pred(en).contains(x) <==> pre.spec_pred(en).contains(x) && x
                    != edge,
        ensures
            post.edges_consistent(),
            post.nodes_consistent(),
    {
        assert forall|e2: usize|
            e2 < post.edges@.len() && post.edges@[e2 as int] is Some implies {
            let ed = post.edges@[e2 as int].unwrap();
            &&& post.spec_has_node(ed.start)
            &&& post.spec_has_node(ed.end)
            &&& post.spec_succ(ed.start).contains(e2)
            &&& post.spec_pred(ed.end).contains(e2)
        } by {
            let ed = post.edges@[e2 as int].unwrap();
            assert(e2 != edge);
            assert(pre.edges@[e2 as int] is Some);
            assert(pre.spec_succ(ed.start).contains(e2));
            assert(pre.spec_pred(ed.end).contains(e2));
        }
        assert forall|n: usize|
            n < post.nodes@.len() && post.nodes@[n as int] is Some implies {
            &&& (forall|k: int|
                0 <= k < post.spec_succ(n).len() ==> {
                    let e2 = #[trigger] post.spec_succ(n)[k];
                    post.spec_has_edge(e2) && post.spec_edge_start(e2) == n
                })
            &&& (forall|k: int|
                0 <= k < post.spec_pred(n).len() ==> {
                    let e2 = #[trigger] post.spec_pred(n)[k];
                    post.spec_has_edge(e2) && post.spec_edge_end(e2) == n
                })
            &&& no_dups(post.spec_succ(n))
            &&& no_dups(post.spec_pred(n))
        } by {
            assert(pre.spec_has_node(n));
            assert forall|k: int|
                #![trigger post.spec_succ(n)[k]]
                0 <= k < post.spec_succ(n).len() implies {
                let e2 = post.spec_succ(n)[k];
                post.spec_has_edge(e2) && post.spec_edge_start(e2) == n
            } by {
                let e2 = post.spec_succ(n)[k];
                assert(post.spec_succ(n).contains(e2));
                if n == s {
                    assert(pre.spec_succ(n).contains(e2) && e2 != edge);
                } else {
                    assert(pre.spec_succ(n).contains(e2));
                    assert(pre.spec_edge_start(e2) == n);
                    assert(e2 != edge);
                }
                assert(pre.spec_has_edge(e2) && pre.spec_edge_start(e2) == n);
            }
            assert forall|k: int|
                #![trigger post.spec_pred(n)[k]]
                0 <= k < post.spec_pred(n).len() implies {
                let e2 = post.spec_pred(n)[k];
                post.spec_has_edge(e2) && post.spec_edge_end(e2) == n
            } by {
                let e2 = post.spec_pred(n)[k];
                assert(post.spec_pred(n).contains(e2));
                if n == en {
                    assert(pre.spec_pred(n).contains(e2) && e2 != edge);
                } else {
                    assert(pre.spec_pred(n).contains(e2));
                    assert(pre.spec_edge_end(e2) == n);
                    assert(e2 != edge);
                }
                assert(pre.spec_has_edge(e2) && pre.spec_edge_end(e2) == n);
            }
            if n != s {
                assert(no_dups(post.spec_succ(n)));
            }
            if n != en {
                assert(no_dups(post.spec_pred(n)));
            }
        }
    }

    /// After the cascade: the node slot is blank, exactly the incident
    /// edges' slots were blanked, and every surviving adjacency list was
    /// stripped of exactly those handles; the invariant holds again.
    proof fn lemma_wf_after_remove_node(
        pre: Self,
        post: Self,
        node: usize,
        s_seq: Seq<usize>,
        p_seq: Seq<usize>,
    )
        requires
            pre.wf(),
            pre.spec_has_node(node),
            s_seq == pre.spec_succ(node),
            p_seq == pre.spec_pred(node),
            post.nodes@.len() == pre.nodes@.len(),
            post.edges@.len() == pre.edges@.len(),
            post.nodes@[node as int] is None,
            forall|m: usize| m != node ==> post.spec_has_node(m) == pre.spec_has_node(m),
            forall|m: usize|
                #![trigger post.spec_node_data(m)]
                m != node && pre.spec_has_node(m) ==> post.spec_node_data(m) == pre.spec_node_data(
                    m,
                ),
            forall|m: usize|
                #![trigger post.spec_succ(m)]
                m != node && pre.spec_has_node(m) ==> no_dups(post.spec_succ(m)),
            forall|m: usize|
                #![trigger post.spec_pred(m)]
                m != node && pre.spec_has_node(m) ==> no_dups(post.spec_pred(m)),
            forall|m: usize, x: usize|
                m != node && pre.spec_has_node(m) ==> (#[trigger] post.spec_pred(m).contains(x)
                    <==> pre.spec_pred(m).contains(x) && !s_seq.contains(x)),
            forall|m: usize, x: usize|
                m != node && pre.spec_has_node(m) ==> (#[trigger] post.spec_succ(m).contains(x)
                    <==> pre.spec_succ(m).contains(x) && !p_seq.contains(x)),
            forall|e2: usize|
                #![trigger post.edges@[e2 as int]]
                e2 < post.edges@.len() && !s_seq.contains(e2) && !p_seq.contains(e2)
                    ==> post.edges@[e2 as int] == pre.edges@[e2 as int],
            forall|e2: usize|
                #![trigger post.edges@[e2 as int]]
                e2 < post.edges@.len() && (s_seq.contains(e2) || p_seq.contains(e2))
                    ==> post.edges@[e2 as int] is None,
        ensures
            post.edges_consistent(),
            post.nodes_consistent(),
            forall|e: usize|
                #![trigger post.spec_has_edge(e)]
                post.spec_has_edge(e) <==> pre.spec_has_edge(e) && pre.spec_edge_start(e) != node
                    && pre.spec_edge_end(e) != node,
            forall|e: usize|
                #![trigger post.spec_has_edge(e)]
                post.spec_has_edge(e) ==> {
                    &&& post.spec_edge_start(e) == pre.spec_edge_start(e)
                    &&& post.spec_edge_end(e) == pre.spec_edge_end(e)
                    &&& post.spec_edge_data(e) == pre.spec_edge_data(e)
                },
            forall|m: usize, x: usize|
                m != node && pre.spec_has_node(m) ==> (#[trigger] post.spec_succ(m).contains(x)
                    <==> pre.spec_succ(m).contains(x) && pre.spec_edge_end(x) != node),
            forall|m: usize, x: usize|
                m != node && pre.spec_has_node(m) ==> (#[trigger] post.spec_pred(m).contains(x)
                    <==> pre.spec_pred(m).contains(x) && pre.spec_edge_start(x) != node),
    {
        assert forall|e2: usize|
            pre.spec_has_edge(e2) implies (s_seq.contains(e2) <==> pre.spec_edge_start(e2) == node)
            && (p_seq.contains(e2) <==> pre.spec_edge_end(e2) == node) by {
            if s_seq.contains(e2) {
                let j = choose|j: int| 0 <= j < s_seq.len() && s_seq[j] == e2;
                assert(pre.spec_edge_start(e2) == node);
            }
            if p_seq.contains(e2) {
                let j = choose|j: int| 0 <= j < p_seq.len() && p_seq[j] == e2;
                assert(pre.spec_edge_end(e2) == node);
            }
        }
        assert forall|e2: usize|
            s_seq.contains(e2) || p_seq.contains(e2) implies pre.spec_has_edge(e2) by {
            if s_seq.contains(e2) {
                let j = choose|j: int| 0 <= j < s_seq.len() && s_seq[j] == e2;
            } else {
                let j = choose|j: int| 0 <= j < p_seq.len() && p_seq[j] == e2;
            }
        }
        assert forall|e: usize|
            #![trigger post.spec_has_edge(e)]
            post.spec_has_edge(e) <==> pre.spec_has_edge(e) && pre.spec_edge_start(e) != node
                && pre.spec_edge_end(e) != node by {
            if e < post.edges@.len() {
                if s_seq.contains(e) || p_seq.contains(e) {
                    assert(post.edges@[e as int] is None);
                } else {
                    assert(post.edges@[e as int] == pre.edges@[e as int]);
                }
            }
        }
        assert forall|m: usize, x: usize|
            m != node && pre.spec_has_node(m) implies (#[trigger] post.spec_succ(m).contains(x)
                <==> pre.spec_succ(m).contains(x) && pre.spec_edge_end(x) != node) by {
            if pre.spec_succ(m).contains(x) {
                let j = choose|j: int|
                    0 <= j < pre.spec_succ(m).len() && pre.spec_succ(m)[j] == x;
                assert(pre.spec_has_edge(x) && pre.spec_edge_start(x) == m);
            }
        }
        assert forall|m: usize, x: usize|
            m != node && pre.spec_has_node(m) implies (#[trigger] post.spec_pred(m).contains(x)
                <==> pre.spec_pred(m).contains(x) && pre.spec_edge_start(x) != node) by {
            if pre.spec_pred(m).contains(x) {
                let j = choose|j: int|
                    0 <= j < pre.spec_pred(m).len() && pre.spec_pred(m)[j] == x;
                assert(pre.spec_has_edge(x) && pre.spec_edge_end(x) == m);
            }
        }
        assert forall|e2: usize|
            e2 < post.edges@.len() && post.edges@[e2 as int] is Some implies {
            let ed = post.edges@[e2 as int].unwrap();
            &&& post.spec_has_node(ed.start)
            &&& post.spec_has_node(ed.end)
            &&& post.spec_succ(ed.start).contains(e2)
            &&& post.spec_pred(ed.end).contains(e2)
        } by {
            let ed = post.edges@[e2 as int].unwrap();
            assert(pre.spec_has_edge(e2));
            assert(ed == pre.edges@[e2 as int].unwrap());
            assert(ed.start != node && ed.end != node);
            assert(pre.spec_succ(ed.start).contains(e2));
            assert(pre.spec_pred(ed.end).contains(e2));
            assert(!p_seq.contains(e2) && !s_seq.contains(e2));
        }
        assert forall|n: usize|
            n < post.nodes@.len() && post.nodes@[n as int] is Some implies {
            &&& (forall|k: int|
                0 <= k < post.spec_succ(n).len() ==> {
                    let e2 = #[trigger] post.spec_succ(n)[k];
                    post.spec_has_edge(e2) && post.spec_edge_start(e2) == n
                })
            &&& (forall|k: int|
                0 <= k < post.spec_pred(n).len() ==> {
                    let e2 = #[trigger] post.spec_pred(n)[k];
                    post.spec_has_edge(e2) && post.spec_edge_end(e2) == n
                })
            &&& no_dups(post.spec_succ(n))
            &&& no_dups(post.spec_pred(n))
        } by {
            assert(n != node);
            assert(pre.spec_has_node(n));
            assert(pre.nodes@[n as int] is Some);
            assert forall|k: int|
                #![trigger post.spec_succ(n)[k]]
                0 <= k < post.spec_succ(n).len() implies {
                let e2 = post.spec_succ(n)[k];
                post.spec_has_edge(e2) && post.spec_edge_start(e2) == n
            } by {
                let e2 = post.spec_succ(n)[k];
                assert(post.spec_succ(n).contains(e2));
                assert(pre.spec_succ(n).contains(e2) && !p_seq.contains(e2));
                let j = choose|j: int|
                    0 <= j < pre.spec_succ(n).len() && pre.spec_succ(n)[j] == e2;
                assert(pre.spec_succ(n)[j] == e2);
                assert(pre.spec_has_edge(e2) && pre.spec_edge_start(e2) == n);
                assert(!s_seq.contains(e2));
                assert(post.edges@[e2 as int] == pre.edges@[e2 as int]);
            }
            assert forall|k: int|
                #![trigger post.spec_pred(n)[k]]
                0 <= k < post.spec_pred(n).len() implies {
                let e2 = post.spec_pred(n)[k];
                post.spec_has_edge(e2) && post.spec_edge_end(e2) == n
            } by {
                let e2 = post.spec_pred(n)[k];
                assert(post.spec_pred(n).contains(e2));
                assert(pre.spec_pred(n).contains(e2) && !s_seq.contains(e2));
                let j = choose|j: int|
                    0 <= j < pre.spec_pred(n).len() && pre.spec_pred(n)[j] == e2;
                assert(pre.spec_pred(n)[j] == e2);
                assert(pre.spec_has_edge(e2) && pre.spec_edge_end(e2) == n);
                assert(!p_seq.contains(e2));
                assert(post.edges@[e2 as int] == pre.edges@[e2 as int]);
            }
        }
    }

    /// The number of live edges.
    pub fn size(&self) -> (r: usize)
        requires
            self.wf(),
        ensures
            r == self.spec_size(),
    {
        self.n_edges
    }

    /// The node count reported by `order` is the cardinality of the set of
    /// live node handles.
    pub proof fn lemma_order_is_live_node_count(self)
        ensures
            Set::new(|n: usize| self.spec_has_node(n)).finite(),
            self.spec_order() == Set::new(|n: usize| self.spec_has_node(n)).len(),
    {
        assert(self.nodes.len() == self.nodes@.len());
        lemma_count_some_is_card(self.nodes@);
        assert(Set::new(|n: usize| self.spec_has_node(n)) =~= Set::new(
            |i: usize| i < self.nodes@.len() && self.nodes@[i as int] is Some,
        ));
    }

    /// The edge count reported by `size` is the cardinality of the set of
    /// live edge handles.
    pub proof fn lemma_size_is_live_edge_count(self)
        ensures
            Set::new(|e: usize| self.spec_has_edge(e)).finite(),
            self.spec_size() == Set::new(|e: usize| self.spec_has_edge(e)).len(),
    {
        assert(self.edges.len() == self.edges@.len());
        lemma_count_some_is_card(self.edges@);
        assert(Set::new(|e: usize| self.spec_has_edge(e)) =~= Set::new(
            |i: usize| i < self.edges@.len() && self.edges@[i as int] is Some,
        ));
    }

    /// No adjacency entry dangles: any edge identifier listed among a live
    /// node's incident edges refers to a live edge, whose matching
    /// endpoint is that node.
    pub proof fn lemma_no_dangling_adjacency(self, node: usize, e: usize)
        requires
            self.wf(),
            self.spec_has_node(node),
            (self.spec_pred(node) + self.spec_succ(node)).contains(e),
        ensures
            self.spec_has_edge(e),
            self.spec_edge_start(e) == node || self.spec_edge_end(e) == node,
    {
        let both = self.spec_pred(node) + self.spec_succ(node);
        let j = choose|j: int| 0 <= j < both.len() && both[j] == e;
        assert(self.nodes@[node as int] is Some);
        if j < self.spec_pred(node).len() {
            assert(self.spec_pred(node)[j] == e);
        } else {
            assert(self.spec_succ(node)[j - self.spec_pred(node).len()] == e);
        }
    }

    /// Every live handle lies below the issue bound; a fresh handle equals
    /// the bound, so no removal can ever be followed by a re-issue.
    pub proof fn lemma_live_handle_below_bound(self, node: usize)
        requires
            self.spec_has_node(node),
        ensures
            (node as nat) < self.spec_node_bound(),
    {
    }

    /// A live edge's endpoints are live nodes, and each lists the edge
    /// under the matching role.
    pub proof fn lemma_edge_endpoints_live(self, e: usize)
        requires
            self.wf(),
            self.spec_has_edge(e),
        ensures
            self.spec_has_node(self.spec_edge_start(e)),
            self.spec_has_node(self.spec_edge_end(e)),
            self.spec_succ(self.spec_edge_start(e)).contains(e),
            self.spec_pred(self.spec_edge_end(e)).contains(e),
    {
        assert(self.edges@[e as int] is Some);
    }

    /// A live node's adjacency lists never repeat an entry.
    pub proof fn lemma_adjacency_no_dups(self, node: usize)
        requires
            self.wf(),
            self.spec_has_node(node),
        ensures
            no_dups(self.spec_succ(node)),
            no_dups(self.spec_pred(node)),
    {
        assert(self.nodes@[node as int] is Some);
    }

    /// A live node's successor list holds exactly the live edges starting
    /// there, and its predecessor list exactly the live edges ending
    /// there.
    pub proof fn lemma_adjacency_exact(self, node: usize, e: usize)
        requires
            self.wf(),
            self.spec_has_node(node),
        ensures
            self.spec_succ(node).contains(e) <==> self.spec_has_edge(e) && self.spec_edge_start(e)
                == node,
            self.spec_pred(node).contains(e) <==> self.spec_has_edge(e) && self.spec_edge_end(e)
                == node,
    {
        assert(self.nodes@[node as int] is Some);
        if self.spec_succ(node).contains(e) {
            let j = choose|j: int|
                0 <= j < self.spec_succ(node).len() && self.spec_succ(node)[j] == e;
            assert(self.spec_succ(node)[j] == e);
        }
        if self.spec_pred(node).contains(e) {
            let j = choose|j: int|
                0 <= j < self.spec_pred(node).len() && self.spec_pred(node)[j] == e;
            assert(self.spec_pred(node)[j] == e);
        }
        if self.spec_has_edge(e) {
            assert(self.edges@[e as int] is Some);
        }
    }

    /// Handle non-reuse: a handle that was ever live in a graph — such as
    /// one later removed — differs from every handle issued at or above
    /// that graph's bound. `add_node` issues exactly the current bound,
    /// and no operation, `clear` included, ever lowers it, so a removed
    /// node's handle never comes back.
    pub proof fn lemma_handle_non_reuse(self, node: usize, fresh: usize)
        requires
            self.spec_has_node(node),
            fresh >= self.spec_node_bound(),
        ensures
            fresh != node,
    {
    }
}

impl<TNode, TEdge> Graph<TNode, TEdge> for AdjListGraph<TNode, TEdge> {
    type TIndex = usize;

    /// The bookkeeping invariant: counters agree with the tables, no
    /// adjacency entry dangles, and every live edge is listed by both of
    /// its endpoints. Every public operation preserves it.
    closed spec fn wf(&self) -> bool {
        &&& self.n_nodes == count_some(self.nodes@)
        &&& self.n_edges == count_some(self.edges@)
        &&& self.edges_consistent()
        &&& self.nodes_consistent()
    }

    /// Adds a node holding `data` and returns its handle. The handle is
    /// fresh: no node, live or removed, ever carried it before.
    fn add_node(&mut self, data: TNode) -> (n: usize)
        ensures
            final(self).wf(),
            n == old(self).spec_node_bound(),
            !old(self).spec_has_node(n),
            final(self).spec_has_node(n),
            final(self).spec_node_data(n) == data,
            final(self).spec_pred(n) == Seq::<usize>::empty(),
            final(self).spec_succ(n) == Seq::<usize>::empty(),
            forall|m: usize| m != n ==> final(self).spec_has_node(m) == old(self).spec_has_node(m),
            forall|m: usize|
                m != n && old(self).spec_has_node(m) ==> {
                    &&& final(self).spec_node_data(m) == old(self).spec_node_data(m)
                    &&& final(self).spec_pred(m) == old(self).spec_pred(m)
                    &&& final(self).spec_succ(m) == old(self).spec_succ(m)
                },
            forall|e: usize| final(self).spec_has_edge(e) == old(self).spec_has_edge(e),
            forall|e: usize|
                old(self).spec_has_edge(e) ==> {
                    &&& final(self).spec_edge_start(e) == old(self).spec_edge_start(e)
                    &&& final(self).spec_edge_end(e) == old(self).spec_edge_end(e)
                    &&& final(self).spec_edge_data(e) == old(self).spec_edge_data(e)
                },
            final(self).spec_order() == old(self).spec_order() + 1,
            final(self).spec_size() == old(self).spec_size(),
            final(self).spec_node_bound() == old(self).spec_node_bound() + 1,
            final(self).spec_edge_bound() == old(self).spec_edge_bound(),
    {
        let n = self.nodes.len();
        self.nodes.push(Some(Node::new(data)));
        proof {
            assert(self.nodes.len() == n + 1);
            lemma_count_some_le_len(old(self).nodes@);
            lemma_count_some_push(old(self).nodes@, self.nodes@.last());
        }
        self.n_nodes = self.n_nodes + 1;
        n
    }

    /// Adds an edge from `start_node` to `end_node` holding `data` and
    /// returns its fresh handle, or nothing (leaving the graph unchanged)
    /// if either endpoint is absent. The new handle is appended to the
    /// start node's successor list and the end node's predecessor list.
    fn add_edge(&mut self, start_node: usize, end_node: usize, data: TEdge) -> (r: Option<
        usize,
    >)
        ensures
            final(self).wf(),
            r is Some <==> old(self).spec_has_node(start_node) && old(self).spec_has_node(
                end_node,
            ),
            r is None ==> *final(self) == *old(self),
            r is Some ==> {
                let e = r.unwrap();
                &&& e == old(self).spec_edge_bound()
                &&& !old(self).spec_has_edge(e)
                &&& final(self).spec_has_edge(e)
                &&& final(self).spec_edge_start(e) == start_node
                &&& final(self).spec_edge_end(e) == end_node
                &&& final(self).spec_edge_data(e) == data
                &&& forall|e2: usize|
                    e2 != e ==> final(self).spec_has_edge(e2) == old(self).spec_has_edge(e2)
                &&& forall|e2: usize|
                    e2 != e && old(self).spec_has_edge(e2) ==> {
                        &&& final(self).spec_edge_start(e2) == old(self).spec_edge_start(e2)
                        &&& final(self).spec_edge_end(e2) == old(self).spec_edge_end(e2)
                        &&& final(self).spec_edge_data(e2) == old(self).spec_edge_data(e2)
                    }
                &&& forall|m: usize|
                    final(self).spec_has_node(m) == old(self).spec_has_node(m)
                &&& forall|m: usize|
                    old(self).spec_has_node(m) ==> final(self).spec_node_data(m) == old(
                        self,
                    ).spec_node_data(m)
                &&& final(self).spec_succ(start_node) == old(self).spec_succ(start_node).push(e)
                &&& final(self).spec_pred(end_node) == old(self).spec_pred(end_node).push(e)
                &&& forall|m: usize|
                    m != start_node && old(self).spec_has_node(m) ==> final(self).spec_succ(m)
                        == old(self).spec_succ(m)
                &&& forall|m: usize|
                    m != end_node && old(self).spec_has_node(m) ==> final(self).spec_pred(m) == old(
                        self,
                    ).spec_pred(m)
                &&& final(self).spec_order() == old(self).spec_order()
                &&& final(self).spec_size() == old(self).spec_size() + 1
                &&& final(self).spec_node_bound() == old(self).spec_node_bound()
                &&& final(self).spec_edge_bound() == old(self).spec_edge_bound() + 1
            },
    {
        if !(self.has_node(start_node) && self.has_node(end_node)) {
            return None;
        }
        let e = self.edges.len();
        self.edges.push(Some(Edge::new(data, start_node, end_node)));
        proof {
            assert(self.edges.len() == e + 1);
            lemma_count_some_le_len(old(self).edges@);
            lemma_count_some_push(old(self).edges@, self.edges@.last());
        }
        self.n_edges = self.n_edges + 1;
        let mut nd = take_slot(&mut self.nodes, start_node).unwrap();
        proof {
            lemma_count_some_update(old(self).nodes@, start_node as int, None::<Node<TNode>>);
        }
        nd.succ.push(e);
        put_slot(&mut self.nodes, start_node, nd);
        proof {
            lemma_count_some_update(
                old(self).nodes@.update(start_node as int, None::<Node<TNode>>),
                start_node as int,
                self.nodes@[start_node as int],
            );
        }
        let ghost mid = *self;
        let mut nd2 = take_slot(&mut self.nodes, end_node).unwrap();
        proof {
            lemma_count_some_update(mid.nodes@, end_node as int, None::<Node<TNode>>);
        }
        nd2.pred.push(e);
        put_slot(&mut self.nodes, end_node, nd2);
        proof {
            lemma_count_some_update(
                mid.nodes@.update(end_node as int, None::<Node<TNode>>),
                end_node as int,
                self.nodes@[end_node as int],
            );
            assert(self.spec_succ(start_node) =~= old(self).spec_succ(start_node).push(e));
            assert(self.spec_pred(end_node) =~= old(self).spec_pred(end_node).push(e));
            Self::lemma_wf_after_add_edge(*old(self), *self, start_node, end_node, e);
        }
        Some(e)
    }

    /// Removes `edge`, strips its handle from both endpoints' adjacency
    /// lists, and returns its payload; returns nothing (and changes
    /// nothing) if the handle is stale or unknown.
    fn remove_edge(&mut self, edge: usize) -> (r: Option<TEdge>)
        ensures
            final(self).wf(),
            r is Some <==> old(self).spec_has_edge(edge),
            r is None ==> *final(self) == *old(self),
            r is Some ==> {
                let s = old(self).spec_edge_start(edge);
                let en = old(self).spec_edge_end(edge);
                &&& r.unwrap() == old(self).spec_edge_data(edge)
                &&& !final(self).spec_has_edge(edge)
                &&& forall|e2: usize|
                    e2 != edge ==> final(self).spec_has_edge(e2) == old(self).spec_has_edge(e2)
                &&& forall|e2: usize|
                    e2 != edge && old(self).spec_has_edge(e2) ==> {
                        &&& final(self).spec_edge_start(e2) == old(self).spec_edge_start(e2)
                        &&& final(self).spec_edge_end(e2) == old(self).spec_edge_end(e2)
                        &&& final(self).spec_edge_data(e2) == old(self).spec_edge_data(e2)
                    }
                &&& forall|m: usize|
                    final(self).spec_has_node(m) == old(self).spec_has_node(m)
                &&& forall|m: usize|
                    old(self).spec_has_node(m) ==> final(self).spec_node_data(m) == old(
                        self,
                    ).spec_node_data(m)
                &&& forall|m: usize|
                    m != s && old(self).spec_has_node(m) ==> final(self).spec_succ(m) == old(
                        self,
                    ).spec_succ(m)
                &&& forall|m: usize|
                    m != en && old(self).spec_has_node(m) ==> final(self).spec_pred(m) == old(
                        self,
                    ).spec_pred(m)
                &&& forall|x: usize|
                    #[trigger] final(self).spec_succ(s).contains(x) <==> old(self).spec_succ(
                        s,
                    ).contains(x) && x != edge
                &&& forall|x: usize|
                    #[trigger] final(self).spec_pred(en).contains(x) <==> old(self).spec_pred(
                        en,
                    ).contains(x) && x != edge
                &&& final(self).spec_order() == old(self).spec_order()
                &&& final(self).spec_size() + 1 == old(self).spec_size()
                &&& final(self).spec_node_bound() == old(self).spec_node_bound()
                &&& final(self).spec_edge_bound() == old(self).spec_edge_bound()
            },
    {
        if !self.has_edge(edge) {
            return None;
        }
        let eopt = take_slot(&mut self.edges, edge);
        proof {
            lemma_count_some_update(old(self).edges@, edge as int, None::<Edge<TEdge>>);
        }
        let ed = eopt.unwrap();
        self.n_edges = self.n_edges - 1;
        let ghost g1 = *self;
        let mut nd = take_slot(&mut self.nodes, ed.start).unwrap();
        proof {
            lemma_count_some_update(g1.nodes@, ed.start as int, None::<Node<TNode>>);
        }
        nd.remove_succ(edge);
        put_slot(&mut self.nodes, ed.start, nd);
        proof {
            lemma_count_some_update(
                g1.nodes@.update(ed.start as int, None::<Node<TNode>>),
                ed.start as int,
                self.nodes@[ed.start as int],
            );
        }
        let ghost g2 = *self;
        let mut nd2 = take_slot(&mut self.nodes, ed.end).unwrap();
        proof {
            lemma_count_some_update(g2.nodes@, ed.end as int, None::<Node<TNode>>);
        }
        nd2.remove_pred(edge);
        put_slot(&mut self.nodes, ed.end, nd2);
        proof {
            lemma_count_some_update(
                g2.nodes@.update(ed.end as int, None::<Node<TNode>>),
                ed.end as int,
                self.nodes@[ed.end as int],
            );
            Self::lemma_wf_after_remove_edge(*old(self), *self, ed.start, ed.end, edge);
        }
        Some(ed.data)
    }

    /// The first edge, in successor-list order, leading from `node_a` to
    /// `node_b`, or nothing if there is none or `node_a` is absent.
    fn get_edge(&self, node_a: usize, node_b: usize) -> (r: Option<usize>)
        ensures
            r == self.spec_first_edge_to(node_a, node_b),
            r is Some <==> self.spec_has_edge_between(node_a, node_b),
            r is Some ==> {
                let e = r.unwrap();
                &&& self.spec_has_edge(e)
                &&& self.spec_edge_start(e) == node_a
                &&& self.spec_edge_end(e) == node_b
                &&& self.spec_succ(node_a).contains(e)
                &&& exists|k: int|
                    0 <= k < self.spec_succ(node_a).len() && #[trigger] self.spec_succ(node_a)[k]
                        == e && forall|j: int|
                        0 <= j < k ==> self.spec_edge_end(
                            #[trigger] self.spec_succ(node_a)[j],
                        ) != node_b
            },
    {
        if !(node_a < self.nodes.len()) {
            return None;
        }
        let nd = match &self.nodes[node_a] {
            Some(n) => n,
            None => {
                return None;
            },
        };
        let mut i: usize = 0;
        while i < nd.succ.len()
            invariant
                self.wf(),
                self.spec_has_node(node_a),
                *nd == self.nodes@[node_a as int].unwrap(),
                i <= nd.succ@.len(),
                forall|j: int|
                    0 <= j < i ==> self.spec_edge_end(#[trigger] nd.succ@[j]) != node_b,
                self.first_to_from(node_a, node_b, 0) == self.first_to_from(
                    node_a,
                    node_b,
                    i as int,
                ),
            decreases nd.succ@.len() - i,
        {
            let e = nd.succ[i];
            proof {
                assert(self.spec_succ(node_a)[i as int] == e);
                assert(self.spec_has_edge(e));
            }
            match &self.edges[e] {
                Some(ed) => {
                    if ed.end == node_b {
                        proof {
                            assert(self.spec_succ(node_a).contains(e));
                        }
                        return Some(e);
                    }
                },
                None => {
                    proof {
                        assert(false);
                    }
                },
            }
            i = i + 1;
        }
        None
    }

    /// Whether some edge leads from `node_a` straight to `node_b`.
    fn has_edge_between(&self, node_a: usize, node_b: usize) -> (r: bool)
        ensures
            r == self.spec_has_edge_between(node_a, node_b),
    {
        match self.get_edge(node_a, node_b) {
            Some(_) => true,
            None => false,
        }
    }

    /// Removes `node` and every edge incident on it, in either direction,
    /// and returns the node's payload; returns nothing (and changes
    /// nothing) if the handle is stale or unknown. No adjacency list of a
    /// surviving node keeps an entry for a removed edge, and the retired
    /// handle is never issued again.
    fn remove_node(&mut self, node: usize) -> (r: Option<TNode>)
        ensures
            final(self).wf(),
            r is Some <==> old(self).spec_has_node(node),
            r is None ==> *final(self) == *old(self),
            r is Some ==> {
                &&& r.unwrap() == old(self).spec_node_data(node)
                &&& !final(self).spec_has_node(node)
                &&& forall|m: usize|
                    m != node ==> final(self).spec_has_node(m) == old(self).spec_has_node(m)
                &&& forall|m: usize|
                    m != node && old(self).spec_has_node(m) ==> final(self).spec_node_data(m)
                        == old(self).spec_node_data(m)
                &&& forall|e: usize|
                    #![trigger final(self).spec_has_edge(e)]
                    final(self).spec_has_edge(e) <==> old(self).spec_has_edge(e) && old(
                        self,
                    ).spec_edge_start(e) != node && old(self).spec_edge_end(e) != node
                &&& forall|e: usize|
                    #![trigger final(self).spec_has_edge(e)]
                    final(self).spec_has_edge(e) ==> {
                        &&& final(self).spec_edge_start(e) == old(self).spec_edge_start(e)
                        &&& final(self).spec_edge_end(e) == old(self).spec_edge_end(e)
                        &&& final(self).spec_edge_data(e) == old(self).spec_edge_data(e)
                    }
                &&& forall|m: usize, x: usize|
                    #![trigger final(self).spec_succ(m).contains(x)]
                    m != node && old(self).spec_has_node(m) ==> (final(self).spec_succ(m).contains(
                        x,
                    ) <==> old(self).spec_succ(m).contains(x) && old(self).spec_edge_end(x)
                        != node)
                &&& forall|m: usize, x: usize|
                    #![trigger final(self).spec_pred(m).contains(x)]
                    m != node && old(self).spec_has_node(m) ==> (final(self).spec_pred(m).contains(
                        x,
                    ) <==> old(self).spec_pred(m).contains(x) && old(self).spec_edge_start(x)
                        != node)
                &&& final(self).spec_order() + 1 == old(self).spec_order()
                &&& final(self).spec_node_bound() == old(self).spec_node_bound()
                &&& final(self).spec_edge_bound() == old(self).spec_edge_bound()
            },
    {
        if !self.has_node(node) {
            return None;
        }
        let ghost pre = *self;
        let nopt = take_slot(&mut self.nodes, node);
        proof {
            lemma_count_some_update(pre.nodes@, node as int, None::<Node<TNode>>);
        }
        let nd = nopt.unwrap();
        self.n_nodes = self.n_nodes - 1;
        let ghost s_seq = nd.succ@;
        let ghost p_seq = nd.pred@;
        let mut k: usize = 0;
        while k < nd.succ.len()
            invariant
                pre.wf(),
                pre.spec_has_node(node),
                s_seq == pre.spec_succ(node),
                p_seq == pre.spec_pred(node),
                nd.succ@ == s_seq,
                nd.pred@ == p_seq,
                nd.data == pre.spec_node_data(node),
                k <= s_seq.len(),
                self.nodes@.len() == pre.nodes@.len(),
                self.edges@.len() == pre.edges@.len(),
                self.nodes@[node as int] is None,
                self.n_nodes == count_some(self.nodes@),
                self.n_nodes + 1 == pre.spec_order(),
                self.n_edges == count_some(self.edges@),
                forall|m: usize| m != node ==> self.spec_has_node(m) == pre.spec_has_node(m),
                forall|m: usize|
                    #![trigger self.spec_node_data(m)]
                    m != node && pre.spec_has_node(m) ==> self.spec_node_data(m)
                        == pre.spec_node_data(m),
                forall|m: usize|
                    #![trigger self.spec_succ(m)]
                    m != node && pre.spec_has_node(m) ==> self.spec_succ(m) == pre.spec_succ(m),
                forall|m: usize|
                    #![trigger self.spec_pred(m)]
                    m != node && pre.spec_has_node(m) ==> no_dups(self.spec_pred(m)),
                forall|m: usize, x: usize|
                    m != node && pre.spec_has_node(m) ==> (#[trigger] self.spec_pred(m).contains(x)
                        <==> pre.spec_pred(m).contains(x) && !s_seq.subrange(
                        0,
                        k as int,
                    ).contains(x)),
                forall|e2: usize|
                    #![trigger self.edges@[e2 as int]]
                    e2 < self.edges@.len() && !s_seq.subrange(0, k as int).contains(e2)
                        ==> self.edges@[e2 as int] == pre.edges@[e2 as int],
                forall|e2: usize|
                    #![trigger self.edges@[e2 as int]]
                    e2 < self.edges@.len() && s_seq.subrange(0, k as int).contains(e2)
                        ==> self.edges@[e2 as int] is None,
            decreases s_seq.len() - k,
        {
            let e = nd.succ[k];
            proof {
                assert(s_seq[k as int] == e);
                assert(pre.spec_has_edge(e) && pre.spec_edge_start(e) == node) by {
                    assert(pre.nodes@[node as int] is Some);
                }
                assert(!s_seq.subrange(0, k as int).contains(e)) by {
                    if s_seq.subrange(0, k as int).contains(e) {
                        let j = choose|j: int| 0 <= j < k && s_seq.subrange(0, k as int)[j] == e;
                        assert(s_seq[j] == s_seq[k as int]);
                    }
                }
                assert(self.edges@[e as int] == pre.edges@[e as int]);
            }
            let ghost g_prev = *self;
            let eopt = take_slot(&mut self.edges, e);
            proof {
                lemma_count_some_update(g_prev.edges@, e as int, None::<Edge<TEdge>>);
            }
            let ed = eopt.unwrap();
            self.n_edges = self.n_edges - 1;
            proof {
                assert(ed == pre.edges@[e as int].unwrap());
                assert(pre.spec_has_node(ed.end)) by {
                    assert(pre.edges@[e as int] is Some);
                }
            }
            if ed.end != node {
                let ghost g_mid = *self;
                let mut nd2 = take_slot(&mut self.nodes, ed.end).unwrap();
                proof {
                    lemma_count_some_update(g_mid.nodes@, ed.end as int, None::<Node<TNode>>);
                    assert(nd2.pred@ == g_prev.spec_pred(ed.end));
                    assert(no_dups(nd2.pred@));
                }
                nd2.remove_pred(e);
                put_slot(&mut self.nodes, ed.end, nd2);
                proof {
                    lemma_count_some_update(
                        g_mid.nodes@.update(ed.end as int, None::<Node<TNode>>),
                        ed.end as int,
                        self.nodes@[ed.end as int],
                    );
                }
            }
            k = k + 1;
            proof {
                broadcast use vstd::seq_lib::group_seq_properties;

                assert(s_seq.subrange(0, k as int) =~= s_seq.subrange(0, k as int - 1).push(e));
                let r_new = s_seq.subrange(0, k as int);
                let r_old = s_seq.subrange(0, k as int - 1);
                assert forall|m: usize| m != node implies self.spec_has_node(m)
                    == pre.spec_has_node(m) by {
                    assert(g_prev.spec_has_node(m) == pre.spec_has_node(m));
                }
                assert forall|m: usize|
                    #![trigger self.spec_node_data(m)]
                    m != node && pre.spec_has_node(m) implies self.spec_node_data(m)
                    == pre.spec_node_data(m) by {
                    assert(g_prev.spec_node_data(m) == pre.spec_node_data(m));
                }
                assert forall|m: usize|
                    #![trigger self.spec_succ(m)]
                    m != node && pre.spec_has_node(m) implies self.spec_succ(m)
                    == pre.spec_succ(m) by {
                    assert(g_prev.spec_succ(m) == pre.spec_succ(m));
                }
                assert forall|m: usize|
                    #![trigger self.spec_pred(m)]
                    m != node && pre.spec_has_node(m) implies no_dups(self.spec_pred(m)) by {
                    assert(no_dups(g_prev.spec_pred(m)));
                    if !(ed.end != node && m == ed.end) {
                        assert(self.spec_pred(m) == g_prev.spec_pred(m));
                    }
                }
                assert forall|m: usize, x: usize|
                    m != node && pre.spec_has_node(m) implies (#[trigger] self.spec_pred(
                    m,
                ).contains(x) <==> pre.spec_pred(m).contains(x) && !r_new.contains(x)) by {
                    assert(g_prev.spec_pred(m).contains(x) <==> pre.spec_pred(m).contains(x)
                        && !r_old.contains(x));
                    if x == e {
                        assert(r_new.contains(e)) by {
                            assert(r_new[k as int - 1] == e);
                        }
                        if ed.end != node && m == ed.end {
                        } else {
                            assert(self.spec_pred(m) == g_prev.spec_pred(m));
                            if g_prev.spec_pred(m).contains(e) {
                                assert(pre.spec_pred(m).contains(e));
                                let j = choose|j: int|
                                    0 <= j < pre.spec_pred(m).len() && pre.spec_pred(m)[j] == e;
                                assert(pre.spec_edge_end(e) == m);
                            }
                        }
                    } else {
                        assert(r_new.contains(x) == r_old.contains(x));
                        if ed.end != node && m == ed.end {
                        } else {
                            assert(self.spec_pred(m) == g_prev.spec_pred(m));
                        }
                    }
                }
                assert forall|e2: usize|
                    #![trigger self.edges@[e2 as int]]
                    e2 < self.edges@.len() && !r_new.contains(e2) implies self.edges@[e2 as int]
                    == pre.edges@[e2 as int] by {
                    assert(!r_old.contains(e2) && e2 != e);
                    assert(g_prev.edges@[e2 as int] == pre.edges@[e2 as int]);
                }
                assert forall|e2: usize|
                    #![trigger self.edges@[e2 as int]]
                    e2 < self.edges@.len() && r_new.contains(e2) implies self.edges@[e2 as int]
                    is None by {
                    if e2 != e {
                        assert(r_old.contains(e2));
                        assert(g_prev.edges@[e2 as int] is None);
                    }
                }
            }
        }
        proof {
            assert(s_seq.subrange(0, s_seq.len() as int) =~= s_seq);
            assert forall|m: usize|
                #![trigger self.spec_succ(m)]
                m != node && pre.spec_has_node(m) implies no_dups(self.spec_succ(m)) by {
                assert(self.spec_succ(m) == pre.spec_succ(m));
            }
            assert forall|m: usize, x: usize|
                m != node && pre.spec_has_node(m) implies (#[trigger] self.spec_succ(m).contains(x)
                <==> pre.spec_succ(m).contains(x) && !p_seq.subrange(0, 0).contains(x)) by {
                assert(self.spec_succ(m) == pre.spec_succ(m));
                assert(p_seq.subrange(0, 0).len() == 0);
            }
        }
        let mut k2: usize = 0;
        while k2 < nd.pred.len()
            invariant
                pre.wf(),
                pre.spec_has_node(node),
                s_seq == pre.spec_succ(node),
                p_seq == pre.spec_pred(node),
                nd.succ@ == s_seq,
                nd.pred@ == p_seq,
                nd.data == pre.spec_node_data(node),
                k2 <= p_seq.len(),
                self.nodes@.len() == pre.nodes@.len(),
                self.edges@.len() == pre.edges@.len(),
                self.nodes@[node as int] is None,
                self.n_nodes == count_some(self.nodes@),
                self.n_nodes + 1 == pre.spec_order(),
                self.n_edges == count_some(self.edges@),
                forall|m: usize| m != node ==> self.spec_has_node(m) == pre.spec_has_node(m),
                forall|m: usize|
                    #![trigger self.spec_node_data(m)]
                    m != node && pre.spec_has_node(m) ==> self.spec_node_data(m)
                        == pre.spec_node_data(m),
                forall|m: usize|
                    #![trigger self.spec_succ(m)]
                    m != node && pre.spec_has_node(m) ==> no_dups(self.spec_succ(m)),
                forall|m: usize|
                    #![trigger self.spec_pred(m)]
                    m != node && pre.spec_has_node(m) ==> no_dups(self.spec_pred(m)),
                forall|m: usize, x: usize|
                    m != node && pre.spec_has_node(m) ==> (#[trigger] self.spec_pred(m).contains(x)
                        <==> pre.spec_pred(m).contains(x) && !s_seq.contains(x)),
                forall|m: usize, x: usize|
                    m != node && pre.spec_has_node(m) ==> (#[trigger] self.spec_succ(m).contains(x)
                        <==> pre.spec_succ(m).contains(x) && !p_seq.subrange(
                        0,
                        k2 as int,
                    ).contains(x)),
                forall|e2: usize|
                    #![trigger self.edges@[e2 as int]]
                    e2 < self.edges@.len() && !s_seq.contains(e2) && !p_seq.subrange(
                        0,
                        k2 as int,
                    ).contains(e2) ==> self.edges@[e2 as int] == pre.edges@[e2 as int],
                forall|e2: usize|
                    #![trigger self.edges@[e2 as int]]
                    e2 < self.edges@.len() && (s_seq.contains(e2) || p_seq.subrange(
                        0,
                        k2 as int,
                    ).contains(e2)) ==> self.edges@[e2 as int] is None,
            decreases p_seq.len() - k2,
        {
            let e = nd.pred[k2];
            proof {
                assert(p_seq[k2 as int] == e);
                assert(pre.spec_has_edge(e) && pre.spec_edge_end(e) == node) by {
                    assert(pre.nodes@[node as int] is Some);
                }
            }
            let ghost g_prev = *self;
            let ghost r_old = p_seq.subrange(0, k2 as int);
            if self.has_edge(e) {
                proof {
                    assert(!s_seq.contains(e) && !r_old.contains(e)) by {
                        if s_seq.contains(e) || r_old.contains(e) {
                            assert(self.edges@[e as int] is None);
                        }
                    }
                    assert(self.edges@[e as int] == pre.edges@[e as int]);
                }
                let eopt = take_slot(&mut self.edges, e);
                proof {
                    lemma_count_some_update(g_prev.edges@, e as int, None::<Edge<TEdge>>);
                }
                let ed = eopt.unwrap();
                self.n_edges = self.n_edges - 1;
                proof {
                    assert(ed == pre.edges@[e as int].unwrap());
                    assert(pre.spec_has_node(ed.start)) by {
                        assert(pre.edges@[e as int] is Some);
                    }
                    assert(ed.start != node) by {
                        if ed.start == node {
                            assert(pre.spec_succ(node).contains(e));
                            assert(s_seq.contains(e));
                        }
                    }
                }
                let ghost g_mid = *self;
                let mut nd2 = take_slot(&mut self.nodes, ed.start).unwrap();
                proof {
                    lemma_count_some_update(g_mid.nodes@, ed.start as int, None::<Node<TNode>>);
                    assert(nd2.succ@ == g_prev.spec_succ(ed.start));
                    assert(no_dups(nd2.succ@));
                }
                nd2.remove_succ(e);
                put_slot(&mut self.nodes, ed.start, nd2);
                proof {
                    lemma_count_some_update(
                        g_mid.nodes@.update(ed.start as int, None::<Node<TNode>>),
                        ed.start as int,
                        self.nodes@[ed.start as int],
                    );
                }
                k2 = k2 + 1;
                proof {
                    broadcast use vstd::seq_lib::group_seq_properties;

                    assert(p_seq.subrange(0, k2 as int) =~= r_old.push(e));
                    let r_new = p_seq.subrange(0, k2 as int);
                    assert forall|m: usize| m != node implies self.spec_has_node(m)
                        == pre.spec_has_node(m) by {
                        assert(g_prev.spec_has_node(m) == pre.spec_has_node(m));
                    }
                    assert forall|m: usize|
                        #![trigger self.spec_node_data(m)]
                        m != node && pre.spec_has_node(m) implies self.spec_node_data(m)
                        == pre.spec_node_data(m) by {
                        assert(g_prev.spec_node_data(m) == pre.spec_node_data(m));
                    }
                    assert forall|m: usize|
                        #![trigger self.spec_succ(m)]
                        m != node && pre.spec_has_node(m) implies no_dups(self.spec_succ(m)) by {
                        assert(no_dups(g_prev.spec_succ(m)));
                        if m != ed.start {
                            assert(self.spec_succ(m) == g_prev.spec_succ(m));
                        }
                    }
                    assert forall|m: usize|
                        #![trigger self.spec_pred(m)]
                        m != node && pre.spec_has_node(m) implies no_dups(self.spec_pred(m)) by {
                        assert(no_dups(g_prev.spec_pred(m)));
                        assert(self.spec_pred(m) == g_prev.spec_pred(m));
                    }
                    assert forall|m: usize, x: usize|
                        m != node && pre.spec_has_node(m) implies (#[trigger] self.spec_pred(
                        m,
                    ).contains(x) <==> pre.spec_pred(m).contains(x) && !s_seq.contains(x)) by {
                        assert(self.spec_pred(m) == g_prev.spec_pred(m));
                        assert(g_prev.spec_pred(m).contains(x) <==> pre.spec_pred(m).contains(x)
                            && !s_seq.contains(x));
                    }
                    assert forall|m: usize, x: usize|
                        m != node && pre.spec_has_node(m) implies (#[trigger] self.spec_succ(
                        m,
                    ).contains(x) <==> pre.spec_succ(m).contains(x) && !r_new.contains(x)) by {
                        assert(g_prev.spec_succ(m).contains(x) <==> pre.spec_succ(m).contains(x)
                            && !r_old.contains(x));
                        if x == e {
                            assert(r_new.contains(e)) by {
                                assert(r_new[k2 as int - 1] == e);
                            }
                            if m == ed.start {
                            } else {
                                assert(self.spec_succ(m) == g_prev.spec_succ(m));
                                if g_prev.spec_succ(m).contains(e) {
                                    assert(pre.spec_succ(m).contains(e));
                                    let j = choose|j: int|
                                        0 <= j < pre.spec_succ(m).len() && pre.spec_succ(m)[j]
                                            == e;
                                    assert(pre.spec_edge_start(e) == m);
                                }
                            }
                        } else {
                            assert(r_new.contains(x) == r_old.contains(x));
                            if m == ed.start {
                            } else {
                                assert(self.spec_succ(m) == g_prev.spec_succ(m));
                            }
                        }
                    }
                    assert forall|e2: usize|
                        #![trigger self.edges@[e2 as int]]
                        e2 < self.edges@.len() && !s_seq.contains(e2) && !r_new.contains(e2)
                        implies self.edges@[e2 as int] == pre.edges@[e2 as int] by {
                        assert(!r_old.contains(e2) && e2 != e);
                        assert(g_prev.edges@[e2 as int] == pre.edges@[e2 as int]);
                    }
                    assert forall|e2: usize|
                        #![trigger self.edges@[e2 as int]]
                        e2 < self.edges@.len() && (s_seq.contains(e2) || r_new.contains(e2))
                        implies self.edges@[e2 as int] is None by {
                        if e2 != e {
                            assert(s_seq.contains(e2) || r_old.contains(e2));
                            assert(g_prev.edges@[e2 as int] is None);
                        }
                    }
                }
            } else {
                proof {
                    assert(e < self.edges@.len());
                    assert(self.edges@[e as int] is None);
                }
                k2 = k2 + 1;
                proof {
                    broadcast use vstd::seq_lib::group_seq_properties;

                    assert(p_seq.subrange(0, k2 as int) =~= r_old.push(e));
                    let r_new = p_seq.subrange(0, k2 as int);
                    assert forall|m: usize, x: usize|
                        m != node && pre.spec_has_node(m) implies (#[trigger] self.spec_succ(
                        m,
                    ).contains(x) <==> pre.spec_succ(m).contains(x) && !r_new.contains(x)) by {
                        assert(g_prev.spec_succ(m).contains(x) <==> pre.spec_succ(m).contains(x)
                            && !r_old.contains(x));
                        if x == e {
                            assert(r_new.contains(e)) by {
                                assert(r_new[k2 as int - 1] == e);
                            }
                            if pre.spec_succ(m).contains(e) {
                                let j = choose|j: int|
                                    0 <= j < pre.spec_succ(m).len() && pre.spec_succ(m)[j] == e;
                                assert(pre.spec_has_edge(e) && pre.spec_edge_start(e) == m);
                                assert(!s_seq.contains(e)) by {
                                    if s_seq.contains(e) {
                                        let j2 = choose|j2: int|
                                            0 <= j2 < s_seq.len() && s_seq[j2] == e;
                                        assert(pre.spec_edge_start(e) == node);
                                    }
                                }
                                assert(r_old.contains(e));
                            }
                        } else {
                            assert(r_new.contains(x) == r_old.contains(x));
                        }
                    }
                    assert forall|e2: usize|
                        #![trigger self.edges@[e2 as int]]
                        e2 < self.edges@.len() && !s_seq.contains(e2) && !r_new.contains(e2)
                        implies self.edges@[e2 as int] == pre.edges@[e2 as int] by {
                        assert(!r_old.contains(e2));
                    }
                    assert forall|e2: usize|
                        #![trigger self.edges@[e2 as int]]
                        e2 < self.edges@.len() && (s_seq.contains(e2) || r_new.contains(e2))
                        implies self.edges@[e2 as int] is None by {
                        if e2 != e && !s_seq.contains(e2) {
                            assert(r_old.contains(e2));
                        }
                    }
                }
            }
        }
        proof {
            assert(p_seq.subrange(0, p_seq.len() as int) =~= p_seq);
            Self::lemma_wf_after_remove_node(pre, *self, node, s_seq, p_seq);
        }
        Some(nd.data)
    }

    /// Removes the first edge, in successor-list order, leading from
    /// `node_a` to `node_b` and returns its payload; returns nothing (and
    /// changes nothing) if no such edge exists or either node is absent.
    /// Afterwards an edge from `node_a` to `node_b` remains exactly when a
    /// second, parallel edge existed.
    fn remove_edge_between(&mut self, node_a: usize, node_b: usize) -> (r: Option<TEdge>)
        ensures
            final(self).wf(),
            r is Some <==> old(self).spec_has_edge_between(node_a, node_b),
            r is None ==> *final(self) == *old(self),
            r is Some ==> {
                let e = old(self).spec_first_edge_to(node_a, node_b).unwrap();
                &&& r.unwrap() == old(self).spec_edge_data(e)
                &&& old(self).spec_has_edge(e)
                &&& old(self).spec_succ(node_a).contains(e)
                &&& old(self).spec_edge_start(e) == node_a
                &&& old(self).spec_edge_end(e) == node_b
                &&& !final(self).spec_has_edge(e)
                &&& forall|e2: usize|
                    e2 != e ==> final(self).spec_has_edge(e2) == old(self).spec_has_edge(e2)
                &&& forall|e2: usize|
                    e2 != e && old(self).spec_has_edge(e2) ==> {
                        &&& final(self).spec_edge_start(e2) == old(self).spec_edge_start(e2)
                        &&& final(self).spec_edge_end(e2) == old(self).spec_edge_end(e2)
                        &&& final(self).spec_edge_data(e2) == old(self).spec_edge_data(e2)
                    }
                &&& forall|m: usize|
                    final(self).spec_has_node(m) == old(self).spec_has_node(m)
                &&& forall|m: usize|
                    old(self).spec_has_node(m) ==> final(self).spec_node_data(m) == old(
                        self,
                    ).spec_node_data(m)
                &&& forall|m: usize|
                    m != node_a && old(self).spec_has_node(m) ==> final(self).spec_succ(m) == old(
                        self,
                    ).spec_succ(m)
                &&& forall|m: usize|
                    m != node_b && old(self).spec_has_node(m) ==> final(self).spec_pred(m) == old(
                        self,
                    ).spec_pred(m)
                &&& forall|x: usize|
                    #[trigger] final(self).spec_succ(node_a).contains(x) <==> old(self).spec_succ(
                        node_a,
                    ).contains(x) && x != e
                &&& forall|x: usize|
                    #[trigger] final(self).spec_pred(node_b).contains(x) <==> old(self).spec_pred(
                        node_b,
                    ).contains(x) && x != e
                &&& (final(self).spec_has_edge_between(node_a, node_b) <==> exists|e2: usize|
                    e2 != e && #[trigger] old(self).spec_succ(node_a).contains(e2) && old(
                        self,
                    ).spec_edge_end(e2) == node_b)
                &&& final(self).spec_order() == old(self).spec_order()
                &&& final(self).spec_size() + 1 == old(self).spec_size()
                &&& final(self).spec_node_bound() == old(self).spec_node_bound()
                &&& final(self).spec_edge_bound() == old(self).spec_edge_bound()
            },
    {
        let e = match self.get_edge(node_a, node_b) {
            Some(e) => e,
            None => {
                return None;
            },
        };
        let r = self.remove_edge(e);
        proof {
            let pre = *old(self);
            let post = *self;
            assert forall|e2: usize|
                e2 != e && #[trigger] pre.spec_succ(node_a).contains(e2) && pre.spec_edge_end(e2)
                    == node_b implies post.spec_has_edge_between(node_a, node_b) by {
                assert(post.spec_succ(node_a).contains(e2));
                let k = choose|k: int|
                    0 <= k < post.spec_succ(node_a).len() && post.spec_succ(node_a)[k] == e2;
                assert(pre.spec_has_edge(e2));
                assert(post.spec_edge_end(post.spec_succ(node_a)[k]) == node_b);
            }
            if post.spec_has_edge_between(node_a, node_b) {
                let k = choose|k: int|
                    0 <= k < post.spec_succ(node_a).len() && post.spec_edge_end(
                        #[trigger] post.spec_succ(node_a)[k],
                    ) == node_b;
                let e2 = post.spec_succ(node_a)[k];
                assert(post.spec_succ(node_a).contains(e2));
                assert(pre.spec_succ(node_a).contains(e2) && e2 != e);
                assert(pre.spec_has_edge(e2));
                assert(pre.spec_edge_end(e2) == node_b);
            }
        }
        r
    }

    /// The number of live nodes.
    fn order(&self) -> (r: usize)
        ensures
            r == self.spec_order(),
    {
        self.n_nodes
    }

    /// Whether `node` refers to a live node.
    fn has_node(&self, node: usize) -> (r: bool)
        ensures
            r == self.spec_has_node(node),
    {
        node < self.nodes.len() && self.nodes[node].is_some()
    }

    /// Whether `edge` refers to a live edge.
    fn has_edge(&self, edge: usize) -> (r: bool)
        ensures
            r == self.spec_has_edge(edge),
    {
        edge < self.edges.len() && self.edges[edge].is_some()
    }

    /// Empties the graph: every node and edge is gone, and every query
    /// answers as on a freshly constructed graph. The issue bounds are
    /// kept, so the handles the removed elements carried stay retired and
    /// no later insertion reuses one.
    fn clear(&mut self)
        ensures
            final(self).wf(),
            final(self).spec_order() == 0,
            final(self).spec_size() == 0,
            forall|n: usize| !final(self).spec_has_node(n),
            forall|e: usize| !final(self).spec_has_edge(e),
            final(self).spec_node_bound() == old(self).spec_node_bound(),
            final(self).spec_edge_bound() == old(self).spec_edge_bound(),
    {
        blank_all(&mut self.nodes);
        blank_all(&mut self.edges);
        self.n_nodes = 0;
        self.n_edges = 0;
        proof {
            lemma_count_some_all_none(self.nodes@);
            lemma_count_some_all_none(self.edges@);
        }
    }

    /// The handles of all live nodes, in ascending handle order.
    fn nodes(&self) -> (r: Vec<usize>)
        ensures
            forall|n: usize| #[trigger] r@.contains(n) <==> self.spec_has_node(n),
            forall|i: int, j: int| 0 <= i < j < r@.len() ==> r@[i] < r@[j],
            r@.len() == self.spec_order(),
    {
        let mut r: Vec<usize> = Vec::new();
        let mut i: usize = 0;
        while i < self.nodes.len()
            invariant
                i <= self.nodes@.len(),
                forall|n: usize| #[trigger] r@.contains(n) <==> (n < i && self.spec_has_node(n)),
                forall|a: int, b: int| 0 <= a < b < r@.len() ==> r@[a] < r@[b],
                forall|a: int| 0 <= a < r@.len() ==> r@[a] < i,
                r@.len() == count_some(self.nodes@.subrange(0, i as int)),
            decreases self.nodes@.len() - i,
        {
            proof {
                lemma_count_some_snoc(self.nodes@, i as int);
            }
            if self.nodes[i].is_some() {
                proof {
                    broadcast use vstd::seq_lib::lemma_seq_contains_after_push;

                }
                r.push(i);
            }
            i = i + 1;
        }
        proof {
            assert(self.nodes@.subrange(0, i as int) =~= self.nodes@);
        }
        r
    }

    /// The handles of all live edges, in ascending handle order.
    fn edges(&self) -> (r: Vec<usize>)
        ensures
            forall|e: usize| #[trigger] r@.contains(e) <==> self.spec_has_edge(e),
            forall|i: int, j: int| 0 <= i < j < r@.len() ==> r@[i] < r@[j],
            r@.len() == self.spec_size(),
    {
        let mut r: Vec<usize> = Vec::new();
        let mut i: usize = 0;
        while i < self.edges.len()
            invariant
                i <= self.edges@.len(),
                forall|e: usize| #[trigger] r@.contains(e) <==> (e < i && self.spec_has_edge(e)),
                forall|a: int, b: int| 0 <= a < b < r@.len() ==> r@[a] < r@[b],
                forall|a: int| 0 <= a < r@.len() ==> r@[a] < i,
                r@.len() == count_some(self.edges@.subrange(0, i as int)),
            decreases self.edges@.len() - i,
        {
            proof {
                lemma_count_some_snoc(self.edges@, i as int);
            }
            if self.edges[i].is_some() {
                proof {
                    broadcast use vstd::seq_lib::lemma_seq_contains_after_push;

                }
                r.push(i);
            }
            i = i + 1;
        }
        proof {
            assert(self.edges@.subrange(0, i as int) =~= self.edges@);
        }
        r
    }

    /// The identifiers of the edges starting at `node`, in list order, or
    /// an empty sequence if the node is absent.
    fn get_succ_edges_of(&self, node: usize) -> (r: Vec<usize>)
        ensures
            self.spec_has_node(node) ==> r@ == self.spec_succ(node),
            !self.spec_has_node(node) ==> r@ == Seq::<usize>::empty(),
    {
        if node < self.nodes.len() {
            match &self.nodes[node] {
                Some(n) => {
                    let r = n.succ.clone();
                    proof {
                        assert(r@ =~= n.succ@);
                    }
                    r
                },
                None => Vec::new(),
            }
        } else {
            Vec::new()
        }
    }

    /// The identifiers of the edges ending at `node`, in list order, or an
    /// empty sequence if the node is absent.
    fn get_pred_edges_of(&self, node: usize) -> (r: Vec<usize>)
        ensures
            self.spec_has_node(node) ==> r@ == self.spec_pred(node),
            !self.spec_has_node(node) ==> r@ == Seq::<usize>::empty(),
    {
        if node < self.nodes.len() {
            match &self.nodes[node] {
                Some(n) => {
                    let r = n.pred.clone();
                    proof {
                        assert(r@ =~= n.pred@);
                    }
                    r
                },
                None => Vec::new(),
            }
        } else {
            Vec::new()
        }
    }

    /// The identifiers of all edges incident on `node`: the incoming ones
    /// first, then the outgoing ones; an empty sequence if the node is
    /// absent.
    fn get_edges_of(&self, node: usize) -> (r: Vec<usize>)
        ensures
            self.spec_has_node(node) ==> r@ == self.spec_pred(node) + self.spec_succ(node),
            !self.spec_has_node(node) ==> r@ == Seq::<usize>::empty(),
    {
        let mut r = self.get_pred_edges_of(node);
        let mut s = self.get_succ_edges_of(node);
        r.append(&mut s);
        proof {
            if !self.spec_has_node(node) {
                assert(r@ =~= Seq::<usize>::empty());
            }
        }
        r
    }

    /// The payload of `node`, or nothing if the handle is stale or
    /// unknown.
    fn get_node_data(&self, node: usize) -> (r: Option<&TNode>)
        ensures
            r is Some <==> self.spec_has_node(node),
            r is Some ==> *r.unwrap() == self.spec_node_data(node),
    {
        if node < self.nodes.len() {
            match &self.nodes[node] {
                Some(n) => Some(&n.data),
                None => None,
            }
        } else {
            None
        }
    }

    /// The payload of `edge`, or nothing if the handle is stale or
    /// unknown.
    fn get_edge_data(&self, edge: usize) -> (r: Option<&TEdge>)
        ensures
            r is Some <==> self.spec_has_edge(edge),
            r is Some ==> *r.unwrap() == self.spec_edge_data(edge),
    {
        if edge < self.edges.len() {
            match &self.edges[edge] {
                Some(e) => Some(&e.data),
                None => None,
            }
        } else {
            None
        }
    }

    /// The start node of `edge`, or nothing if the handle is stale or
    /// unknown.
    fn get_edge_start(&self, edge: usize) -> (r: Option<usize>)
        ensures
            r is Some <==> self.spec_has_edge(edge),
            r is Some ==> r.unwrap() == self.spec_edge_start(edge),
    {
        if edge < self.edges.len() {
            match &self.edges[edge] {
                Some(e) => Some(e.start),
                None => None,
            }
        } else {
            None
        }
    }

    /// The end node of `edge`, or nothing if the handle is stale or
    /// unknown.
    fn get_edge_end(&self, edge: usize) -> (r: Option<usize>)
        ensures
            r is Some <==> self.spec_has_edge(edge),
            r is Some ==> r.unwrap() == self.spec_edge_end(edge),
    {
        if edge < self.edges.len() {
            match &self.edges[edge] {
                Some(e) => Some(e.end),
                None => None,
            }
        } else {
            None
        }
    }
}

} // verus!
