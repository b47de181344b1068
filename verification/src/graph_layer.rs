//! One level of the hierarchical proximity graph: a set of nodes together
//! with the directed weighted edges stored at that level.
//!
//! A layer is used twice per level by the index — once holding out-edges and
//! once holding in-edges — and is structurally identical in both roles.

use vstd::prelude::*;

use crate::elements::{Edge, Node};
use crate::util::{keep, lemma_keep_contains, lemma_keep_elements, lemma_keep_take_full, lemma_keep_take_step};

verus! {

/// The nodes other than `x`.
pub open spec fn not_node(x: Node) -> spec_fn(Node) -> bool {
    |m: Node| m != x
}

/// The edges not incident to `x`.
pub open spec fn not_incident(x: Node) -> spec_fn(Edge) -> bool {
    |e: Edge| !(e.from == x || e.to == x)
}

/// The edges other than the one for the ordered pair `(u, v)`.
pub open spec fn not_pair(u: Node, v: Node) -> spec_fn(Edge) -> bool {
    |e: Edge| !(e.from == u && e.to == v)
}

/// The edges leaving `n`.
pub open spec fn from_node(n: Node) -> spec_fn(Edge) -> bool {
    |e: Edge| e.from == n
}

/// The effect of removing one node: the node list is filtered, and exactly
/// the edges not incident to the node survive, with their weights.
pub open spec fn node_removed(la: GraphLayer, lb: GraphLayer, x: Node) -> bool {
    &&& lb.nodes@ == keep(la.nodes@, not_node(x))
    &&& lb.edges@ == keep(la.edges@, not_incident(x))
    &&& forall|u: Node, v: Node|
        #[trigger] lb.has_edge(u, v) <==> la.has_edge(u, v) && u != x && v != x
    &&& forall|u: Node, v: Node|
        u != x && v != x && la.has_edge(u, v) ==> #[trigger] lb.edge_at(u, v) == la.edge_at(u, v)
}

/// `b` stores the same node set as `a` with every edge reversed: the in-view
/// of the adjacency whose out-view is `a`.
pub open spec fn transposed(a: GraphLayer, b: GraphLayer) -> bool {
    &&& a.nodes@ == b.nodes@
    &&& forall|u: Node, v: Node| #[trigger] a.has_edge(u, v) <==> b.has_edge(v, u)
    &&& forall|u: Node, v: Node|
        #[trigger] a.has_edge(u, v) ==> b.edge_at(v, u) == (Edge {
            from: v,
            to: u,
            dist: a.edge_at(u, v).dist,
        })
}

/// Every layer of the stack is well-formed.
pub open spec fn stack_wf(s: Seq<GraphLayer>) -> bool {
    forall|i: int| 0 <= i < s.len() ==> (#[trigger] s[i]).wf()
}

/// A node of any layer above the bottom is also in the layer below: every
/// node participates in a prefix of the stack.
pub open spec fn prefix_closed(s: Seq<GraphLayer>) -> bool {
    forall|i: int, n: Node|
        1 <= i < s.len() && (#[trigger] s[i].has_node_spec(n)) ==> s[i - 1].has_node_spec(n)
}

/// Pointwise transposition of two stacks.
pub open spec fn stacks_transposed(a: Seq<GraphLayer>, b: Seq<GraphLayer>) -> bool {
    a.len() == b.len() && forall|i: int| 0 <= i < a.len() ==> transposed(#[trigger] a[i], #[trigger] b[i])
}

/// `has_edge` and `edge_at` depend only on the stored contents, so they
/// carry across `layer_eq`; the same holds for the node set.
pub proof fn lemma_layer_eq_congruence(a: GraphLayer, b: GraphLayer)
    requires
        layer_eq(a, b),
    ensures
        forall|u: Node, v: Node| #[trigger] a.has_edge(u, v) <==> b.has_edge(u, v),
        forall|u: Node, v: Node| #[trigger] a.edge_at(u, v) == b.edge_at(u, v),
        forall|n: Node| #[trigger] a.has_node_spec(n) <==> b.has_node_spec(n),
        a.wf() <==> b.wf(),
{
}

/// Removing a node filters the membership predicate accordingly.
pub proof fn lemma_node_removed_membership(la: GraphLayer, lb: GraphLayer, x: Node)
    requires
        node_removed(la, lb, x),
    ensures
        forall|m: Node| #[trigger] lb.has_node_spec(m) <==> la.has_node_spec(m) && m != x,
{
    assert forall|m: Node| #[trigger] lb.has_node_spec(m) <==> la.has_node_spec(m) && m != x by {
        lemma_keep_contains(la.nodes@, not_node(x), m);
    }
}

/// Removing one node from both directions of a transposed pair keeps the
/// pair transposed.
pub proof fn lemma_node_removed_transposed(
    oa: GraphLayer,
    ob: GraphLayer,
    a: GraphLayer,
    b: GraphLayer,
    x: Node,
)
    requires
        transposed(oa, ob),
        node_removed(oa, a, x),
        node_removed(ob, b, x),
    ensures
        transposed(a, b),
{
    assert(a.nodes@ == b.nodes@);
    assert forall|u: Node, v: Node| #[trigger] a.has_edge(u, v) <==> b.has_edge(v, u) by {
        assert(a.has_edge(u, v) <==> oa.has_edge(u, v) && u != x && v != x);
        assert(b.has_edge(v, u) <==> ob.has_edge(v, u) && u != x && v != x);
        assert(oa.has_edge(u, v) <==> ob.has_edge(v, u));
    }
    assert forall|u: Node, v: Node| #[trigger] a.has_edge(u, v) implies b.edge_at(v, u) == (Edge {
        from: v,
        to: u,
        dist: a.edge_at(u, v).dist,
    }) by {
        assert(oa.has_edge(u, v) && u != x && v != x);
        assert(ob.has_edge(v, u));
        assert(b.edge_at(v, u) == ob.edge_at(v, u));
        assert(a.edge_at(u, v) == oa.edge_at(u, v));
        assert(ob.edge_at(v, u) == (Edge { from: v, to: u, dist: oa.edge_at(u, v).dist }));
    }
}

/// No node appears twice.
pub open spec fn nodes_wf(s: Seq<Node>) -> bool {
    forall|i: int, j: int| 0 <= i < j < s.len() ==> #[trigger] s[i] != #[trigger] s[j]
}

/// Layers are compared by their contents: node list and edge list.
pub open spec fn layer_eq(a: GraphLayer, b: GraphLayer) -> bool {
    a.nodes@ == b.nodes@ && a.edges@ == b.edges@
}

/// Pointwise `layer_eq` over two stacks of layers.
pub open spec fn stack_eq(a: Seq<GraphLayer>, b: Seq<GraphLayer>) -> bool {
    a.len() == b.len() && forall|i: int| 0 <= i < a.len() ==> layer_eq(#[trigger] a[i], #[trigger] b[i])
}

/// No ordered pair of endpoints carries two edges.
pub open spec fn edges_wf(s: Seq<Edge>) -> bool {
    forall|i: int, j: int|
        0 <= i < j < s.len() ==> !((#[trigger] s[i]).from == (#[trigger] s[j]).from && s[i].to
            == s[j].to)
}

/// An in-memory adjacency structure for one level of the graph.
#[derive(Debug)]
pub struct GraphLayer {
    pub nodes: Vec<Node>,
    pub edges: Vec<Edge>,
}

impl GraphLayer {
    /// Well-formedness: the node list is a set, and each ordered pair of
    /// endpoints carries at most one edge.
    pub open spec fn wf(self) -> bool {
        nodes_wf(self.nodes@) && edges_wf(self.edges@)
    }

    pub open spec fn has_node_spec(self, n: Node) -> bool {
        self.nodes@.contains(n)
    }

    pub open spec fn has_edge(self, u: Node, v: Node) -> bool {
        exists|i: int|
            0 <= i < self.edges@.len() && (#[trigger] self.edges@[i]).from == u
                && self.edges@[i].to == v
    }

    /// The edge stored for the ordered pair `(u, v)`; meaningful only under
    /// `wf` when `has_edge(u, v)` holds.
    pub open spec fn edge_at(self, u: Node, v: Node) -> Edge {
        self.edges@[choose|i: int|
            0 <= i < self.edges@.len() && (#[trigger] self.edges@[i]).from == u
                && self.edges@[i].to == v]
    }

    /// Under `wf`, any stored edge from `u` to `v` is the edge `edge_at`
    /// denotes.
    pub proof fn lemma_edge_at(self, i: int)
        requires
            self.wf(),
            0 <= i < self.edges@.len(),
        ensures
            self.has_edge(self.edges@[i].from, self.edges@[i].to),
            self.edge_at(self.edges@[i].from, self.edges@[i].to) == self.edges@[i],
    {
        let u = self.edges@[i].from;
        let v = self.edges@[i].to;
        assert(self.has_edge(u, v));
        let j = choose|j: int|
            0 <= j < self.edges@.len() && (#[trigger] self.edges@[j]).from == u
                && self.edges@[j].to == v;
        if i < j {
            assert(!(self.edges@[i].from == self.edges@[j].from && self.edges@[i].to
                == self.edges@[j].to));
        } else if j < i {
            assert(!(self.edges@[j].from == self.edges@[i].from && self.edges@[j].to
                == self.edges@[i].to));
        }
    }

    /// An empty layer.
    pub fn new() -> (r: GraphLayer)
        ensures
            r.wf(),
            r.nodes@ == Seq::<Node>::empty(),
            r.edges@ == Seq::<Edge>::empty(),
    {
        GraphLayer { nodes: Vec::new(), edges: Vec::new() }
    }

    pub fn has_node(&self, n: Node) -> (r: bool)
        ensures
            r == self.has_node_spec(n),
    {
        let mut i: usize = 0;
        while i < self.nodes.len()
            invariant
                i <= self.nodes.len(),
                forall|j: int| 0 <= j < i ==> #[trigger] self.nodes@[j] != n,
            decreases self.nodes.len() - i,
        {
            if self.nodes[i] == n {
                return true;
            }
            i += 1;
        }
        false
    }

    /// Idempotent insertion into the node set.
    pub fn add_node(&mut self, n: Node)
        requires
            old(self).wf(),
        ensures
            final(self).wf(),
            final(self).edges@ == old(self).edges@,
            final(self).nodes@ == if old(self).has_node_spec(n) {
                old(self).nodes@
            } else {
                old(self).nodes@.push(n)
            },
            final(self).has_node_spec(n),
            forall|m: Node|
                #[trigger] final(self).has_node_spec(m) <==> old(self).has_node_spec(m) || m == n,
    {
        if !self.has_node(n) {
            self.nodes.push(n);
            assert(self.nodes@[self.nodes@.len() - 1] == n);
            assert forall|m: Node| #[trigger]
                self.nodes@.contains(m) implies old(self).nodes@.contains(m) || m == n by {
                let i = choose|i: int| 0 <= i < self.nodes@.len() && self.nodes@[i] == m;
                if i < self.nodes@.len() - 1 {
                    assert(old(self).nodes@[i] == m);
                }
            }
            assert forall|m: Node| old(self).nodes@.contains(m) implies #[trigger]
                self.nodes@.contains(m) by {
                let i = choose|i: int| 0 <= i < old(self).nodes@.len() && old(self).nodes@[i] == m;
                assert(self.nodes@[i] == m);
            }
        }
    }

    /// The position of the edge stored for `(u, v)`, if any.
    fn find_edge_index(&self, u: Node, v: Node) -> (r: Option<usize>)
        ensures
            match r {
                Some(i) => i < self.edges@.len() && self.edges@[i as int].from == u
                    && self.edges@[i as int].to == v,
                None => forall|j: int|
                    0 <= j < self.edges@.len() ==> !((#[trigger] self.edges@[j]).from == u
                        && self.edges@[j].to == v),
            },
    {
        let mut i: usize = 0;
        while i < self.edges.len()
            invariant
                i <= self.edges.len(),
                forall|j: int|
                    0 <= j < i ==> !((#[trigger] self.edges@[j]).from == u && self.edges@[j].to
                        == v),
            decreases self.edges.len() - i,
        {
            if self.edges[i].from == u && self.edges[i].to == v {
                return Some(i);
            }
            i += 1;
        }
        None
    }

    /// Inserts or overwrites the edge for the pair `(e.from, e.to)`;
    /// last-writer wins on the weight.
    pub fn add_edge(&mut self, e: Edge)
        requires
            old(self).wf(),
        ensures
            final(self).wf(),
            final(self).nodes@ == old(self).nodes@,
            final(self).has_edge(e.from, e.to),
            final(self).edge_at(e.from, e.to) == e,
            forall|u: Node, v: Node|
                !(u == e.from && v == e.to) ==> (#[trigger] final(self).has_edge(u, v) <==> old(self).has_edge(u, v)),
            forall|u: Node, v: Node|
                !(u == e.from && v == e.to) && old(self).has_edge(u, v) ==> #[trigger] final(self).edge_at(u, v) == old(self).edge_at(u, v),
    {
        let ghost pre = *self;
        let idx = self.find_edge_index(e.from, e.to);
        let ghost at: int = match idx {
            Some(i) => i as int,
            None => pre.edges@.len() as int,
        };
        match idx {
            Some(i) => {
                self.edges.set(i, e);
                assert(self.edges@ == pre.edges@.update(i as int, e));
            },
            None => {
                self.edges.push(e);
                assert(self.edges@[self.edges@.len() - 1] == e);
            },
        }
        proof {
            assert(edges_wf(self.edges@)) by {
                assert forall|a: int, b: int| 0 <= a < b < self.edges@.len() implies !((
                #[trigger] self.edges@[a]).from == (#[trigger] self.edges@[b]).from
                    && self.edges@[a].to == self.edges@[b].to) by {
                    if a < pre.edges@.len() && b < pre.edges@.len() {
                        assert(self.edges@[a].from == pre.edges@[a].from && self.edges@[a].to
                            == pre.edges@[a].to);
                        assert(self.edges@[b].from == pre.edges@[b].from && self.edges@[b].to
                            == pre.edges@[b].to);
                    }
                }
            }
            assert(self.edges@[at] == e);
            self.lemma_edge_at(at);
            assert forall|u: Node, v: Node|
                !(u == e.from && v == e.to) implies (#[trigger] self.has_edge(u, v) <==> pre
                .has_edge(u, v)) by {
                if self.has_edge(u, v) {
                    let j = choose|j: int|
                        0 <= j < self.edges@.len() && (#[trigger] self.edges@[j]).from == u
                            && self.edges@[j].to == v;
                    assert(pre.edges@[j].from == u && pre.edges@[j].to == v);
                }
                if pre.has_edge(u, v) {
                    let j = choose|j: int|
                        0 <= j < pre.edges@.len() && (#[trigger] pre.edges@[j]).from == u
                            && pre.edges@[j].to == v;
                    assert(self.edges@[j].from == u && self.edges@[j].to == v);
                }
            }
            assert forall|u: Node, v: Node|
                !(u == e.from && v == e.to) && pre.has_edge(u, v) implies #[trigger] self.edge_at(
                u,
                v,
            ) == pre.edge_at(u, v) by {
                let j = choose|j: int|
                    0 <= j < pre.edges@.len() && (#[trigger] pre.edges@[j]).from == u
                        && pre.edges@[j].to == v;
                assert(self.edges@[j] == pre.edges@[j]);
                self.lemma_edge_at(j);
                pre.lemma_edge_at(j);
            }
        }
    }

    /// Removes the directed entry for `(u, v)` if present.
    #[verifier::loop_isolation(false)]
    pub fn remove_edge(&mut self, u: Node, v: Node)
        requires
            old(self).wf(),
        ensures
            final(self).wf(),
            final(self).nodes@ == old(self).nodes@,
            !final(self).has_edge(u, v),
            forall|a: Node, b: Node|
                !(a == u && b == v) ==> (#[trigger] final(self).has_edge(a, b) <==> old(self).has_edge(a, b)),
            forall|a: Node, b: Node|
                !(a == u && b == v) && old(self).has_edge(a, b) ==> #[trigger] final(self).edge_at(
                    a,
                    b,
                ) == old(self).edge_at(a, b),
            final(self).edges@ == keep(old(self).edges@, not_pair(u, v)),
    {
        let ghost pre = *self;
        let ghost p = not_pair(u, v);
        let mut out: Vec<Edge> = Vec::new();
        let mut i: usize = 0;
        while i < self.edges.len()
            invariant
                i <= self.edges.len(),
                self.edges@ == pre.edges@,
                out@ == keep(pre.edges@.take(i as int), p),
            decreases self.edges.len() - i,
        {
            let e = self.edges[i];
            proof {
                lemma_keep_take_step(pre.edges@, p, i as int);
            }
            if !(e.from == u && e.to == v) {
                out.push(e);
            }
            i += 1;
        }
        proof {
            lemma_keep_take_full(pre.edges@, p);
        }
        self.edges = out;
        proof {
            lemma_keep_elements(pre.edges@, p);
            assert(edges_wf(self.edges@)) by {
                assert forall|a: int, b: int| 0 <= a < b < self.edges@.len() implies !((
                #[trigger] self.edges@[a]).from == (#[trigger] self.edges@[b]).from
                    && self.edges@[a].to == self.edges@[b].to) by {
                    lemma_keep_index_pair(pre.edges@, p, a, b);
                }
            }
            assert forall|a: Node, b: Node|
                !(a == u && b == v) implies (#[trigger] self.has_edge(a, b) <==> pre.has_edge(
                a,
                b,
            )) by {
                if self.has_edge(a, b) {
                    let j = choose|j: int|
                        0 <= j < self.edges@.len() && (#[trigger] self.edges@[j]).from == a
                            && self.edges@[j].to == b;
                    assert(pre.edges@.contains(self.edges@[j]));
                    let k = choose|k: int|
                        0 <= k < pre.edges@.len() && pre.edges@[k] == self.edges@[j];
                    assert(pre.edges@[k].from == a && pre.edges@[k].to == b);
                }
                if pre.has_edge(a, b) {
                    let j = choose|j: int|
                        0 <= j < pre.edges@.len() && (#[trigger] pre.edges@[j]).from == a
                            && pre.edges@[j].to == b;
                    lemma_keep_contains(pre.edges@, p, pre.edges@[j]);
                    let k = choose|k: int|
                        0 <= k < self.edges@.len() && self.edges@[k] == pre.edges@[j];
                    assert(self.edges@[k].from == a && self.edges@[k].to == b);
                }
            }
            assert(!self.has_edge(u, v)) by {
                if self.has_edge(u, v) {
                    let j = choose|j: int|
                        0 <= j < self.edges@.len() && (#[trigger] self.edges@[j]).from == u
                            && self.edges@[j].to == v;
                    assert(p(self.edges@[j]));
                }
            }
            assert forall|a: Node, b: Node|
                !(a == u && b == v) && pre.has_edge(a, b) implies #[trigger] self.edge_at(a, b)
                == pre.edge_at(a, b) by {
                let j = choose|j: int|
                    0 <= j < pre.edges@.len() && (#[trigger] pre.edges@[j]).from == a
                        && pre.edges@[j].to == b;
                pre.lemma_edge_at(j);
                lemma_keep_contains(pre.edges@, p, pre.edges@[j]);
                let k = choose|k: int| 0 <= k < self.edges@.len() && self.edges@[k] == pre.edges@[j];
                self.lemma_edge_at(k);
            }
        }
    }

    /// Removes `n` and every edge incident to `n` stored at this layer.
    #[verifier::loop_isolation(false)]
    pub fn remove_node(&mut self, n: Node)
        requires
            old(self).wf(),
        ensures
            final(self).wf(),
            !final(self).has_node_spec(n),
            forall|m: Node|
                m != n ==> (#[trigger] final(self).has_node_spec(m) <==> old(self).has_node_spec(
                    m,
                )),
            final(self).nodes@ == keep(old(self).nodes@, not_node(n)),
            final(self).edges@ == keep(old(self).edges@, not_incident(n)),
            node_removed(*old(self), *final(self), n),
            forall|u: Node, v: Node|
                #[trigger] final(self).has_edge(u, v) <==> old(self).has_edge(u, v) && u != n && v
                    != n,
            forall|u: Node, v: Node|
                u != n && v != n && old(self).has_edge(u, v) ==> #[trigger] final(self).edge_at(
                    u,
                    v,
                ) == old(self).edge_at(u, v),
    {
        let ghost pre = *self;
        let ghost pn = not_node(n);
        let mut kept: Vec<Node> = Vec::new();
        let mut i: usize = 0;
        while i < self.nodes.len()
            invariant
                i <= self.nodes.len(),
                self.nodes@ == pre.nodes@,
                kept@ == keep(pre.nodes@.take(i as int), pn),
            decreases self.nodes.len() - i,
        {
            let m = self.nodes[i];
            proof {
                lemma_keep_take_step(pre.nodes@, pn, i as int);
            }
            if m != n {
                kept.push(m);
            }
            i += 1;
        }
        proof {
            lemma_keep_take_full(pre.nodes@, pn);
        }
        self.nodes = kept;
        let ghost pe = not_incident(n);
        let mut out: Vec<Edge> = Vec::new();
        let mut j: usize = 0;
        while j < self.edges.len()
            invariant
                j <= self.edges.len(),
                self.edges@ == pre.edges@,
                out@ == keep(pre.edges@.take(j as int), pe),
            decreases self.edges.len() - j,
        {
            let e = self.edges[j];
            proof {
                lemma_keep_take_step(pre.edges@, pe, j as int);
            }
            if !(e.from == n || e.to == n) {
                out.push(e);
            }
            j += 1;
        }
        proof {
            lemma_keep_take_full(pre.edges@, pe);
        }
        self.edges = out;
        proof {
            lemma_keep_elements(pre.nodes@, pn);
            lemma_keep_elements(pre.edges@, pe);
            assert(nodes_wf(self.nodes@)) by {
                assert forall|a: int, b: int| 0 <= a < b < self.nodes@.len() implies #[trigger] self
                    .nodes@[a] != #[trigger] self.nodes@[b] by {
                    lemma_keep_index_pair_nodes(pre.nodes@, pn, a, b);
                }
            }
            assert(edges_wf(self.edges@)) by {
                assert forall|a: int, b: int| 0 <= a < b < self.edges@.len() implies !((
                #[trigger] self.edges@[a]).from == (#[trigger] self.edges@[b]).from
                    && self.edges@[a].to == self.edges@[b].to) by {
                    lemma_keep_index_pair(pre.edges@, pe, a, b);
                }
            }
            assert(!self.has_node_spec(n)) by {
                if self.nodes@.contains(n) {
                    let k = choose|k: int| 0 <= k < self.nodes@.len() && self.nodes@[k] == n;
                    assert(pn(self.nodes@[k]));
                }
            }
            lemma_keep_contains(pre.nodes@, pn, n);
            assert forall|m: Node|
                m != n implies (#[trigger] self.has_node_spec(m) <==> pre.has_node_spec(m)) by {
                lemma_keep_contains(pre.nodes@, pn, m);
            }
            assert forall|u: Node, v: Node| #[trigger]
                self.has_edge(u, v) <==> pre.has_edge(u, v) && u != n && v != n by {
                if self.has_edge(u, v) {
                    let k = choose|k: int|
                        0 <= k < self.edges@.len() && (#[trigger] self.edges@[k]).from == u
                            && self.edges@[k].to == v;
                    assert(pre.edges@.contains(self.edges@[k]) && pe(self.edges@[k]));
                    let m = choose|m: int|
                        0 <= m < pre.edges@.len() && pre.edges@[m] == self.edges@[k];
                    assert(pre.edges@[m].from == u && pre.edges@[m].to == v);
                }
                if pre.has_edge(u, v) && u != n && v != n {
                    let k = choose|k: int|
                        0 <= k < pre.edges@.len() && (#[trigger] pre.edges@[k]).from == u
                            && pre.edges@[k].to == v;
                    lemma_keep_contains(pre.edges@, pe, pre.edges@[k]);
                    let m = choose|m: int|
                        0 <= m < self.edges@.len() && self.edges@[m] == pre.edges@[k];
                    assert(self.edges@[m].from == u && self.edges@[m].to == v);
                }
            }
            assert forall|u: Node, v: Node|
                u != n && v != n && pre.has_edge(u, v) implies #[trigger] self.edge_at(u, v) == pre
                .edge_at(u, v) by {
                let k = choose|k: int|
                    0 <= k < pre.edges@.len() && (#[trigger] pre.edges@[k]).from == u
                        && pre.edges@[k].to == v;
                pre.lemma_edge_at(k);
                lemma_keep_contains(pre.edges@, pe, pre.edges@[k]);
                let m = choose|m: int| 0 <= m < self.edges@.len() && self.edges@[m] == pre.edges@[k];
                self.lemma_edge_at(m);
            }
            assert(node_removed(pre, *self, n));
        }
    }

    /// A snapshot copy of the adjacency of `n`: every edge leaving `n`.
    #[verifier::loop_isolation(false)]
    pub fn get_edges(&self, n: Node) -> (r: Vec<Edge>)
        requires
            self.wf(),
        ensures
            r@ == keep(self.edges@, from_node(n)),
            forall|j: int|
                0 <= j < r@.len() ==> (#[trigger] r@[j]).from == n && self.has_edge(n, r@[j].to)
                    && self.edge_at(n, r@[j].to) == r@[j],
            forall|v: Node| self.has_edge(n, v) ==> exists|j: int| 0 <= j < r@.len() && (#[trigger] r@[j]).to == v,
    {
        let ghost p = from_node(n);
        let mut out: Vec<Edge> = Vec::new();
        let mut i: usize = 0;
        while i < self.edges.len()
            invariant
                i <= self.edges.len(),
                out@ == keep(self.edges@.take(i as int), p),
            decreases self.edges.len() - i,
        {
            let e = self.edges[i];
            proof {
                lemma_keep_take_step(self.edges@, p, i as int);
            }
            if e.from == n {
                out.push(e);
            }
            i += 1;
        }
        proof {
            lemma_keep_take_full(self.edges@, p);
            lemma_keep_elements(self.edges@, p);
            assert forall|j: int| 0 <= j < out@.len() implies (#[trigger] out@[j]).from == n
                && self.has_edge(n, out@[j].to) && self.edge_at(n, out@[j].to) == out@[j] by {
                let k = choose|k: int| 0 <= k < self.edges@.len() && self.edges@[k] == out@[j];
                self.lemma_edge_at(k);
            }
            assert forall|v: Node| self.has_edge(n, v) implies exists|j: int|
                0 <= j < out@.len() && (#[trigger] out@[j]).to == v by {
                let k = choose|k: int|
                    0 <= k < self.edges@.len() && (#[trigger] self.edges@[k]).from == n
                        && self.edges@[k].to == v;
                lemma_keep_contains(self.edges@, p, self.edges@[k]);
                let j = choose|j: int| 0 <= j < out@.len() && out@[j] == self.edges@[k];
                assert(out@[j].to == v);
            }
        }
        out
    }

    /// An enumeration of the node set.
    pub fn get_nodes(&self) -> (r: Vec<Node>)
        ensures
            r@ == self.nodes@,
    {
        let mut out: Vec<Node> = Vec::new();
        let mut i: usize = 0;
        while i < self.nodes.len()
            invariant
                i <= self.nodes.len(),
                out@ == self.nodes@.take(i as int),
            decreases self.nodes.len() - i,
        {
            out.push(self.nodes[i]);
            i += 1;
        }
        proof {
            assert(out@ =~= self.nodes@);
        }
        out
    }

    pub fn is_empty(&self) -> (r: bool)
        ensures
            r == (self.nodes@.len() == 0),
    {
        self.nodes.len() == 0
    }

    /// How many nodes take part at this level.
    pub fn no_nodes(&self) -> (r: usize)
        ensures
            r == self.nodes@.len(),
    {
        self.nodes.len()
    }

    /// Any member of the node set, to serve as an entry-point fallback.
    pub fn some_node(&self) -> (r: Option<Node>)
        ensures
            r is Some <==> self.nodes@.len() > 0,
            r matches Some(n) ==> self.has_node_spec(n),
    {
        if self.nodes.len() > 0 {
            let n = self.nodes[0];
            assert(self.nodes@.contains(n)) by {
                assert(self.nodes@[0] == n);
            }
            Some(n)
        } else {
            None
        }
    }
}

impl Clone for GraphLayer {
    fn clone(&self) -> (r: Self)
        ensures
            layer_eq(r, *self),
    {
        let nodes = self.get_nodes();
        let mut edges: Vec<Edge> = Vec::new();
        let mut i: usize = 0;
        while i < self.edges.len()
            invariant
                i <= self.edges.len(),
                edges@ == self.edges@.take(i as int),
            decreases self.edges.len() - i,
        {
            edges.push(self.edges[i]);
            i += 1;
        }
        proof {
            assert(edges@ =~= self.edges@);
        }
        GraphLayer { nodes, edges }
    }
}

/// Two distinct positions of a `keep` result come from two distinct positions
/// of the source, in order; with `edges_wf` of the source this yields
/// `edges_wf` of the result.
pub proof fn lemma_keep_index_pair(s: Seq<Edge>, p: spec_fn(Edge) -> bool, a: int, b: int)
    requires
        edges_wf(s),
        0 <= a < b < keep(s, p).len(),
    ensures
        !(keep(s, p)[a].from == keep(s, p)[b].from && keep(s, p)[a].to == keep(s, p)[b].to),
    decreases s.len(),
{
    if s.len() > 0 {
        let rest = keep(s.drop_last(), p);
        assert(edges_wf(s.drop_last())) by {
            assert(forall|i: int|
                0 <= i < s.drop_last().len() ==> #[trigger] s.drop_last()[i] == s[i]);
        }
        if p(s.last()) {
            if b < rest.len() {
                lemma_keep_index_pair(s.drop_last(), p, a, b);
            } else {
                // b is the appended last element of s
                crate::util::lemma_keep_elements(s.drop_last(), p);
                assert(keep(s, p)[b] == s.last());
                assert(keep(s, p)[a] == rest[a]);
                let i = choose|i: int| 0 <= i < s.drop_last().len() && s.drop_last()[i] == rest[a];
                assert(s[i] == rest[a]);
                assert(s[s.len() - 1] == s.last());
                assert(!(s[i].from == s[s.len() - 1].from && s[i].to == s[s.len() - 1].to));
            }
        } else {
            lemma_keep_index_pair(s.drop_last(), p, a, b);
        }
    }
}

/// The node analogue of `lemma_keep_index_pair`.
pub proof fn lemma_keep_index_pair_nodes(s: Seq<Node>, p: spec_fn(Node) -> bool, a: int, b: int)
    requires
        nodes_wf(s),
        0 <= a < b < keep(s, p).len(),
    ensures
        keep(s, p)[a] != keep(s, p)[b],
    decreases s.len(),
{
    if s.len() > 0 {
        let rest = keep(s.drop_last(), p);
        assert(nodes_wf(s.drop_last())) by {
            assert(forall|i: int|
                0 <= i < s.drop_last().len() ==> #[trigger] s.drop_last()[i] == s[i]);
        }
        if p(s.last()) {
            if b < rest.len() {
                lemma_keep_index_pair_nodes(s.drop_last(), p, a, b);
            } else {
                crate::util::lemma_keep_elements(s.drop_last(), p);
                assert(keep(s, p)[b] == s.last());
                assert(keep(s, p)[a] == rest[a]);
                let i = choose|i: int| 0 <= i < s.drop_last().len() && s.drop_last()[i] == rest[a];
                assert(s[i] == rest[a]);
                assert(s[s.len() - 1] == s.last());
            }
        } else {
            lemma_keep_index_pair_nodes(s.drop_last(), p, a, b);
        }
    }
}

} // verus!
