//! The index orchestrator: the write-through container over the two segment
//! storages and the metadata store.
//!
//! An `Index` holds the in-memory layer stacks, the entry point, the next
//! commit's version and the batch of erased nodes awaiting a commit.  All
//! persistent state lives in the [`Disk`] the caller passes to each
//! operation; a writer and any number of readers may hold handles onto one
//! directory image.

use vstd::prelude::*;

use crate::codec::{decode_string, decode_vector, encode_string, encode_vector, string_rpr, string_rpr_ok, vector_rpr, vector_rpr_ok};
use crate::disk::Disk;
use crate::elements::{Edge, EntryPoint, GraphLog, Node, Vector};
use crate::graph_layer::{from_node, layer_eq, node_removed, not_node, prefix_closed, stack_wf, stacks_transposed, transposed, GraphLayer};
use crate::meta::{is_prefix, km_at, km_has, km_wf, lbl_has};
use crate::util::keep;

verus! {

/// An introspection snapshot: per-layer node counts, the total and the
/// entry point.
#[derive(Debug)]
pub struct Stats {
    pub nodes_per_out_layer: Vec<usize>,
    pub nodes_per_in_layer: Vec<usize>,
    pub nodes_in_total: usize,
    pub entry_point: Option<EntryPoint>,
}

/// A single-writer / many-reader handle onto one index directory.
#[derive(Debug)]
pub struct Index {
    pub time_stamp: u128,
    pub layers_len: usize,
    pub removed: Vec<Node>,
    pub entry_point: Option<EntryPoint>,
    pub layers_out: Vec<GraphLayer>,
    pub layers_in: Vec<GraphLayer>,
}

impl Index {
    /// A writer mirrors the out-stack with a fully loaded in-stack; a reader
    /// leaves the in-stack empty.
    pub open spec fn is_writer(self) -> bool {
        self.layers_in@.len() == self.layers_len
    }

    /// Well-formedness of the in-memory state: the out-stack is exactly
    /// `layers_len` deep, the in-stack mirrors it or is absent, every layer
    /// is well-formed, node participation is prefix-closed, and where the
    /// in-stack is present it transposes the out-stack layer by layer.
    pub open spec fn wf(self) -> bool {
        &&& self.layers_out@.len() == self.layers_len
        &&& self.layers_in@.len() == self.layers_len || self.layers_in@.len() == 0
        &&& stack_wf(self.layers_out@)
        &&& stack_wf(self.layers_in@)
        &&& prefix_closed(self.layers_out@)
        &&& (self.is_writer() ==> stacks_transposed(self.layers_out@, self.layers_in@))
    }

    /// A node of the erased batch still owns its segments on the given
    /// disk, its key still decodes, and its segments collide with nothing
    /// the disk references — so a commit may tombstone the batch and a later
    /// collection may free it without touching anything registered.
    pub open spec fn removed_ok(disk: Disk, n: Node) -> bool {
        &&& disk.key_storage.is_live(n.key)
        &&& string_rpr_ok(disk.key_storage.read_spec(n.key))
        &&& disk.vector_storage.is_live(n.vector)
        &&& n.key.len >= 1
        &&& n.vector.len >= 1
        &&& forall|j: int|
            0 <= j < disk.meta.keymap@.len() ==> (#[trigger] disk.meta.keymap@[j]).1.key != n.key
                && disk.meta.keymap@[j].1.vector != n.vector
        &&& forall|j: int|
            0 <= j < disk.meta.tombstones@.len() ==> (#[trigger] disk.meta.tombstones@[j]).key
                != n.key && disk.meta.tombstones@[j].vector != n.vector
    }

    /// Every node a layer holds owns a key segment that lies within the
    /// disk's written key data and has a positive length.  A freshly
    /// appended segment therefore belongs to no node already in a layer.
    pub open spec fn layer_keys_bounded(self, disk: Disk) -> bool {
        forall|i: int, n: Node|
            0 <= i < self.layers_out@.len() && (#[trigger] self.layers_out@[i].has_node_spec(n))
                ==> n.key.off + n.key.len <= disk.key_storage.data@.len() && n.key.len >= 1
    }

    /// The handle is in step with the disk: the erased batch still owns its
    /// segments there, and every layered node's key segment lies within the
    /// written data.
    pub open spec fn coupled(self, disk: Disk) -> bool {
        &&& forall|i: int|
            0 <= i < self.removed@.len() ==> Index::removed_ok(disk, #[trigger] self.removed@[i])
        &&& self.layer_keys_bounded(disk)
    }

    /// How many layers the stack currently holds.
    pub fn no_layers(&self) -> (r: usize)
        ensures
            r == self.layers_len,
    {
        self.layers_len
    }

    /// The current entry point, if any.
    pub fn get_entry_point(&self) -> (r: Option<EntryPoint>)
        ensures
            r == self.entry_point,
    {
        self.entry_point
    }

    /// How many live nodes the index holds: the population of layer zero.
    pub fn no_nodes(&self) -> (r: usize)
        requires
            self.wf(),
        ensures
            self.layers_len == 0 ==> r == 0,
            self.layers_len > 0 ==> r == self.layers_out@[0].nodes@.len(),
    {
        if self.layers_out.len() == 0 {
            0
        } else {
            self.layers_out[0].no_nodes()
        }
    }

    /// Whether `node` participates at `layer`; a layer beyond the stack
    /// holds nothing.
    pub fn is_node_at(&self, layer: usize, node: Node) -> (r: bool)
        requires
            self.wf(),
        ensures
            r == (layer < self.layers_len && self.layers_out@[layer as int].has_node_spec(node)),
    {
        if layer < self.layers_out.len() {
            self.layers_out[layer].has_node(node)
        } else {
            false
        }
    }

    /// A snapshot copy of the out-adjacency of `node` at `layer`.
    pub fn out_edges(&self, layer: usize, node: Node) -> (r: Vec<Edge>)
        requires
            self.wf(),
            layer < self.layers_len,
        ensures
            r@ == keep(self.layers_out@[layer as int].edges@, from_node(node)),
            forall|j: int|
                0 <= j < r@.len() ==> (#[trigger] r@[j]).from == node && self.layers_out@[
                    layer as int].has_edge(node, r@[j].to) && self.layers_out@[
                    layer as int].edge_at(node, r@[j].to) == r@[j],
            forall|v: Node|
                self.layers_out@[layer as int].has_edge(node, v) ==> exists|j: int|
                    0 <= j < r@.len() && (#[trigger] r@[j]).to == v,
    {
        self.layers_out[layer].get_edges(node)
    }

    /// A snapshot copy of the in-adjacency of `node` at `layer`.  A reader
    /// omits the in-stack, so in reader mode — and for a layer beyond the
    /// stack — the answer is empty.
    pub fn in_edges(&self, layer: usize, node: Node) -> (r: Vec<Edge>)
        requires
            self.wf(),
        ensures
            layer < self.layers_in@.len() ==> r@ == keep(
                self.layers_in@[layer as int].edges@,
                from_node(node),
            ),
            layer >= self.layers_in@.len() ==> r@ == Seq::<Edge>::empty(),
            forall|j: int|
                0 <= j < r@.len() ==> (#[trigger] r@[j]).from == node && self.layers_in@[
                    layer as int].has_edge(node, r@[j].to) && self.layers_in@[
                    layer as int].edge_at(node, r@[j].to) == r@[j],
            forall|v: Node|
                layer < self.layers_in@.len() && self.layers_in@[layer as int].has_edge(node, v)
                    ==> exists|j: int| 0 <= j < r@.len() && (#[trigger] r@[j]).to == v,
    {
        if layer < self.layers_in.len() {
            self.layers_in[layer].get_edges(node)
        } else {
            Vec::new()
        }
    }

    /// Monotone entry-point replacement: a new entry point is taken only
    /// when none exists or the current one sits at a layer no higher;
    /// downgrades are silently ignored.
    pub fn set_entry_point(&mut self, ep: EntryPoint)
        ensures
            final(self).entry_point == (match old(self).entry_point {
                Some(crnt) => if crnt.layer <= ep.layer {
                    Some(ep)
                } else {
                    Some(crnt)
                },
                None => Some(ep),
            }),
            final(self).layers_out@ == old(self).layers_out@,
            final(self).layers_in@ == old(self).layers_in@,
            final(self).layers_len == old(self).layers_len,
            final(self).time_stamp == old(self).time_stamp,
            final(self).removed@ == old(self).removed@,
    {
        match self.entry_point {
            Some(crnt) => {
                if crnt.layer <= ep.layer {
                    self.entry_point = Some(ep);
                }
            },
            None => {
                self.entry_point = Some(ep);
            },
        }
    }

    /// Inserts `out_edge` at `layer` and the reversed edge into the
    /// in-stack, keyed by the opposite endpoint: in/out symmetry holds by
    /// construction.
    #[verifier::loop_isolation(false)]
    pub fn connect(&mut self, layer: usize, out_edge: Edge)
        requires
            old(self).wf(),
            old(self).is_writer(),
            layer < old(self).layers_len,
        ensures
            final(self).wf(),
            final(self).is_writer(),
            final(self).layers_len == old(self).layers_len,
            final(self).entry_point == old(self).entry_point,
            final(self).time_stamp == old(self).time_stamp,
            final(self).removed@ == old(self).removed@,
            forall|k: int|
                0 <= k < old(self).layers_len && k != layer ==> final(self).layers_out@[k] == old(self).layers_out@[k] && final(self).layers_in@[k] == old(self).layers_in@[k],
            forall|k: int|
                0 <= k < old(self).layers_len ==> (#[trigger] final(self).layers_out@[k]).nodes@
                    == old(self).layers_out@[k].nodes@ && final(self).layers_in@[k].nodes@ == old(self).layers_in@[k].nodes@,
            final(self).layers_out@[layer as int].has_edge(out_edge.from, out_edge.to),
            final(self).layers_out@[layer as int].edge_at(out_edge.from, out_edge.to) == out_edge,
            final(self).layers_in@[layer as int].has_edge(out_edge.to, out_edge.from),
            final(self).layers_in@[layer as int].edge_at(out_edge.to, out_edge.from) == (Edge {
                from: out_edge.to,
                to: out_edge.from,
                dist: out_edge.dist,
            }),
            forall|u: Node, v: Node|
                !(u == out_edge.from && v == out_edge.to) ==> (#[trigger] final(self).layers_out@[layer as int].has_edge(u, v) <==> old(self).layers_out@[
                layer as int].has_edge(u, v)),
            forall|u: Node, v: Node|
                !(u == out_edge.from && v == out_edge.to) && old(self).layers_out@[
                layer as int].has_edge(u, v) ==> #[trigger] final(self).layers_out@[
                layer as int].edge_at(u, v) == old(self).layers_out@[layer as int].edge_at(u, v),
    {
        let in_edge = Edge { from: out_edge.to, to: out_edge.from, dist: out_edge.dist };
        let ghost pre = *self;
        let mut lo = self.layers_out.remove(layer);
        lo.add_edge(out_edge);
        self.layers_out.insert(layer, lo);
        proof {
            assert(self.layers_out@ =~= pre.layers_out@.update(layer as int, self.layers_out@[
                layer as int]));
        }
        let mut li = self.layers_in.remove(layer);
        li.add_edge(in_edge);
        self.layers_in.insert(layer, li);
        proof {
            assert(self.layers_in@ =~= pre.layers_in@.update(layer as int, self.layers_in@[
                layer as int]));
            let l = layer as int;
            let a = self.layers_out@[l];
            let b = self.layers_in@[l];
            let oa = pre.layers_out@[l];
            let ob = pre.layers_in@[l];
            assert(transposed(a, b)) by {
                assert(transposed(oa, ob));
                assert forall|u: Node, v: Node| #[trigger] a.has_edge(u, v) implies b.has_edge(
                    v,
                    u,
                ) by {
                    if !(u == out_edge.from && v == out_edge.to) {
                        assert(oa.has_edge(u, v));
                        assert(ob.has_edge(v, u));
                    }
                }
                assert forall|u: Node, v: Node| #[trigger] a.has_edge(u, v) implies b.edge_at(v, u)
                    == (Edge { from: v, to: u, dist: a.edge_at(u, v).dist }) by {
                    if u == out_edge.from && v == out_edge.to {
                        assert(a.edge_at(u, v) == out_edge);
                        assert(b.edge_at(v, u) == in_edge);
                    } else {
                        assert(oa.has_edge(u, v));
                        assert(ob.has_edge(v, u));
                        assert(a.edge_at(u, v) == oa.edge_at(u, v));
                        assert(b.edge_at(v, u) == ob.edge_at(v, u));
                    }
                }
                assert forall|u: Node, v: Node| b.has_edge(v, u) implies #[trigger] a.has_edge(
                    u,
                    v,
                ) by {
                    if !(v == in_edge.from && u == in_edge.to) {
                        assert(ob.has_edge(v, u));
                        assert(oa.has_edge(u, v));
                    }
                }
            }

            assert forall|k: int| 0 <= k < self.layers_out@.len() implies (
            #[trigger] self.layers_out@[k]).nodes@ == pre.layers_out@[k].nodes@
                && self.layers_out@[k].wf() by {
                if k != l {
                    assert(self.layers_out@[k] == pre.layers_out@[k]);
                }
            }
            assert forall|k: int| 0 <= k < self.layers_in@.len() implies (
            #[trigger] self.layers_in@[k]).nodes@ == pre.layers_in@[k].nodes@
                && self.layers_in@[k].wf() by {
                if k != l {
                    assert(self.layers_in@[k] == pre.layers_in@[k]);
                }
            }
            assert(prefix_closed(self.layers_out@)) by {
                assert forall|i: int, n: Node|
                    1 <= i < self.layers_out@.len() && (#[trigger] self.layers_out@[
                    i].has_node_spec(n)) implies self.layers_out@[i - 1].has_node_spec(n) by {
                    assert(pre.layers_out@[i].has_node_spec(n));
                    assert(pre.layers_out@[i - 1].has_node_spec(n));
                }
            }
            assert(stacks_transposed(self.layers_out@, self.layers_in@)) by {
                assert forall|k: int| 0 <= k < self.layers_out@.len() implies transposed(
                    #[trigger] self.layers_out@[k],
                    #[trigger] self.layers_in@[k],
                ) by {
                    if k != l {
                        assert(self.layers_out@[k] == pre.layers_out@[k]);
                        assert(self.layers_in@[k] == pre.layers_in@[k]);
                        assert(transposed(pre.layers_out@[k], pre.layers_in@[k]));
                    }
                }
            }
        }
    }

    /// Removes the out-edge `source → destination` at `layer` together with
    /// its reversed in-edge.
    #[verifier::loop_isolation(false)]
    pub fn disconnect(&mut self, layer: usize, source: Node, destination: Node)
        requires
            old(self).wf(),
            old(self).is_writer(),
            layer < old(self).layers_len,
        ensures
            final(self).wf(),
            final(self).is_writer(),
            final(self).layers_len == old(self).layers_len,
            final(self).entry_point == old(self).entry_point,
            final(self).time_stamp == old(self).time_stamp,
            final(self).removed@ == old(self).removed@,
            forall|k: int|
                0 <= k < old(self).layers_len && k != layer ==> final(self).layers_out@[k] == old(self).layers_out@[k] && final(self).layers_in@[k] == old(self).layers_in@[k],
            forall|k: int|
                0 <= k < old(self).layers_len ==> (#[trigger] final(self).layers_out@[k]).nodes@
                    == old(self).layers_out@[k].nodes@ && final(self).layers_in@[k].nodes@ == old(self).layers_in@[k].nodes@,
            !final(self).layers_out@[layer as int].has_edge(source, destination),
            !final(self).layers_in@[layer as int].has_edge(destination, source),
            forall|u: Node, v: Node|
                !(u == source && v == destination) ==> (#[trigger] final(self).layers_out@[
                layer as int].has_edge(u, v) <==> old(self).layers_out@[layer as int].has_edge(
                    u,
                    v,
                )),
            forall|u: Node, v: Node|
                !(u == source && v == destination) && old(self).layers_out@[
                layer as int].has_edge(u, v) ==> #[trigger] final(self).layers_out@[
                layer as int].edge_at(u, v) == old(self).layers_out@[layer as int].edge_at(u, v),
    {
        let ghost pre = *self;
        let mut lo = self.layers_out.remove(layer);
        lo.remove_edge(source, destination);
        self.layers_out.insert(layer, lo);
        proof {
            assert(self.layers_out@ =~= pre.layers_out@.update(layer as int, self.layers_out@[
                layer as int]));
        }
        let mut li = self.layers_in.remove(layer);
        li.remove_edge(destination, source);
        self.layers_in.insert(layer, li);
        proof {
            assert(self.layers_in@ =~= pre.layers_in@.update(layer as int, self.layers_in@[
                layer as int]));
            let l = layer as int;
            let a = self.layers_out@[l];
            let b = self.layers_in@[l];
            let oa = pre.layers_out@[l];
            let ob = pre.layers_in@[l];
            assert(transposed(a, b)) by {
                assert(transposed(oa, ob));
                assert forall|u: Node, v: Node| #[trigger] a.has_edge(u, v) implies b.has_edge(
                    v,
                    u,
                ) by {
                    assert(oa.has_edge(u, v));
                    assert(ob.has_edge(v, u));
                }
                assert forall|u: Node, v: Node| b.has_edge(v, u) implies #[trigger] a.has_edge(
                    u,
                    v,
                ) by {
                    assert(ob.has_edge(v, u));
                    assert(oa.has_edge(u, v));
                }
                assert forall|u: Node, v: Node| #[trigger] a.has_edge(u, v) implies b.edge_at(v, u)
                    == (Edge { from: v, to: u, dist: a.edge_at(u, v).dist }) by {
                    assert(oa.has_edge(u, v));
                    assert(a.edge_at(u, v) == oa.edge_at(u, v));
                    assert(b.edge_at(v, u) == ob.edge_at(v, u));
                }
            }

            assert forall|k: int| 0 <= k < self.layers_out@.len() implies (
            #[trigger] self.layers_out@[k]).nodes@ == pre.layers_out@[k].nodes@
                && self.layers_out@[k].wf() by {
                if k != l {
                    assert(self.layers_out@[k] == pre.layers_out@[k]);
                }
            }
            assert forall|k: int| 0 <= k < self.layers_in@.len() implies (
            #[trigger] self.layers_in@[k]).nodes@ == pre.layers_in@[k].nodes@
                && self.layers_in@[k].wf() by {
                if k != l {
                    assert(self.layers_in@[k] == pre.layers_in@[k]);
                }
            }
            assert(prefix_closed(self.layers_out@)) by {
                assert forall|i: int, n: Node|
                    1 <= i < self.layers_out@.len() && (#[trigger] self.layers_out@[
                    i].has_node_spec(n)) implies self.layers_out@[i - 1].has_node_spec(n) by {
                    assert(pre.layers_out@[i].has_node_spec(n));
                    assert(pre.layers_out@[i - 1].has_node_spec(n));
                }
            }
            assert(stacks_transposed(self.layers_out@, self.layers_in@)) by {
                assert forall|k: int| 0 <= k < self.layers_out@.len() implies transposed(
                    #[trigger] self.layers_out@[k],
                    #[trigger] self.layers_in@[k],
                ) by {
                    if k != l {
                        assert(self.layers_out@[k] == pre.layers_out@[k]);
                        assert(self.layers_in@[k] == pre.layers_in@[k]);
                        assert(transposed(pre.layers_out@[k], pre.layers_in@[k]));
                    }
                }
            }
        }
    }

    /// The introspection snapshot.
    #[verifier::loop_isolation(false)]
    pub fn stats(&self) -> (r: Stats)
        requires
            self.wf(),
        ensures
            r.nodes_per_out_layer@.len() == self.layers_out@.len(),
            forall|i: int|
                0 <= i < self.layers_out@.len() ==> #[trigger] r.nodes_per_out_layer@[i]
                    == self.layers_out@[i].nodes@.len(),
            r.nodes_per_in_layer@.len() == self.layers_in@.len(),
            forall|i: int|
                0 <= i < self.layers_in@.len() ==> #[trigger] r.nodes_per_in_layer@[i]
                    == self.layers_in@[i].nodes@.len(),
            self.layers_len == 0 ==> r.nodes_in_total == 0,
            self.layers_len > 0 ==> r.nodes_in_total == self.layers_out@[0].nodes@.len(),
            r.entry_point == self.entry_point,
    {
        let mut out_counts: Vec<usize> = Vec::new();
        let mut i: usize = 0;
        while i < self.layers_out.len()
            invariant
                i <= self.layers_out@.len(),
                out_counts@.len() == i,
                forall|j: int|
                    0 <= j < i ==> #[trigger] out_counts@[j] == self.layers_out@[j].nodes@.len(),
            decreases self.layers_out@.len() - i,
        {
            out_counts.push(self.layers_out[i].no_nodes());
            i += 1;
        }
        let mut in_counts: Vec<usize> = Vec::new();
        let mut j: usize = 0;
        while j < self.layers_in.len()
            invariant
                j <= self.layers_in@.len(),
                in_counts@.len() == j,
                forall|k: int|
                    0 <= k < j ==> #[trigger] in_counts@[k] == self.layers_in@[k].nodes@.len(),
            decreases self.layers_in@.len() - j,
        {
            in_counts.push(self.layers_in[j].no_nodes());
            j += 1;
        }
        Stats {
            nodes_per_out_layer: out_counts,
            nodes_per_in_layer: in_counts,
            nodes_in_total: self.no_nodes(),
            entry_point: self.entry_point,
        }
    }
}

/// The key string a node's key segment stores, as characters.
pub open spec fn node_key_chars(disk: Disk, n: Node) -> Seq<char> {
    vstd::utf8::decode_utf8(disk.key_storage.read_spec(n.key).skip(8))
}

impl Index {
    /// Opens a reader onto a directory image: the committed log and the
    /// out-layers are loaded; the in-stack stays empty, since search descent
    /// only follows out-edges.
    #[verifier::loop_isolation(false)]
    pub fn reader(disk: &Disk) -> (r: Index)
        requires
            disk.wf(),
        ensures
            r.wf(),
            r.layers_in@.len() == 0,
            r.removed@ == Seq::<Node>::empty(),
            r.time_stamp == disk.meta.log.version_number,
            r.entry_point == disk.meta.log.entry_point,
            r.layers_len == disk.meta.log.max_layer,
            r.coupled(*disk),
            forall|i: int|
                0 <= i < r.layers_out@.len() ==> layer_eq(
                    #[trigger] r.layers_out@[i],
                    disk.meta.layers_out@[i],
                ),
    {
        let log = disk.meta.get_log();
        let stored = disk.meta.layers_out.len();
        assert(log.max_layer <= stored);
        let max = log.max_layer as usize;
        let mut layers_out: Vec<GraphLayer> = Vec::new();
        let mut i: usize = 0;
        while i < max
            invariant
                i <= max,
                layers_out@.len() == i,
                forall|j: int|
                    0 <= j < i ==> layer_eq(#[trigger] layers_out@[j], disk.meta.layers_out@[j]),
            decreases max - i,
        {
            match disk.meta.get_layer_out(i) {
                Some(l) => {
                    layers_out.push(l);
                },
                None => {
                    proof {
                        assert(false);
                    }
                    vstd::pervasive::unreached()
                },
            }
            i += 1;
        }
        let r = Index {
            time_stamp: log.version_number,
            layers_len: max,
            removed: Vec::new(),
            entry_point: log.entry_point,
            layers_out,
            layers_in: Vec::new(),
        };
        proof {
            lemma_loaded_stack_wf(r.layers_out@, disk.meta.layers_out@.take(max as int));
            assert(r.layer_keys_bounded(*disk)) by {
                assert forall|i: int, n: Node|
                    0 <= i < r.layers_out@.len() && (#[trigger] r.layers_out@[i].has_node_spec(
                        n,
                    )) implies n.key.off + n.key.len <= disk.key_storage.data@.len() && n.key.len
                    >= 1 by {
                    crate::graph_layer::lemma_layer_eq_congruence(
                        r.layers_out@[i],
                        disk.meta.layers_out@[i],
                    );
                    assert(disk.meta.layers_out@[i].has_node_spec(n));
                }
            }
        }
        r
    }

    /// Opens a writer onto a directory image: both layer stacks are loaded
    /// and the handle's version is one past the committed one — the version
    /// its first commit will persist.
    #[verifier::loop_isolation(false)]
    pub fn writer(disk: &Disk) -> (r: Index)
        requires
            disk.wf(),
            disk.meta.log.version_number < u128::MAX,
        ensures
            r.wf(),
            r.is_writer(),
            r.removed@ == Seq::<Node>::empty(),
            r.coupled(*disk),
            r.time_stamp == disk.meta.log.version_number + 1,
            r.entry_point == disk.meta.log.entry_point,
            r.layers_len == disk.meta.log.max_layer,
            forall|i: int|
                0 <= i < r.layers_out@.len() ==> layer_eq(
                    #[trigger] r.layers_out@[i],
                    disk.meta.layers_out@[i],
                ),
            forall|i: int|
                0 <= i < r.layers_in@.len() ==> layer_eq(
                    #[trigger] r.layers_in@[i],
                    disk.meta.layers_in@[i],
                ),
    {
        let log = disk.meta.get_log();
        let stored_out = disk.meta.layers_out.len();
        let stored_in = disk.meta.layers_in.len();
        assert(log.max_layer <= stored_out && log.max_layer <= stored_in);
        let max = log.max_layer as usize;
        let mut layers_out: Vec<GraphLayer> = Vec::new();
        let mut layers_in: Vec<GraphLayer> = Vec::new();
        let mut i: usize = 0;
        while i < max
            invariant
                i <= max,
                layers_out@.len() == i,
                layers_in@.len() == i,
                forall|j: int|
                    0 <= j < i ==> layer_eq(#[trigger] layers_out@[j], disk.meta.layers_out@[j]),
                forall|j: int|
                    0 <= j < i ==> layer_eq(#[trigger] layers_in@[j], disk.meta.layers_in@[j]),
            decreases max - i,
        {
            match disk.meta.get_layer_out(i) {
                Some(l) => {
                    layers_out.push(l);
                },
                None => {
                    proof {
                        assert(false);
                    }
                    vstd::pervasive::unreached()
                },
            }
            match disk.meta.get_layer_in(i) {
                Some(l) => {
                    layers_in.push(l);
                },
                None => {
                    proof {
                        assert(false);
                    }
                    vstd::pervasive::unreached()
                },
            }
            i += 1;
        }
        let r = Index {
            time_stamp: log.version_number + 1,
            layers_len: max,
            removed: Vec::new(),
            entry_point: log.entry_point,
            layers_out,
            layers_in,
        };
        proof {
            lemma_loaded_stack_wf(r.layers_out@, disk.meta.layers_out@.take(max as int));
            assert(r.layer_keys_bounded(*disk)) by {
                assert forall|i: int, n: Node|
                    0 <= i < r.layers_out@.len() && (#[trigger] r.layers_out@[i].has_node_spec(
                        n,
                    )) implies n.key.off + n.key.len <= disk.key_storage.data@.len() && n.key.len
                    >= 1 by {
                    crate::graph_layer::lemma_layer_eq_congruence(
                        r.layers_out@[i],
                        disk.meta.layers_out@[i],
                    );
                    assert(disk.meta.layers_out@[i].has_node_spec(n));
                }
            }
            assert forall|k: int| 0 <= k < r.layers_in@.len() implies (
            #[trigger] r.layers_in@[k]).wf() by {
                let si = disk.meta.layers_in@.take(max as int);
                crate::graph_layer::lemma_layer_eq_congruence(r.layers_in@[k], si[k]);
                assert(si[k].wf());
            }
            assert(stacks_transposed(r.layers_out@, r.layers_in@)) by {
                let so = disk.meta.layers_out@.take(max as int);
                let si = disk.meta.layers_in@.take(max as int);
                assert forall|k: int| 0 <= k < r.layers_out@.len() implies transposed(
                    #[trigger] r.layers_out@[k],
                    #[trigger] r.layers_in@[k],
                ) by {
                    assert(transposed(so[k], si[k]));
                    assert(layer_eq(r.layers_out@[k], so[k]));
                    assert(layer_eq(r.layers_in@[k], si[k]));
                    crate::graph_layer::lemma_layer_eq_congruence(r.layers_out@[k], so[k]);
                    crate::graph_layer::lemma_layer_eq_congruence(r.layers_in@[k], si[k]);
                }
            }
        }
        r
    }

    /// Looks a key up through the metadata store.
    pub fn get_node(&self, disk: &Disk, key: &str) -> (r: Option<Node>)
        requires
            disk.wf(),
        ensures
            r is Some <==> km_has(disk.meta.keymap@, key@),
            r matches Some(n) ==> n == km_at(disk.meta.keymap@, key@),
    {
        disk.meta.get_node(key)
    }

    /// Whether a key is registered.
    pub fn has_node(&self, disk: &Disk, key: &str) -> (r: bool)
        requires
            disk.wf(),
        ensures
            r == km_has(disk.meta.keymap@, key@),
    {
        self.get_node(disk, key).is_some()
    }

    /// The registered keys that start with `prefix`: a sorted ascending,
    /// duplicate-free enumeration of exactly the matching keys.
    pub fn get_prefixed(&self, disk: &Disk, prefix: &str) -> (r: Vec<String>)
        requires
            disk.wf(),
        ensures
            crate::meta::prefixed_result_ok(disk.meta.keymap@, prefix@, r@),
    {
        disk.meta.get_prefixed(prefix)
    }

    /// Associates a label with a key, through a short transaction of its
    /// own.
    pub fn add_label(&mut self, disk: &mut Disk, key: String, label: String)
        requires
            old(disk).wf(),
        ensures
            final(disk).wf(),
            *final(self) == *old(self),
            forall|k: Seq<char>, l: Seq<char>|
                #[trigger] lbl_has(final(disk).meta.labels@, k, l) <==> lbl_has(
                    old(disk).meta.labels@,
                    k,
                    l,
                ) || (k == key@ && l == label@),
            final(disk).meta.keymap@ == old(disk).meta.keymap@,
            final(disk).meta.tombstones@ == old(disk).meta.tombstones@,
            final(disk).meta.log == old(disk).meta.log,
            final(disk).meta.same_layers(old(disk).meta),
            final(disk).key_storage == old(disk).key_storage,
            final(disk).vector_storage == old(disk).vector_storage,
    {
        disk.meta.add_label(key, label);
    }

    /// Whether every one of `labels` is associated with the key stored at
    /// `node`'s key segment.
    #[verifier::loop_isolation(false)]
    pub fn has_labels(&self, disk: &Disk, node: Node, labels: &[String]) -> (r: bool)
        requires
            disk.wf(),
            disk.key_storage.is_live(node.key),
            string_rpr_ok(disk.key_storage.read_spec(node.key)),
        ensures
            r <==> forall|i: int|
                0 <= i < labels@.len() ==> lbl_has(
                    disk.meta.labels@,
                    node_key_chars(*disk, node),
                    (#[trigger] labels@[i])@,
                ),
    {
        let key = self.get_node_key(disk, node);
        let mut i: usize = 0;
        while i < labels.len()
            invariant
                i <= labels@.len(),
                forall|j: int|
                    0 <= j < i ==> lbl_has(
                        disk.meta.labels@,
                        node_key_chars(*disk, node),
                        (#[trigger] labels@[j])@,
                    ),
            decreases labels@.len() - i,
        {
            let label = vstd::slice::slice_index_get(labels, i);
            if !disk.meta.has_label(key.as_str(), label.as_str()) {
                return false;
            }
            i += 1;
        }
        true
    }

    /// The key string stored at `node`'s key segment.
    pub fn get_node_key(&self, disk: &Disk, node: Node) -> (r: String)
        requires
            disk.wf(),
            disk.key_storage.is_live(node.key),
            string_rpr_ok(disk.key_storage.read_spec(node.key)),
        ensures
            string_rpr(r@) == disk.key_storage.read_spec(node.key),
            r@ == node_key_chars(*disk, node),
            forall|j: int|
                0 <= j < disk.meta.keymap@.len() && (#[trigger] disk.meta.keymap@[j]).1 == node
                    ==> r@ == disk.meta.keymap@[j].0@,
    {
        let raw = disk.key_storage.read(node.key);
        match decode_string(&raw) {
            Some(s) => {
                proof {
                    let b = disk.key_storage.read_spec(node.key);
                    assert(b == string_rpr(s@));
                    assert(string_rpr(s@).skip(8) =~= vstd::utf8::encode_utf8(s@));
                    vstd::utf8::encode_utf8_decode_utf8(s@);
                    assert forall|j: int|
                        0 <= j < disk.meta.keymap@.len() && (#[trigger] disk.meta.keymap@[j]).1
                            == node implies s@ == disk.meta.keymap@[j].0@ by {
                        let e = disk.meta.keymap@[j];
                        assert(disk.entry_ok(e));
                        assert(string_rpr(s@) == string_rpr(e.0@));
                        let raw_len = raw.len();
                        assert(vstd::utf8::encode_utf8(s@).len() <= u64::MAX);
                        crate::codec::lemma_string_codec_round_trip(s@);
                    }
                }
                s
            },
            None => {
                proof {
                    assert(false);
                }
                vstd::pervasive::unreached()
            },
        }
    }

    /// The vector stored at `node`'s vector segment, bit patterns and all.
    pub fn get_node_vector(&self, disk: &Disk, node: Node) -> (r: Vector)
        requires
            disk.wf(),
            disk.vector_storage.is_live(node.vector),
            vector_rpr_ok(disk.vector_storage.read_spec(node.vector)),
        ensures
            vector_rpr(r@) == disk.vector_storage.read_spec(node.vector),
            r@.len() <= u32::MAX,
    {
        let raw = disk.vector_storage.read(node.vector);
        match decode_vector(&raw) {
            Some(v) => v,
            None => {
                proof {
                    assert(false);
                }
                vstd::pervasive::unreached()
            },
        }
    }

    /// The keys of every node in layer zero, by reading each node's key
    /// segment back.
    #[verifier::loop_isolation(false)]
    pub fn node_keys(&self, disk: &Disk) -> (r: Vec<String>)
        requires
            self.wf(),
            self.layers_len > 0,
            disk.wf(),
            forall|j: int|
                0 <= j < self.layers_out@[0].nodes@.len() ==> disk.key_storage.is_live(
                    (#[trigger] self.layers_out@[0].nodes@[j]).key,
                ) && string_rpr_ok(
                    disk.key_storage.read_spec(self.layers_out@[0].nodes@[j].key),
                ),
        ensures
            r@.len() == self.layers_out@[0].nodes@.len(),
            forall|j: int|
                0 <= j < r@.len() ==> (#[trigger] r@[j])@ == node_key_chars(
                    *disk,
                    self.layers_out@[0].nodes@[j],
                ),
    {
        let nodes = self.layers_out[0].get_nodes();
        let mut keys: Vec<String> = Vec::new();
        let mut i: usize = 0;
        while i < nodes.len()
            invariant
                i <= nodes@.len(),
                nodes@ == self.layers_out@[0].nodes@,
                keys@.len() == i,
                forall|j: int|
                    0 <= j < i ==> (#[trigger] keys@[j])@ == node_key_chars(*disk, nodes@[j]),
            decreases nodes@.len() - i,
        {
            let key = self.get_node_key(disk, nodes[i]);
            keys.push(key);
            i += 1;
        }
        keys
    }
}

/// A stack loaded layer by layer from a well-formed stored prefix keeps its
/// well-formedness and prefix-closure.
proof fn lemma_loaded_stack_wf(loaded: Seq<GraphLayer>, stored: Seq<GraphLayer>)
    requires
        loaded.len() == stored.len(),
        forall|i: int| 0 <= i < loaded.len() ==> layer_eq(#[trigger] loaded[i], stored[i]),
        stack_wf(stored),
        prefix_closed(stored),
    ensures
        stack_wf(loaded),
        prefix_closed(loaded),
{
    assert forall|i: int| 0 <= i < loaded.len() implies (#[trigger] loaded[i]).wf() by {
        crate::graph_layer::lemma_layer_eq_congruence(loaded[i], stored[i]);
        assert(stored[i].wf());
    }
    assert forall|i: int, n: Node|
        1 <= i < loaded.len() && (#[trigger] loaded[i].has_node_spec(n)) implies loaded[
        i - 1].has_node_spec(n) by {
        crate::graph_layer::lemma_layer_eq_congruence(loaded[i], stored[i]);
        crate::graph_layer::lemma_layer_eq_congruence(loaded[i - 1], stored[i - 1]);
        assert(stored[i].has_node_spec(n));
        assert(stored[i - 1].has_node_spec(n));
    }
}

/// No node of `s` owns `x` as its key segment.
pub open spec fn no_key_among(s: Seq<Node>, x: crate::elements::SegmentId) -> bool {
    forall|j: int| 0 <= j < s.len() ==> (#[trigger] s[j]).key != x
}

/// No node of `s` owns `x` as its vector segment.
pub open spec fn no_vector_among(s: Seq<Node>, x: crate::elements::SegmentId) -> bool {
    forall|j: int| 0 <= j < s.len() ==> (#[trigger] s[j]).vector != x
}

impl Index {
    /// Refreshes a reader against the directory image: when the committed
    /// version differs from the one in hand, the entry point, the stack
    /// depth and the out-layers are replaced by the committed ones;
    /// otherwise nothing changes, so reloading twice with no intervening
    /// commit is a no-op.
    #[verifier::loop_isolation(false)]
    pub fn reload(&mut self, disk: &Disk)
        requires
            old(self).wf(),
            old(self).layers_in@.len() == 0,
            disk.wf(),
            old(self).coupled(*disk),
        ensures
            final(self).wf(),
            final(self).layers_in@.len() == 0,
            final(self).removed@ == old(self).removed@,
            final(self).coupled(*disk),
            final(self).time_stamp == disk.meta.log.version_number,
            old(self).time_stamp == disk.meta.log.version_number ==> *final(self) == *old(self),
            old(self).time_stamp != disk.meta.log.version_number ==> final(self).entry_point
                == disk.meta.log.entry_point && final(self).layers_len
                == disk.meta.log.max_layer && (forall|i: int|
                0 <= i < final(self).layers_out@.len() ==> layer_eq(
                    #[trigger] final(self).layers_out@[i],
                    disk.meta.layers_out@[i],
                )),
    {
        let log = disk.meta.get_log();
        if self.time_stamp != log.version_number {
            let stored = disk.meta.layers_out.len();
            assert(log.max_layer <= stored);
            let max = log.max_layer as usize;
            let mut layers_out: Vec<GraphLayer> = Vec::new();
            let mut i: usize = 0;
            while i < max
                invariant
                    i <= max,
                    layers_out@.len() == i,
                    forall|j: int|
                        0 <= j < i ==> layer_eq(
                            #[trigger] layers_out@[j],
                            disk.meta.layers_out@[j],
                        ),
                decreases max - i,
            {
                match disk.meta.get_layer_out(i) {
                    Some(l) => {
                        layers_out.push(l);
                    },
                    None => {
                        proof {
                            assert(false);
                        }
                        vstd::pervasive::unreached()
                    },
                }
                i += 1;
            }
            self.time_stamp = log.version_number;
            self.entry_point = log.entry_point;
            self.layers_len = max;
            self.layers_out = layers_out;
            proof {
                lemma_loaded_stack_wf(self.layers_out@, disk.meta.layers_out@.take(max as int));
                assert(self.layer_keys_bounded(*disk)) by {
                    assert forall|i: int, n: Node|
                        0 <= i < self.layers_out@.len() && (#[trigger] self.layers_out@[
                        i].has_node_spec(n)) implies n.key.off + n.key.len
                        <= disk.key_storage.data@.len() && n.key.len >= 1 by {
                        crate::graph_layer::lemma_layer_eq_congruence(
                            self.layers_out@[i],
                            disk.meta.layers_out@[i],
                        );
                        assert(disk.meta.layers_out@[i].has_node_spec(n));
                    }
                }
            }
        }
    }

    /// Drains the tombstone queue and frees, in both storages, every
    /// segment a drained node owned.  This is the only place segments are
    /// freed; nothing registered loses a segment, because a well-formed
    /// image keeps tombstoned and registered segments disjoint.
    #[verifier::loop_isolation(false)]
    pub fn run_garbage_collection(&mut self, disk: &mut Disk)
        requires
            old(disk).wf(),
            old(self).coupled(*old(disk)),
        ensures
            *final(self) == *old(self),
            final(disk).wf(),
            final(self).coupled(*final(disk)),
            final(disk).meta.tombstones@ == Seq::<Node>::empty(),
            forall|j: int|
                0 <= j < old(disk).meta.tombstones@.len() ==> !final(disk).key_storage.is_live(
                    (#[trigger] old(disk).meta.tombstones@[j]).key,
                ) && !final(disk).vector_storage.is_live(old(disk).meta.tombstones@[j].vector),
            final(disk).meta.keymap@ == old(disk).meta.keymap@,
            final(disk).meta.same_labels(old(disk).meta),
            final(disk).meta.same_layers(old(disk).meta),
            final(disk).meta.log == old(disk).meta.log,
            final(disk).key_storage.data@ == old(disk).key_storage.data@,
            final(disk).vector_storage.data@ == old(disk).vector_storage.data@,
            forall|x: crate::elements::SegmentId|
                no_key_among(old(disk).meta.tombstones@, x) ==> (#[trigger] final(disk).key_storage.is_live(x) <==> old(disk).key_storage.is_live(x)),
            forall|x: crate::elements::SegmentId|
                no_vector_among(old(disk).meta.tombstones@, x) ==> (#[trigger] final(disk).vector_storage.is_live(x) <==> old(disk).vector_storage.is_live(x)),
    {
        let ghost ts = old(disk).meta.tombstones@;
        let deleted = disk.meta.clear_deleted();
        let mut i: usize = 0;
        while i < deleted.len()
            invariant
                i <= deleted@.len(),
                deleted@ == ts,
                disk.meta.tombstones@ == Seq::<Node>::empty(),
                disk.meta.keymap@ == old(disk).meta.keymap@,
                disk.meta.same_labels(old(disk).meta),
                disk.meta.same_layers(old(disk).meta),
                disk.meta.log == old(disk).meta.log,
                disk.key_storage.wf(),
                disk.vector_storage.wf(),
                disk.key_storage.data@ == old(disk).key_storage.data@,
                disk.vector_storage.data@ == old(disk).vector_storage.data@,
                forall|x: crate::elements::SegmentId| #[trigger]
                    disk.key_storage.is_live(x) <==> old(disk).key_storage.is_live(x)
                        && no_key_among(ts.take(i as int), x),
                forall|x: crate::elements::SegmentId| #[trigger]
                    disk.vector_storage.is_live(x) <==> old(disk).vector_storage.is_live(x)
                        && no_vector_among(ts.take(i as int), x),
            decreases deleted@.len() - i,
        {
            let node = deleted[i];
            disk.vector_storage.delete_segment(node.vector);
            disk.key_storage.delete_segment(node.key);
            proof {
                assert forall|x: crate::elements::SegmentId| #[trigger]
                    disk.key_storage.is_live(x) <==> old(disk).key_storage.is_live(x)
                        && no_key_among(ts.take(i + 1), x) by {
                    assert(ts.take(i + 1).drop_last() =~= ts.take(i as int));
                    assert(ts.take(i + 1)[i as int] == ts[i as int]);
                    if no_key_among(ts.take(i + 1), x) {
                        assert(forall|j: int|
                            0 <= j < i ==> (#[trigger] ts.take(i as int)[j]) == ts.take(i + 1)[j]);
                    }
                    if disk.key_storage.is_live(x) {
                        assert(x != node.key);
                        assert forall|j: int| 0 <= j < i + 1 implies (#[trigger] ts.take(
                            i + 1,
                        )[j]).key != x by {
                            if j < i {
                                assert(ts.take(i as int)[j] == ts[j]);
                            }
                        }
                    }
                }
                assert forall|x: crate::elements::SegmentId| #[trigger]
                    disk.vector_storage.is_live(x) <==> old(disk).vector_storage.is_live(x)
                        && no_vector_among(ts.take(i + 1), x) by {
                    assert(ts.take(i + 1).drop_last() =~= ts.take(i as int));
                    assert(ts.take(i + 1)[i as int] == ts[i as int]);
                    if no_vector_among(ts.take(i + 1), x) {
                        assert(forall|j: int|
                            0 <= j < i ==> (#[trigger] ts.take(i as int)[j]) == ts.take(i + 1)[j]);
                    }
                    if disk.vector_storage.is_live(x) {
                        assert(x != node.vector);
                        assert forall|j: int| 0 <= j < i + 1 implies (#[trigger] ts.take(
                            i + 1,
                        )[j]).vector != x by {
                            if j < i {
                                assert(ts.take(i as int)[j] == ts[j]);
                            }
                        }
                    }
                }
            }
            i += 1;
        }
        proof {
            assert(ts.take(ts.len() as int) =~= ts);
            assert(final(disk).wf()) by {
                assert forall|j: int| 0 <= j < disk.meta.keymap@.len() implies disk.entry_ok(
                    #[trigger] disk.meta.keymap@[j],
                ) by {
                    let e = old(disk).meta.keymap@[j];
                    assert(old(disk).entry_ok(e));
                    assert(no_key_among(ts, e.1.key)) by {
                        assert forall|k: int| 0 <= k < ts.len() implies (#[trigger] ts[k]).key
                            != e.1.key by {
                            assert(old(disk).refs_distinct());
                        }
                    }
                    assert(no_vector_among(ts, e.1.vector)) by {
                        assert forall|k: int| 0 <= k < ts.len() implies (#[trigger] ts[k]).vector
                            != e.1.vector by {
                            assert(old(disk).refs_distinct());
                        }
                    }
                    assert(disk.key_storage.read_spec(e.1.key) == old(disk).key_storage.read_spec(
                        e.1.key,
                    ));
                    assert(disk.vector_storage.read_spec(e.1.vector) == old(disk).vector_storage.read_spec(e.1.vector));
                }
            }
            assert forall|r: int| 0 <= r < final(self).removed@.len() implies Index::removed_ok(
                *final(disk),
                #[trigger] final(self).removed@[r],
            ) by {
                let n = old(self).removed@[r];
                assert(Index::removed_ok(*old(disk), n));
                assert(no_key_among(ts, n.key)) by {
                    assert forall|k: int| 0 <= k < ts.len() implies (#[trigger] ts[k]).key != n.key
                        by {
                        assert(old(disk).meta.tombstones@[k].key != n.key);
                    }
                }
                assert(no_vector_among(ts, n.vector)) by {
                    assert forall|k: int| 0 <= k < ts.len() implies (#[trigger] ts[k]).vector
                        != n.vector by {
                        assert(old(disk).meta.tombstones@[k].vector != n.vector);
                    }
                }
                assert(disk.key_storage.read_spec(n.key) == old(disk).key_storage.read_spec(
                    n.key,
                ));
            }
        }
    }
}

impl Index {
    /// Creates a node: appends the key and vector blobs to their storages,
    /// registers `key → node` in a transaction of its own, grows the layer
    /// stacks to cover `layer`, and seeds the node's presence in every
    /// layer up to and including it.
    #[verifier::loop_isolation(false)]
    pub fn add_node(
        &mut self,
        disk: &mut Disk,
        key: String,
        vector: Vector,
        layer: usize,
    ) -> (node: Node)
        requires
            old(self).wf(),
            old(self).is_writer(),
            old(disk).wf(),
            old(self).coupled(*old(disk)),
            vector@.len() <= u32::MAX,
            layer < usize::MAX,
        ensures
            final(self).wf(),
            final(self).is_writer(),
            final(disk).wf(),
            final(self).coupled(*final(disk)),
            km_has(final(disk).meta.keymap@, key@),
            km_at(final(disk).meta.keymap@, key@) == node,
            final(disk).key_storage.read_spec(node.key) == string_rpr(key@),
            final(disk).vector_storage.read_spec(node.vector) == vector_rpr(vector@),
            final(disk).key_storage.is_live(node.key),
            final(disk).vector_storage.is_live(node.vector),
            forall|k: Seq<char>|
                #[trigger] km_has(final(disk).meta.keymap@, k) <==> km_has(
                    old(disk).meta.keymap@,
                    k,
                ) || k == key@,
            forall|k: Seq<char>|
                k != key@ && #[trigger] km_has(old(disk).meta.keymap@, k) ==> km_at(
                    final(disk).meta.keymap@,
                    k,
                ) == km_at(old(disk).meta.keymap@, k),
            final(self).layers_len as int == if (old(self).layers_len as int) < layer + 1 {
                layer + 1
            } else {
                old(self).layers_len as int
            },
            final(self).layers_out@[0].nodes@ == (if old(self).layers_len > 0 {
                old(self).layers_out@[0].nodes@
            } else {
                Seq::<Node>::empty()
            }).push(node),
            forall|i: int, m: Node|
                0 <= i < final(self).layers_len ==> ((#[trigger] final(self).layers_out@[
                i].has_node_spec(m)) <==> (i < old(self).layers_len && old(self).layers_out@[
                i].has_node_spec(m)) || (i <= layer && m == node)),
            forall|i: int|
                0 <= i < old(self).layers_len ==> (#[trigger] final(self).layers_out@[i]).edges@
                    == old(self).layers_out@[i].edges@,
            forall|i: int|
                0 <= i < old(self).layers_len ==> (#[trigger] final(self).layers_in@[i]).edges@
                    == old(self).layers_in@[i].edges@,
            forall|i: int|
                old(self).layers_len <= i < final(self).layers_len ==> (#[trigger] final(self).layers_out@[i]).edges@ == Seq::<Edge>::empty(),
            forall|i: int|
                old(self).layers_len <= i < final(self).layers_len ==> (#[trigger] final(self).layers_in@[i]).edges@ == Seq::<Edge>::empty(),
            final(self).entry_point == old(self).entry_point,
            final(self).time_stamp == old(self).time_stamp,
            final(self).removed@ == old(self).removed@,
            final(disk).meta.same_labels(old(disk).meta),
            final(disk).meta.same_layers(old(disk).meta),
            final(disk).meta.log == old(disk).meta.log,
            final(disk).meta.tombstones@ == old(disk).meta.tombstones@,
            forall|x: crate::elements::SegmentId|
                #[trigger] final(disk).key_storage.is_live(x) <==> old(disk).key_storage.is_live(
                    x,
                ) || x == node.key,
            forall|x: crate::elements::SegmentId|
                #[trigger] final(disk).vector_storage.is_live(x) <==> old(disk).vector_storage.is_live(x) || x == node.vector,
            forall|x: crate::elements::SegmentId|
                x.off + x.len <= old(disk).key_storage.data@.len() ==> #[trigger] final(disk).key_storage.read_spec(x) == old(disk).key_storage.read_spec(x),
            forall|x: crate::elements::SegmentId|
                x.off + x.len <= old(disk).vector_storage.data@.len() ==> #[trigger] final(disk).vector_storage.read_spec(x) == old(disk).vector_storage.read_spec(x),
    {
        let key_bytes = encode_string(key.as_str());
        let vec_bytes = encode_vector(&vector);
        let kb_len = key_bytes.len();
        let vb_len = vec_bytes.len();
        assert(kb_len >= 8 && vb_len >= 4);
        let ghost pre_disk = *disk;
        let kid = disk.key_storage.insert(&key_bytes);
        let vid = disk.vector_storage.insert(&vec_bytes);
        let node = Node { key: kid, vector: vid };
        proof {
            // Any segment that lay within the old bounds with a positive
            // length is distinct from the fresh one, which starts at the old
            // end.
            assert forall|x: crate::elements::SegmentId|
                x.off + x.len <= pre_disk.key_storage.data@.len() && x.len >= 1 implies x != kid
                by {}
            assert forall|x: crate::elements::SegmentId|
                x.off + x.len <= pre_disk.vector_storage.data@.len() && x.len >= 1 implies x
                != vid by {}
            assert(vstd::utf8::encode_utf8(key@).len() <= u64::MAX) by {
                assert(string_rpr(key@).len() == kb_len);
            }
            crate::codec::lemma_string_codec_round_trip(key@);
            crate::codec::lemma_vector_codec_round_trip(vector@);
        }
        let ghost mid_disk = *disk;
        disk.meta.add_node(key, node);
        proof {
            let okm = pre_disk.meta.keymap@;
            let km = disk.meta.keymap@;
            // Each old entry keeps positive-length, in-bounds segments.
            assert forall|j: int| 0 <= j < okm.len() implies (#[trigger] okm[j]).1.key.len >= 1
                && okm[j].1.key.off + okm[j].1.key.len <= pre_disk.key_storage.data@.len() && okm[
                j].1.vector.len >= 1 && okm[j].1.vector.off + okm[j].1.vector.len
                <= pre_disk.vector_storage.data@.len() by {
                assert(pre_disk.entry_ok(okm[j]));
                let e = okm[j];
                let i1 = choose|i: int|
                    0 <= i < pre_disk.key_storage.live@.len() && pre_disk.key_storage.live@[i]
                        == e.1.key;
                assert(pre_disk.key_storage.live@[i1].off + pre_disk.key_storage.live@[i1].len
                    <= pre_disk.key_storage.data@.len());
                let i2 = choose|i: int|
                    0 <= i < pre_disk.vector_storage.live@.len() && pre_disk.vector_storage.live@[
                        i] == e.1.vector;
                assert(pre_disk.vector_storage.live@[i2].off + pre_disk.vector_storage.live@[
                    i2].len <= pre_disk.vector_storage.data@.len());
                assert(pre_disk.key_storage.read_spec(e.1.key).len() == e.1.key.len);
                assert(pre_disk.vector_storage.read_spec(e.1.vector).len() == e.1.vector.len);
            }
            assert forall|j: int| 0 <= j < pre_disk.meta.tombstones@.len() implies (
            #[trigger] pre_disk.meta.tombstones@[j]).key.off + pre_disk.meta.tombstones@[j].key.len
                <= pre_disk.key_storage.data@.len() && pre_disk.meta.tombstones@[j].vector.off
                + pre_disk.meta.tombstones@[j].vector.len
                <= pre_disk.vector_storage.data@.len() by {
                assert(pre_disk.tombstone_ok(pre_disk.meta.tombstones@[j]));
                let t = pre_disk.meta.tombstones@[j];
                let i1 = choose|i: int|
                    0 <= i < pre_disk.key_storage.live@.len() && pre_disk.key_storage.live@[i]
                        == t.key;
                assert(pre_disk.key_storage.live@[i1].off + pre_disk.key_storage.live@[i1].len
                    <= pre_disk.key_storage.data@.len());
                let i2 = choose|i: int|
                    0 <= i < pre_disk.vector_storage.live@.len() && pre_disk.vector_storage.live@[
                        i] == t.vector;
                assert(pre_disk.vector_storage.live@[i2].off + pre_disk.vector_storage.live@[
                    i2].len <= pre_disk.vector_storage.data@.len());
            }
            assert forall|j: int| 0 <= j < old(self).removed@.len() implies (#[trigger] old(self).removed@[j]).key.off + old(self).removed@[j].key.len
                <= pre_disk.key_storage.data@.len() && old(self).removed@[j].vector.off + old(self).removed@[j].vector.len <= pre_disk.vector_storage.data@.len() by {
                assert(Index::removed_ok(pre_disk, old(self).removed@[j]));
                let t = old(self).removed@[j];
                let i1 = choose|i: int|
                    0 <= i < pre_disk.key_storage.live@.len() && pre_disk.key_storage.live@[i]
                        == t.key;
                assert(pre_disk.key_storage.live@[i1].off + pre_disk.key_storage.live@[i1].len
                    <= pre_disk.key_storage.data@.len());
                let i2 = choose|i: int|
                    0 <= i < pre_disk.vector_storage.live@.len() && pre_disk.vector_storage.live@[
                        i] == t.vector;
                assert(pre_disk.vector_storage.live@[i2].off + pre_disk.vector_storage.live@[
                    i2].len <= pre_disk.vector_storage.data@.len());
            }
            // The new keymap either updates the slot of `key` or appends.
            assert forall|j: int| 0 <= j < km.len() implies km[j] == (key, node) || (okm.contains(
                km[j],
            ) && km[j].1 != node) by {
                if km_has(okm, key@) {
                    let i = choose|i: int|
                        0 <= i < okm.len() && (#[trigger] okm[i]).0@ == key@ && km == okm.update(
                            i,
                            (key, node),
                        );
                    if j != i {
                        assert(km[j] == okm[j]);
                        assert(okm[j].1.key.len >= 1);
                    }
                } else {
                    if j < km.len() - 1 {
                        assert(km[j] == okm[j]);
                        assert(okm[j].1.key.len >= 1);
                    }
                }
            }
            assert forall|j: int| 0 <= j < km.len() implies disk.entry_ok(#[trigger] km[j]) by {
                if km[j] == (key, node) {
                    assert(disk.key_storage.read_spec(kid) == string_rpr(key@));
                    assert(disk.vector_storage.read_spec(vid) == vector_rpr(vector@));
                } else {
                    let i = choose|i: int| 0 <= i < okm.len() && okm[i] == km[j];
                    assert(pre_disk.entry_ok(okm[i]));
                }
            }
            assert(disk.refs_distinct()) by {
                assert forall|a: int, b: int| 0 <= a < b < km.len() implies (
                #[trigger] km[a]).1.key != (#[trigger] km[b]).1.key && km[a].1.vector != km[
                b].1.vector by {
                    if km[a] == (key, node) {
                        let i = choose|i: int| 0 <= i < okm.len() && okm[i] == km[b];
                        assert(okm[i].1.key != kid && okm[i].1.vector != vid);
                    } else if km[b] == (key, node) {
                        let i = choose|i: int| 0 <= i < okm.len() && okm[i] == km[a];
                        assert(okm[i].1.key != kid && okm[i].1.vector != vid);
                    } else {
                        // both come from the old map, where km_wf makes their
                        // positions distinct
                        assert(km_has(okm, key@) ==> km == okm.update(
                            choose|i: int|
                                0 <= i < okm.len() && (#[trigger] okm[i]).0@ == key@ && km
                                    == okm.update(i, (key, node)),
                            (key, node),
                        ));
                        let ia = choose|i: int| 0 <= i < okm.len() && okm[i] == km[a];
                        let ib = choose|i: int| 0 <= i < okm.len() && okm[i] == km[b];
                        assert(pre_disk.refs_distinct());
                        if ia < ib {
                            assert(okm[ia].1.key != okm[ib].1.key);
                        } else if ib < ia {
                            assert(okm[ib].1.key != okm[ia].1.key);
                        } else {
                            assert(km[a] == km[b]);
                            assert(km_wf(km));
                        }
                    }
                }
                assert forall|a: int, b: int|
                    0 <= a < km.len() && 0 <= b < disk.meta.tombstones@.len() implies (
                #[trigger] km[a]).1.key != (#[trigger] disk.meta.tombstones@[b]).key && km[
                a].1.vector != disk.meta.tombstones@[b].vector by {
                    if km[a] == (key, node) {
                        assert(pre_disk.tombstone_ok(pre_disk.meta.tombstones@[b]));
                    } else {
                        let i = choose|i: int| 0 <= i < okm.len() && okm[i] == km[a];
                        assert(pre_disk.refs_distinct());
                    }
                }
            }
            assert forall|j: int| 0 <= j < disk.meta.tombstones@.len() implies disk.tombstone_ok(
                #[trigger] disk.meta.tombstones@[j],
            ) by {
                assert(pre_disk.tombstone_ok(pre_disk.meta.tombstones@[j]));
            }
            assert(disk.wf());
            assert forall|r: int| 0 <= r < old(self).removed@.len() implies Index::removed_ok(
                *disk,
                #[trigger] old(self).removed@[r],
            ) by {
                let n = old(self).removed@[r];
                assert(Index::removed_ok(pre_disk, n));
                assert forall|j: int| 0 <= j < km.len() implies (#[trigger] km[j]).1.key != n.key
                    && km[j].1.vector != n.vector by {
                    if km[j] == (key, node) {
                    } else {
                        let i = choose|i: int| 0 <= i < okm.len() && okm[i] == km[j];
                    }
                }
            }
        }
        proof {
            // the fresh node is in no current layer: any layered node's key
            // segment lies within the data written before this call
            assert(!(old(self).layers_len > 0 && old(self).layers_out@[0].nodes@.contains(
                node,
            ))) by {
                if old(self).layers_len > 0 && old(self).layers_out@[0].nodes@.contains(node) {
                    assert(old(self).layers_out@[0].has_node_spec(node));
                    assert(old(self).layer_keys_bounded(*old(disk)));
                    assert(node.key.off + node.key.len <= old(disk).key_storage.data@.len());
                    assert(false);
                }
            }
        }
        self.seed_layers(node, layer);
        proof {
            let base = if old(self).layers_len > 0 {
                old(self).layers_out@[0].nodes@
            } else {
                Seq::<Node>::empty()
            };
            assert(!base.contains(node));
            assert(self.layers_out@[0].nodes@ == base.push(node));
        }
        node
    }

    /// Grows both stacks to cover `layer` with fresh empty layers and adds
    /// `node` to every layer up to and including `layer`.
    #[verifier::loop_isolation(false)]
    #[verifier::rlimit(60)]
    fn seed_layers(&mut self, node: Node, layer: usize)
        requires
            old(self).wf(),
            old(self).is_writer(),
            layer < usize::MAX,
        ensures
            final(self).wf(),
            final(self).is_writer(),
            final(self).layers_len as int == if (old(self).layers_len as int) < layer + 1 {
                layer + 1
            } else {
                old(self).layers_len as int
            },
            forall|i: int, m: Node|
                0 <= i < final(self).layers_len ==> ((#[trigger] final(self).layers_out@[
                i].has_node_spec(m)) <==> (i < old(self).layers_len && old(self).layers_out@[
                i].has_node_spec(m)) || (i <= layer && m == node)),
            ({
                let base = if old(self).layers_len > 0 {
                    old(self).layers_out@[0].nodes@
                } else {
                    Seq::<Node>::empty()
                };
                final(self).layers_out@[0].nodes@ == if base.contains(node) {
                    base
                } else {
                    base.push(node)
                }
            }),
            forall|i: int|
                0 <= i < old(self).layers_len ==> (#[trigger] final(self).layers_out@[i]).edges@
                    == old(self).layers_out@[i].edges@,
            forall|i: int|
                0 <= i < old(self).layers_len ==> (#[trigger] final(self).layers_in@[i]).edges@
                    == old(self).layers_in@[i].edges@,
            forall|i: int|
                old(self).layers_len <= i < final(self).layers_len ==> (#[trigger] final(self).layers_out@[i]).edges@ == Seq::<Edge>::empty(),
            forall|i: int|
                old(self).layers_len <= i < final(self).layers_len ==> (#[trigger] final(self).layers_in@[i]).edges@ == Seq::<Edge>::empty(),
            final(self).entry_point == old(self).entry_point,
            final(self).time_stamp == old(self).time_stamp,
            final(self).removed@ == old(self).removed@,
    {
        let new_len = if self.layers_len < layer + 1 {
            layer + 1
        } else {
            self.layers_len
        };
        let ghost old_len = self.layers_len as int;
        self.layers_len = new_len;
        while self.layers_out.len() < new_len
            invariant
                self.layers_len == new_len,
                old_len <= self.layers_out@.len() <= new_len,
                self.layers_in@.len() == self.layers_out@.len(),
                forall|k: int|
                    0 <= k < old_len ==> #[trigger] self.layers_out@[k] == old(self).layers_out@[k],
                forall|k: int|
                    0 <= k < old_len ==> #[trigger] self.layers_in@[k] == old(self).layers_in@[k],
                forall|k: int|
                    old_len <= k < self.layers_out@.len() ==> (#[trigger] self.layers_out@[
                    k]).nodes@ == Seq::<Node>::empty() && self.layers_out@[k].edges@ == Seq::<
                        Edge,
                    >::empty(),
                forall|k: int|
                    old_len <= k < self.layers_in@.len() ==> (#[trigger] self.layers_in@[
                    k]).nodes@ == Seq::<Node>::empty() && self.layers_in@[k].edges@ == Seq::<
                        Edge,
                    >::empty(),
                self.time_stamp == old(self).time_stamp,
                self.entry_point == old(self).entry_point,
                self.removed@ == old(self).removed@,
            decreases new_len - self.layers_out@.len(),
        {
            let ghost snap = *self;
            self.layers_out.push(GraphLayer::new());
            self.layers_in.push(GraphLayer::new());
            proof {
                assert(forall|k: int|
                    0 <= k < snap.layers_out@.len() ==> #[trigger] self.layers_out@[k]
                        == snap.layers_out@[k]);
                assert(forall|k: int|
                    0 <= k < snap.layers_in@.len() ==> #[trigger] self.layers_in@[k]
                        == snap.layers_in@[k]);
                assert(self.layers_out@[self.layers_out@.len() - 1].nodes@ == Seq::<
                    Node,
                >::empty());
            }
        }
        let ghost grown_out = self.layers_out@;
        let ghost grown_in = self.layers_in@;
        let mut i: usize = 0;
        while i <= layer
            invariant
                i <= layer + 1,
                layer < new_len,
                self.layers_len == new_len,
                self.layers_out@.len() == new_len,
                self.layers_in@.len() == new_len,
                forall|k: int| i <= k < new_len ==> #[trigger] self.layers_out@[k] == grown_out[k],
                forall|k: int| i <= k < new_len ==> #[trigger] self.layers_in@[k] == grown_in[k],
                forall|k: int| 0 <= k < i ==> (#[trigger] self.layers_out@[k]).wf(),
                forall|k: int| 0 <= k < i ==> (#[trigger] self.layers_in@[k]).wf(),
                forall|k: int|
                    0 <= k < i ==> (#[trigger] self.layers_out@[k]).edges@ == grown_out[k].edges@,
                forall|k: int|
                    0 <= k < i ==> (#[trigger] self.layers_in@[k]).edges@ == grown_in[k].edges@,
                forall|k: int|
                    0 <= k < i ==> (#[trigger] self.layers_out@[k]).nodes@ == self.layers_in@[
                    k].nodes@,
                forall|k: int, m: Node|
                    0 <= k < i ==> ((#[trigger] self.layers_out@[k].has_node_spec(m)) <==> grown_out[k].has_node_spec(m) || m == node),
                i > 0 ==> self.layers_out@[0].nodes@ == (if grown_out[0].nodes@.contains(node) {
                    grown_out[0].nodes@
                } else {
                    grown_out[0].nodes@.push(node)
                }),
                grown_out[0].nodes@ == (if old(self).layers_len > 0 {
                    old(self).layers_out@[0].nodes@
                } else {
                    Seq::<Node>::empty()
                }),
                self.time_stamp == old(self).time_stamp,
                self.entry_point == old(self).entry_point,
                self.removed@ == old(self).removed@,
            decreases layer + 1 - i,
        {
            let ghost snap = *self;
            let mut lo = self.layers_out.remove(i);
            lo.add_node(node);
            self.layers_out.insert(i, lo);
            proof {
                assert(self.layers_out@ =~= snap.layers_out@.update(i as int, self.layers_out@[
                    i as int]));
            }
            let mut li = self.layers_in.remove(i);
            li.add_node(node);
            self.layers_in.insert(i, li);
            proof {
                assert(self.layers_in@ =~= snap.layers_in@.update(i as int, self.layers_in@[
                    i as int]));
                assert(grown_out[i as int].nodes@ == grown_in[i as int].nodes@) by {
                    if i < old_len {
                        assert(stacks_transposed(old(self).layers_out@, old(self).layers_in@));
                        assert(transposed(old(self).layers_out@[i as int], old(self).layers_in@[
                            i as int]));
                    }
                }
                assert forall|k: int|
                    i + 1 <= k < new_len implies #[trigger] self.layers_out@[k] == grown_out[k] by {
                    assert(self.layers_out@[k] == snap.layers_out@[k]);
                }
                assert forall|k: int|
                    i + 1 <= k < new_len implies #[trigger] self.layers_in@[k] == grown_in[k] by {
                    assert(self.layers_in@[k] == snap.layers_in@[k]);
                }
            }
            i += 1;
        }
        proof {
            let fin = *self;
            assert forall|q: int|
                0 <= q < old_len implies (#[trigger] self.layers_out@[q]).edges@ == old(self).layers_out@[q].edges@ by {
                assert(grown_out[q] == old(self).layers_out@[q]);
                if q <= layer {
                    assert(self.layers_out@[q].edges@ == grown_out[q].edges@);
                } else {
                    assert(self.layers_out@[q] == grown_out[q]);
                }
            }
            assert forall|q: int|
                0 <= q < old_len implies (#[trigger] self.layers_in@[q]).edges@ == old(self).layers_in@[q].edges@ by {
                assert(grown_in[q] == old(self).layers_in@[q]);
                if q <= layer {
                    assert(self.layers_in@[q].edges@ == grown_in[q].edges@);
                } else {
                    assert(self.layers_in@[q] == grown_in[q]);
                }
            }
            assert forall|q: int|
                old_len <= q < new_len implies (#[trigger] self.layers_out@[q]).edges@ == Seq::<
                Edge,
            >::empty() by {
                assert(grown_out[q].edges@ == Seq::<Edge>::empty());
                if q <= layer {
                    assert(self.layers_out@[q].edges@ == grown_out[q].edges@);
                } else {
                    assert(self.layers_out@[q] == grown_out[q]);
                }
            }
            assert forall|q: int|
                old_len <= q < new_len implies (#[trigger] self.layers_in@[q]).edges@ == Seq::<
                Edge,
            >::empty() by {
                assert(grown_in[q].edges@ == Seq::<Edge>::empty());
                if q <= layer {
                    assert(self.layers_in@[q].edges@ == grown_in[q].edges@);
                } else {
                    assert(self.layers_in@[q] == grown_in[q]);
                }
            }
            assert(fin.wf()) by {
                assert(stack_wf(fin.layers_out@) && stack_wf(fin.layers_in@)) by {
                    assert forall|k: int| 0 <= k < fin.layers_out@.len() implies (
                    #[trigger] fin.layers_out@[k]).wf() by {
                        if k > layer {
                            assert(fin.layers_out@[k] == grown_out[k]);
                            assert(fin.layers_in@[k] == grown_in[k]);
                            if k < old_len {
                                assert(grown_out[k] == old(self).layers_out@[k]);
                                assert(grown_in[k] == old(self).layers_in@[k]);
                                assert(old(self).layers_out@[k].wf());
                                assert(old(self).layers_in@[k].wf());
                            } else {
                                assert(grown_out[k].nodes@ == Seq::<Node>::empty());
                                assert(grown_out[k].edges@ == Seq::<Edge>::empty());
                                assert(crate::graph_layer::nodes_wf(grown_out[k].nodes@));
                                assert(crate::graph_layer::edges_wf(grown_out[k].edges@));
                                assert(crate::graph_layer::nodes_wf(grown_in[k].nodes@));
                                assert(crate::graph_layer::edges_wf(grown_in[k].edges@));
                            }
                        } else {
                            assert(fin.layers_out@[k].wf());
                            assert(fin.layers_in@[k].wf());
                        }
                    }
                    assert forall|k: int| 0 <= k < fin.layers_in@.len() implies (
                    #[trigger] fin.layers_in@[k]).wf() by {
                        if k > layer {
                            assert(fin.layers_out@[k] == grown_out[k]);
                            assert(fin.layers_in@[k] == grown_in[k]);
                            if k < old_len {
                                assert(grown_out[k] == old(self).layers_out@[k]);
                                assert(grown_in[k] == old(self).layers_in@[k]);
                                assert(old(self).layers_out@[k].wf());
                                assert(old(self).layers_in@[k].wf());
                            } else {
                                assert(grown_out[k].nodes@ == Seq::<Node>::empty());
                                assert(grown_out[k].edges@ == Seq::<Edge>::empty());
                                assert(crate::graph_layer::nodes_wf(grown_out[k].nodes@));
                                assert(crate::graph_layer::edges_wf(grown_out[k].edges@));
                                assert(crate::graph_layer::nodes_wf(grown_in[k].nodes@));
                                assert(crate::graph_layer::edges_wf(grown_in[k].edges@));
                            }
                        } else {
                            assert(fin.layers_out@[k].wf());
                            assert(fin.layers_in@[k].wf());
                        }
                    }
                }
                assert(prefix_closed(fin.layers_out@)) by {
                    assert forall|k: int, m: Node|
                        1 <= k < fin.layers_out@.len() && (#[trigger] fin.layers_out@[
                        k].has_node_spec(m)) implies fin.layers_out@[k - 1].has_node_spec(m) by {
                        if k <= layer {
                            if m != node {
                                assert(grown_out[k].has_node_spec(m));
                                if k < old_len {
                                    assert(old(self).layers_out@[k].has_node_spec(m));
                                    assert(old(self).layers_out@[k - 1].has_node_spec(m));
                                    assert(grown_out[k - 1].has_node_spec(m));
                                }
                            }
                        } else {
                            assert(fin.layers_out@[k] == grown_out[k]);
                            if grown_out[k].nodes@ =~= Seq::<Node>::empty() {
                            }
                            if k < old_len {
                                assert(old(self).layers_out@[k].has_node_spec(m));
                                assert(old(self).layers_out@[k - 1].has_node_spec(m));
                                if k - 1 <= layer {
                                    assert(grown_out[k - 1].has_node_spec(m));
                                } else {
                                    assert(fin.layers_out@[k - 1] == grown_out[k - 1]);
                                }
                            } else {
                                assert(grown_out[k].nodes@ == Seq::<Node>::empty());
                                assert(!grown_out[k].has_node_spec(m));
                            }
                        }
                    }
                }
                assert(stacks_transposed(fin.layers_out@, fin.layers_in@)) by {
                    assert forall|k: int| 0 <= k < fin.layers_out@.len() implies transposed(
                        #[trigger] fin.layers_out@[k],
                        #[trigger] fin.layers_in@[k],
                    ) by {
                        let a = fin.layers_out@[k];
                        let b = fin.layers_in@[k];
                        let oa = grown_out[k];
                        let ob = grown_in[k];
                        if k < old_len {
                            assert(oa == old(self).layers_out@[k]);
                            assert(ob == old(self).layers_in@[k]);
                            assert(transposed(oa, ob));
                        } else {
                            assert(oa.edges@ == Seq::<Edge>::empty());
                            assert(ob.edges@ == Seq::<Edge>::empty());
                            assert(oa.nodes@ == ob.nodes@);
                            assert(forall|u: Node, v: Node| !(#[trigger] oa.has_edge(u, v)));
                            assert(forall|u: Node, v: Node| !(#[trigger] ob.has_edge(u, v)));
                            assert(transposed(oa, ob));
                        }
                        if k <= layer {
                            assert(a.edges@ == oa.edges@ && b.edges@ == ob.edges@);
                            layers_empty_or_old_edges(a, b, oa, ob);
                            assert(a.nodes@ == b.nodes@);
                            assert forall|u: Node, v: Node| #[trigger] a.has_edge(u, v) implies b
                                .edge_at(v, u) == (Edge {
                                from: v,
                                to: u,
                                dist: a.edge_at(u, v).dist,
                            }) by {
                                assert(oa.has_edge(u, v));
                                assert(ob.edge_at(v, u) == (Edge {
                                    from: v,
                                    to: u,
                                    dist: oa.edge_at(u, v).dist,
                                }));
                                assert(a.edge_at(u, v) == oa.edge_at(u, v));
                                assert(b.edge_at(v, u) == ob.edge_at(v, u));
                            }
                        } else {
                            assert(a == oa && b == ob);
                        }
                    }
                }
            }
        }
    }
}

/// Transposition carries over between layers whose edge lists were left
/// untouched.
proof fn layers_empty_or_old_edges(a: GraphLayer, b: GraphLayer, oa: GraphLayer, ob: GraphLayer)
    requires
        a.edges@ == oa.edges@,
        b.edges@ == ob.edges@,
        forall|u: Node, v: Node| #[trigger] oa.has_edge(u, v) <==> ob.has_edge(v, u),
    ensures
        forall|u: Node, v: Node| #[trigger] a.has_edge(u, v) <==> b.has_edge(v, u),
        forall|u: Node, v: Node| #[trigger] a.edge_at(u, v) == oa.edge_at(u, v),
        forall|u: Node, v: Node| #[trigger] b.edge_at(u, v) == ob.edge_at(u, v),
{
    assert forall|u: Node, v: Node| #[trigger] a.has_edge(u, v) implies oa.has_edge(u, v) by {
        let i = choose|i: int|
            0 <= i < a.edges@.len() && (#[trigger] a.edges@[i]).from == u && a.edges@[i].to == v;
        assert(oa.edges@[i].from == u && oa.edges@[i].to == v);
    }
    assert forall|u: Node, v: Node| #[trigger] oa.has_edge(u, v) implies a.has_edge(u, v) by {
        let i = choose|i: int|
            0 <= i < oa.edges@.len() && (#[trigger] oa.edges@[i]).from == u && oa.edges@[i].to
                == v;
        assert(a.edges@[i].from == u && a.edges@[i].to == v);
    }
    assert forall|u: Node, v: Node| #[trigger] b.has_edge(u, v) implies ob.has_edge(u, v) by {
        let i = choose|i: int|
            0 <= i < b.edges@.len() && (#[trigger] b.edges@[i]).from == u && b.edges@[i].to == v;
        assert(ob.edges@[i].from == u && ob.edges@[i].to == v);
    }
    assert forall|u: Node, v: Node| #[trigger] ob.has_edge(u, v) implies b.has_edge(u, v) by {
        let i = choose|i: int|
            0 <= i < ob.edges@.len() && (#[trigger] ob.edges@[i]).from == u && ob.edges@[i].to
                == v;
        assert(b.edges@[i].from == u && b.edges@[i].to == v);
    }
    assert forall|u: Node, v: Node| #[trigger] a.has_edge(u, v) <==> b.has_edge(v, u) by {
        assert(a.has_edge(u, v) <==> oa.has_edge(u, v));
        assert(b.has_edge(v, u) <==> ob.has_edge(v, u));
        assert(oa.has_edge(u, v) <==> ob.has_edge(v, u));
    }
}

impl Index {
    /// Removes `x` from every layer of both stacks, recomputes the entry
    /// point from the highest layer left non-empty, and truncates the
    /// stacks tight.
    #[verifier::loop_isolation(false)]
    #[verifier::rlimit(80)]
    fn drop_from_layers(&mut self, x: Node)
        requires
            old(self).wf(),
            old(self).is_writer(),
            old(self).layers_len > 0,
        ensures
            final(self).wf(),
            final(self).is_writer(),
            final(self).layers_len <= old(self).layers_len,
            forall|i: int|
                0 <= i < final(self).layers_len ==> node_removed(
                    old(self).layers_out@[i],
                    #[trigger] final(self).layers_out@[i],
                    x,
                ),
            forall|i: int|
                0 <= i < final(self).layers_len ==> node_removed(
                    old(self).layers_in@[i],
                    #[trigger] final(self).layers_in@[i],
                    x,
                ),
            forall|i: int|
                0 <= i < final(self).layers_len ==> !(#[trigger] final(self).layers_out@[
                i]).has_node_spec(x),
            forall|i: int|
                final(self).layers_len <= i < old(self).layers_len ==> keep(
                    (#[trigger] old(self).layers_out@[i]).nodes@,
                    not_node(x),
                ).len() == 0,
            final(self).entry_point is None ==> final(self).layers_len == 0,
            final(self).entry_point matches Some(ep) ==> ep.layer + 1 == final(self).layers_len
                && final(self).layers_out@[ep.layer as int].has_node_spec(ep.node),
            final(self).layers_len > 0 ==> final(self).layers_out@[final(self).layers_len - 1].nodes@.len() > 0,
            final(self).time_stamp == old(self).time_stamp,
            final(self).removed@ == old(self).removed@,
    {
        let ghost pre = *self;
        let mut max_layer: usize = 0;
        let mut layer: usize = 0;
        while layer < self.layers_len
            invariant
                layer <= self.layers_len,
                self.layers_len == pre.layers_len,
                self.layers_out@.len() == self.layers_len,
                self.layers_in@.len() == self.layers_len,
                forall|k: int|
                    0 <= k < layer ==> node_removed(
                        pre.layers_out@[k],
                        #[trigger] self.layers_out@[k],
                        x,
                    ),
                forall|k: int|
                    0 <= k < layer ==> node_removed(
                        pre.layers_in@[k],
                        #[trigger] self.layers_in@[k],
                        x,
                    ),
                forall|k: int| 0 <= k < layer ==> (#[trigger] self.layers_out@[k]).wf(),
                forall|k: int| 0 <= k < layer ==> (#[trigger] self.layers_in@[k]).wf(),
                forall|k: int|
                    layer <= k < self.layers_len ==> #[trigger] self.layers_out@[k]
                        == pre.layers_out@[k],
                forall|k: int|
                    layer <= k < self.layers_len ==> #[trigger] self.layers_in@[k]
                        == pre.layers_in@[k],
                layer == 0 ==> max_layer == 0,
                layer > 0 ==> max_layer < layer,
                max_layer > 0 ==> self.layers_out@[max_layer as int].nodes@.len() > 0,
                layer > 0 && self.layers_out@[0].nodes@.len() > 0 && max_layer == 0 ==> true,
                forall|k: int|
                    max_layer < k < layer ==> (#[trigger] self.layers_out@[k]).nodes@.len() == 0,
                max_layer == 0 && layer > 0 && self.layers_out@[0].nodes@.len() == 0 ==> (forall|
                    k: int,
                |
                    0 <= k < layer ==> (#[trigger] self.layers_out@[k]).nodes@.len() == 0),
                self.time_stamp == pre.time_stamp,
                self.entry_point == pre.entry_point,
                self.removed@ == pre.removed@,
            decreases self.layers_len - layer,
        {
            let ghost snap = *self;
            let mut lo = self.layers_out.remove(layer);
            lo.remove_node(x);
            self.layers_out.insert(layer, lo);
            proof {
                assert(self.layers_out@ =~= snap.layers_out@.update(
                    layer as int,
                    self.layers_out@[layer as int],
                ));
            }
            let mut li = self.layers_in.remove(layer);
            li.remove_node(x);
            self.layers_in.insert(layer, li);
            proof {
                assert(self.layers_in@ =~= snap.layers_in@.update(
                    layer as int,
                    self.layers_in@[layer as int],
                ));
                assert forall|k: int|
                    layer + 1 <= k < self.layers_len implies #[trigger] self.layers_out@[k]
                        == pre.layers_out@[k] by {
                    assert(self.layers_out@[k] == snap.layers_out@[k]);
                }
                assert forall|k: int|
                    layer + 1 <= k < self.layers_len implies #[trigger] self.layers_in@[k]
                        == pre.layers_in@[k] by {
                    assert(self.layers_in@[k] == snap.layers_in@[k]);
                }
            }
            if !self.layers_out[layer].is_empty() {
                max_layer = layer;
            }
            layer += 1;
        }
        let ghost full = *self;
        let new_entry = self.layers_out[max_layer].some_node();
        match new_entry {
            Some(node) => {
                self.entry_point = Some(EntryPoint { node, layer: max_layer as u64 });
                let new_len = max_layer + 1;
                self.layers_len = new_len;
                self.layers_out.truncate(new_len);
                self.layers_in.truncate(new_len);
            },
            None => {
                proof {
                    // the fallback layer is empty, so every layer is: either
                    // `max_layer` was never promoted past an empty bottom, or
                    // it points at the last non-empty layer, contradiction
                    if max_layer > 0 {
                        assert(self.layers_out@[max_layer as int].nodes@.len() > 0);
                    }
                    assert(forall|k: int|
                        0 <= k < pre.layers_len ==> (#[trigger] self.layers_out@[k]).nodes@.len()
                            == 0);
                }
                self.entry_point = None;
                self.layers_len = 0;
                self.layers_out.truncate(0);
                self.layers_in.truncate(0);
            },
        }
        proof {
            assert(self.layers_out@.len() == self.layers_len);
            assert(self.layers_in@.len() == self.layers_len);
            assert forall|i: int|
                0 <= i < self.layers_len implies node_removed(
                pre.layers_out@[i],
                #[trigger] self.layers_out@[i],
                x,
            ) && self.layers_out@[i].wf() by {}
            assert forall|i: int|
                0 <= i < self.layers_len implies node_removed(
                pre.layers_in@[i],
                #[trigger] self.layers_in@[i],
                x,
            ) && self.layers_in@[i].wf() by {}
            assert forall|i: int|
                0 <= i < self.layers_len implies !(#[trigger] self.layers_out@[
                i]).has_node_spec(x) by {
                crate::graph_layer::lemma_node_removed_membership(
                    pre.layers_out@[i],
                    self.layers_out@[i],
                    x,
                );
            }
            assert forall|i: int|
                self.layers_len <= i < pre.layers_len implies keep(
                (#[trigger] pre.layers_out@[i]).nodes@,
                not_node(x),
            ).len() == 0 by {
                // every layer above the new top came out of the removal empty
                assert(node_removed(pre.layers_out@[i], full.layers_out@[i], x));
                if self.layers_len > 0 {
                    assert(i > max_layer as int);
                    assert(full.layers_out@[i].nodes@.len() == 0);
                } else {
                    assert(full.layers_out@[i].nodes@.len() == 0);
                }
            }
            assert(prefix_closed(self.layers_out@)) by {
                assert forall|i: int, n: Node|
                    1 <= i < self.layers_out@.len() && (#[trigger] self.layers_out@[
                    i].has_node_spec(n)) implies self.layers_out@[i - 1].has_node_spec(n) by {
                    crate::graph_layer::lemma_node_removed_membership(
                        pre.layers_out@[i],
                        self.layers_out@[i],
                        x,
                    );
                    crate::graph_layer::lemma_node_removed_membership(
                        pre.layers_out@[i - 1],
                        self.layers_out@[i - 1],
                        x,
                    );
                    assert(pre.layers_out@[i].has_node_spec(n));
                    assert(pre.layers_out@[i - 1].has_node_spec(n));
                }
            }
            assert(stacks_transposed(self.layers_out@, self.layers_in@)) by {
                assert forall|i: int| 0 <= i < self.layers_out@.len() implies transposed(
                    #[trigger] self.layers_out@[i],
                    #[trigger] self.layers_in@[i],
                ) by {
                    assert(transposed(pre.layers_out@[i], pre.layers_in@[i]));
                    crate::graph_layer::lemma_node_removed_transposed(
                        pre.layers_out@[i],
                        pre.layers_in@[i],
                        self.layers_out@[i],
                        self.layers_in@[i],
                        x,
                    );
                }
            }
        }
    }
}

/// Some erased node's key segment stores exactly the characters `k`.
pub open spec fn removed_key(disk: Disk, removed: Seq<Node>, k: Seq<char>) -> bool {
    exists|i: int| 0 <= i < removed.len() && node_key_chars(disk, #[trigger] removed[i]) == k
}

impl Index {
    /// Erases a node: removes it from every layer in both directions,
    /// recomputes the entry point and truncates the stacks, removes its
    /// key→node binding, and queues it for reclamation at the next commit.
    /// Its segments are not freed here.
    #[verifier::rlimit(60)]
    pub fn erase(&mut self, disk: &mut Disk, x: Node)
        requires
            old(self).wf(),
            old(self).is_writer(),
            old(self).layers_len > 0,
            old(disk).wf(),
            old(self).coupled(*old(disk)),
            exists|j: int|
                0 <= j < old(disk).meta.keymap@.len() && (#[trigger] old(disk).meta.keymap@[j]).1
                    == x,
        ensures
            final(self).wf(),
            final(self).is_writer(),
            final(disk).wf(),
            final(self).coupled(*final(disk)),
            final(self).removed@ == old(self).removed@.push(x),
            final(self).time_stamp == old(self).time_stamp,
            final(self).layers_len <= old(self).layers_len,
            forall|i: int|
                0 <= i < final(self).layers_len ==> node_removed(
                    old(self).layers_out@[i],
                    #[trigger] final(self).layers_out@[i],
                    x,
                ),
            forall|i: int|
                0 <= i < final(self).layers_len ==> node_removed(
                    old(self).layers_in@[i],
                    #[trigger] final(self).layers_in@[i],
                    x,
                ),
            forall|i: int|
                0 <= i < final(self).layers_len ==> !(#[trigger] final(self).layers_out@[
                i]).has_node_spec(x),
            forall|i: int|
                final(self).layers_len <= i < old(self).layers_len ==> keep(
                    (#[trigger] old(self).layers_out@[i]).nodes@,
                    not_node(x),
                ).len() == 0,
            final(self).entry_point is None ==> final(self).layers_len == 0,
            final(self).entry_point matches Some(ep) ==> ep.layer + 1 == final(self).layers_len
                && final(self).layers_out@[ep.layer as int].has_node_spec(ep.node),
            final(self).layers_len > 0 ==> final(self).layers_out@[final(self).layers_len - 1].nodes@.len() > 0,
            final(disk).meta.keymap@ == keep(
                old(disk).meta.keymap@,
                crate::meta::node_not(x),
            ),
            final(disk).key_storage == old(disk).key_storage,
            final(disk).vector_storage == old(disk).vector_storage,
            final(disk).meta.same_labels(old(disk).meta),
            final(disk).meta.same_layers(old(disk).meta),
            final(disk).meta.log == old(disk).meta.log,
            final(disk).meta.tombstones@ == old(disk).meta.tombstones@,
    {
        self.drop_from_layers(x);
        let ghost j0 = choose|j: int|
            0 <= j < disk.meta.keymap@.len() && (#[trigger] disk.meta.keymap@[j]).1 == x;
        proof {
            assert(disk.entry_ok(disk.meta.keymap@[j0]));
        }
        let raw = disk.key_storage.read(x.key);
        let id = match decode_string(&raw) {
            Some(s) => s,
            None => {
                proof {
                    assert(false);
                }
                vstd::pervasive::unreached()
            },
        };
        proof {
            // the decoded characters are exactly the registered key of `x`
            let e = disk.meta.keymap@[j0];
            assert(string_rpr(id@) == disk.key_storage.read_spec(x.key));
            assert(string_rpr(id@) == string_rpr(e.0@));
            assert(vstd::utf8::encode_utf8(id@).len() <= u64::MAX) by {
                assert(string_rpr(id@).len() == raw@.len());
                assert(raw@.len() <= usize::MAX);
            }
            crate::codec::lemma_string_codec_round_trip(id@);
            assert(id@ == e.0@);
        }
        let ghost pre_disk = *disk;
        disk.meta.remove_vector(id.as_str());
        self.removed.push(x);
        proof {
            let okm = pre_disk.meta.keymap@;
            // removing by key and removing by node agree, entry by entry
            assert forall|q: int| 0 <= q < okm.len() implies (crate::meta::key_not(id@)(
                #[trigger] okm[q],
            ) <==> crate::meta::node_not(x)(okm[q])) by {
                let e = okm[q];
                if e.1 == x {
                    assert(pre_disk.entry_ok(e));
                    assert(string_rpr(e.0@) == pre_disk.key_storage.read_spec(x.key));
                    crate::codec::lemma_string_codec_round_trip(id@);
                    assert(e.0@ == id@);
                }
                if e.0@ == id@ {
                    if q != j0 {
                        assert(okm[j0].0@ == id@);
                        assert(km_wf(okm));
                    }
                }
            }
            crate::util::lemma_keep_congruent(okm, crate::meta::key_not(id@), crate::meta::node_not(x));
            crate::disk::lemma_records_ok_after_keymap_filter(
                pre_disk,
                *disk,
                crate::meta::node_not(x),
            );
            assert(disk.stored_graph_ok());
            // the erased node joins the batch with everything a commit needs
            crate::util::lemma_keep_elements(okm, crate::meta::node_not(x));
            assert forall|r: int| 0 <= r < self.removed@.len() implies Index::removed_ok(
                *disk,
                #[trigger] self.removed@[r],
            ) by {
                let n = self.removed@[r];
                if r < self.removed@.len() - 1 {
                    assert(Index::removed_ok(pre_disk, n));
                    assert forall|j: int| 0 <= j < disk.meta.keymap@.len() implies (
                    #[trigger] disk.meta.keymap@[j]).1.key != n.key && disk.meta.keymap@[
                    j].1.vector != n.vector by {
                        let m = choose|m: int|
                            0 <= m < okm.len() && okm[m] == disk.meta.keymap@[j];
                        assert(okm[m].1.key != n.key && okm[m].1.vector != n.vector);
                    }
                } else {
                    assert(n == x);
                    let e = okm[j0];
                    assert(pre_disk.entry_ok(e));
                    assert(string_rpr_ok(disk.key_storage.read_spec(x.key)));
                    assert(disk.key_storage.read_spec(x.key).len() == x.key.len) by {
                        let i1 = choose|i: int|
                            0 <= i < pre_disk.key_storage.live@.len()
                                && pre_disk.key_storage.live@[i] == x.key;
                        assert(pre_disk.key_storage.live@[i1].off
                            + pre_disk.key_storage.live@[i1].len
                            <= pre_disk.key_storage.data@.len());
                    }
                    assert(x.key.len >= 8);
                    assert(disk.vector_storage.read_spec(x.vector).len() == x.vector.len) by {
                        let i2 = choose|i: int|
                            0 <= i < pre_disk.vector_storage.live@.len()
                                && pre_disk.vector_storage.live@[i] == x.vector;
                        assert(pre_disk.vector_storage.live@[i2].off
                            + pre_disk.vector_storage.live@[i2].len
                            <= pre_disk.vector_storage.data@.len());
                    }
                    assert(x.vector.len >= 4) by {
                        assert(vector_rpr_ok(pre_disk.vector_storage.read_spec(x.vector)));
                    }
                    assert forall|j: int| 0 <= j < disk.meta.keymap@.len() implies (
                    #[trigger] disk.meta.keymap@[j]).1.key != n.key && disk.meta.keymap@[
                    j].1.vector != n.vector by {
                        let m = choose|m: int|
                            0 <= m < okm.len() && okm[m] == disk.meta.keymap@[j];
                        assert(crate::meta::node_not(x)(okm[m]));
                        if m != j0 {
                            assert(pre_disk.refs_distinct());
                            assert(okm[m].1.key != okm[j0].1.key && okm[m].1.vector != okm[
                                j0].1.vector);
                        }
                    }
                    assert forall|j: int| 0 <= j < disk.meta.tombstones@.len() implies (
                    #[trigger] disk.meta.tombstones@[j]).key != n.key && disk.meta.tombstones@[
                    j].vector != n.vector by {
                        assert(pre_disk.refs_distinct());
                        assert(okm[j0].1.key != pre_disk.meta.tombstones@[j].key && okm[
                            j0].1.vector != pre_disk.meta.tombstones@[j].vector);
                    }
                }
            }
            assert(self.layer_keys_bounded(*disk)) by {
                assert forall|i: int, n: Node|
                    0 <= i < self.layers_out@.len() && (#[trigger] self.layers_out@[
                    i].has_node_spec(n)) implies n.key.off + n.key.len
                    <= disk.key_storage.data@.len() && n.key.len >= 1 by {
                    crate::graph_layer::lemma_node_removed_membership(
                        old(self).layers_out@[i],
                        self.layers_out@[i],
                        x,
                    );
                    assert(old(self).layers_out@[i].has_node_spec(n));
                }
            }
        }
    }
}

impl Index {
    /// Publishes the batched layer state: writes both stacks and a fresh
    /// log carrying this handle's version, sweeps the drained erase batch
    /// out of the key→node map, records it as tombstones, and advances the
    /// handle to the next version.  The persisted version number strictly
    /// increases.
    #[verifier::loop_isolation(false)]
    #[verifier::rlimit(80)]
    pub fn commit(&mut self, disk: &mut Disk)
        requires
            old(self).wf(),
            old(self).is_writer(),
            old(disk).wf(),
            old(self).coupled(*old(disk)),
            old(self).time_stamp < u128::MAX,
            old(disk).meta.log.version_number < old(self).time_stamp,
        ensures
            final(self).wf(),
            final(self).is_writer(),
            final(disk).wf(),
            final(self).coupled(*final(disk)),
            final(self).time_stamp == old(self).time_stamp + 1,
            final(self).removed@ == Seq::<Node>::empty(),
            final(self).layers_out@ == old(self).layers_out@,
            final(self).layers_in@ == old(self).layers_in@,
            final(self).layers_len == old(self).layers_len,
            final(self).entry_point == old(self).entry_point,
            final(disk).meta.log == (GraphLog {
                entry_point: old(self).entry_point,
                max_layer: old(self).layers_len as u64,
                version_number: old(self).time_stamp,
            }),
            final(disk).meta.log.version_number > old(disk).meta.log.version_number,
            final(disk).meta.tombstones@ == old(disk).meta.tombstones@ + old(self).removed@,
            forall|i: int|
                0 <= i < old(self).layers_len ==> layer_eq(
                    #[trigger] final(disk).meta.layers_out@[i],
                    old(self).layers_out@[i],
                ),
            forall|i: int|
                0 <= i < old(self).layers_len ==> layer_eq(
                    #[trigger] final(disk).meta.layers_in@[i],
                    old(self).layers_in@[i],
                ),
            forall|k: Seq<char>|
                #[trigger] km_has(final(disk).meta.keymap@, k) <==> km_has(
                    old(disk).meta.keymap@,
                    k,
                ) && !removed_key(*old(disk), old(self).removed@, k),
            forall|k: Seq<char>|
                #[trigger] km_has(final(disk).meta.keymap@, k) ==> km_at(
                    final(disk).meta.keymap@,
                    k,
                ) == km_at(old(disk).meta.keymap@, k),
            final(disk).key_storage == old(disk).key_storage,
            final(disk).vector_storage == old(disk).vector_storage,
            final(disk).meta.same_labels(old(disk).meta),
    {
        let log = GraphLog {
            entry_point: self.entry_point,
            max_layer: self.layers_len as u64,
            version_number: self.time_stamp,
        };
        let mut deleted: Vec<Node> = Vec::new();
        let mut d: usize = 0;
        while d < self.removed.len()
            invariant
                d <= self.removed@.len(),
                deleted@ == self.removed@.take(d as int),
                *self == *old(self),
                *disk == *old(disk),
            decreases self.removed@.len() - d,
        {
            deleted.push(self.removed[d]);
            d += 1;
        }
        proof {
            assert(deleted@ =~= self.removed@);
        }
        self.removed = Vec::new();
        self.time_stamp = self.time_stamp + 1;
        let mut i: usize = 0;
        while i < self.layers_len
            invariant
                i <= self.layers_len,
                self.layers_len == old(self).layers_len,
                self.layers_out@ == old(self).layers_out@,
                self.layers_in@ == old(self).layers_in@,
                self.entry_point == old(self).entry_point,
                self.time_stamp == old(self).time_stamp + 1,
                self.removed@ == Seq::<Node>::empty(),
                disk.key_storage == old(disk).key_storage,
                disk.vector_storage == old(disk).vector_storage,
                disk.meta.keymap@ == old(disk).meta.keymap@,
                disk.meta.same_labels(old(disk).meta),
                disk.meta.tombstones@ == old(disk).meta.tombstones@,
                disk.meta.log == old(disk).meta.log,
                disk.meta.layers_out@.len() >= i,
                disk.meta.layers_in@.len() >= i,
                forall|k: int|
                    0 <= k < i ==> layer_eq(
                        #[trigger] disk.meta.layers_out@[k],
                        old(self).layers_out@[k],
                    ),
                forall|k: int|
                    0 <= k < i ==> layer_eq(
                        #[trigger] disk.meta.layers_in@[k],
                        old(self).layers_in@[k],
                    ),
            decreases self.layers_len - i,
        {
            let layer_out = self.layers_out[i].clone();
            let layer_in = self.layers_in[i].clone();
            disk.meta.insert_layer_out(i, layer_out);
            disk.meta.insert_layer_in(i, layer_in);
            i += 1;
        }
        let ghost mid_disk = *disk;
        let ghost kr = |e: (String, Node)|
            !crate::index::removed_key(*old(disk), deleted@, e.0@);
        let mut j: usize = 0;
        while j < deleted.len()
            invariant
                j <= deleted@.len(),
                deleted@ == old(self).removed@,
                disk.key_storage == old(disk).key_storage,
                disk.vector_storage == old(disk).vector_storage,
                disk.meta.same_labels(old(disk).meta),
                disk.meta.tombstones@ == old(disk).meta.tombstones@,
                disk.meta.log == old(disk).meta.log,
                disk.meta.layers_out@ == mid_disk.meta.layers_out@,
                disk.meta.layers_in@ == mid_disk.meta.layers_in@,
                disk.records_ok(),
                forall|k: Seq<char>|
                    #[trigger] km_has(disk.meta.keymap@, k) <==> km_has(old(disk).meta.keymap@, k)
                        && !removed_key(*old(disk), deleted@.take(j as int), k),
                forall|k: Seq<char>|
                    #[trigger] km_has(disk.meta.keymap@, k) ==> km_at(disk.meta.keymap@, k)
                        == km_at(old(disk).meta.keymap@, k),
            decreases deleted@.len() - j,
        {
            let node = deleted[j];
            proof {
                assert(Index::removed_ok(*old(disk), node));
            }
            let raw = disk.key_storage.read(node.key);
            let id = match decode_string(&raw) {
                Some(s) => s,
                None => {
                    proof {
                        assert(false);
                    }
                    vstd::pervasive::unreached()
                },
            };
            proof {
                assert(string_rpr(id@) == disk.key_storage.read_spec(node.key));
                assert(string_rpr(id@).skip(8) =~= vstd::utf8::encode_utf8(id@));
                vstd::utf8::encode_utf8_decode_utf8(id@);
                assert(id@ == node_key_chars(*old(disk), node));
            }
            let ghost step_disk = *disk;
            disk.meta.remove_vector(id.as_str());
            proof {
                crate::disk::lemma_records_ok_after_keymap_filter(
                    step_disk,
                    *disk,
                    crate::meta::key_not(id@),
                );
                assert forall|k: Seq<char>| #[trigger]
                    km_has(disk.meta.keymap@, k) <==> km_has(old(disk).meta.keymap@, k)
                        && !removed_key(*old(disk), deleted@.take(j + 1), k) by {
                    assert(deleted@.take(j + 1).drop_last() =~= deleted@.take(j as int));
                    assert(deleted@.take(j + 1)[j as int] == deleted@[j as int]);
                    if km_has(disk.meta.keymap@, k) {
                        assert(k != id@);
                        assert(km_has(step_disk.meta.keymap@, k));
                        assert(!removed_key(*old(disk), deleted@.take(j as int), k));
                        if removed_key(*old(disk), deleted@.take(j + 1), k) {
                            let w = choose|w: int|
                                0 <= w < deleted@.take(j + 1).len() && node_key_chars(
                                    *old(disk),
                                    #[trigger] deleted@.take(j + 1)[w],
                                ) == k;
                            if w < j {
                                assert(deleted@.take(j as int)[w] == deleted@.take(j + 1)[w]);
                                assert(removed_key(*old(disk), deleted@.take(j as int), k));
                            } else {
                                assert(deleted@.take(j + 1)[w] == node);
                                assert(k == id@);
                            }
                        }
                    }
                    if km_has(old(disk).meta.keymap@, k) && !removed_key(
                        *old(disk),
                        deleted@.take(j + 1),
                        k,
                    ) {
                        assert forall|w: int| 0 <= w < j implies node_key_chars(
                            *old(disk),
                            #[trigger] deleted@.take(j as int)[w],
                        ) != k by {
                            assert(deleted@.take(j as int)[w] == deleted@.take(j + 1)[w]);
                        }
                        assert(!removed_key(*old(disk), deleted@.take(j as int), k));
                        assert(km_has(step_disk.meta.keymap@, k));
                        assert(node_key_chars(*old(disk), deleted@.take(j + 1)[j as int]) != k);
                        assert(k != id@);
                    }
                }
            }
            j += 1;
        }
        proof {
            assert(deleted@.take(deleted@.len() as int) =~= deleted@);
        }
        disk.meta.insert_log(log);
        disk.meta.marked_deleted(self.time_stamp, &deleted);
        proof {
            assert(final(disk).meta.tombstones@ == old(disk).meta.tombstones@ + deleted@);
            assert(disk.records_ok()) by {
                let km = disk.meta.keymap@;
                assert(km_wf(km));
                assert forall|q: int| 0 <= q < km.len() implies disk.entry_ok(#[trigger] km[q])
                    by {}
                assert forall|q: int| 0 <= q < disk.meta.tombstones@.len() implies disk
                    .tombstone_ok(#[trigger] disk.meta.tombstones@[q]) by {
                    let ots = old(disk).meta.tombstones@;
                    if q < ots.len() {
                        assert(disk.meta.tombstones@[q] == ots[q]);
                        assert(old(disk).tombstone_ok(ots[q]));
                    } else {
                        let n = deleted@[q - ots.len()];
                        assert(disk.meta.tombstones@[q] == n);
                        assert(Index::removed_ok(*old(disk), n));
                        assert(string_rpr_ok(old(disk).key_storage.read_spec(n.key)));
                        assert(old(disk).key_storage.read_spec(n.key).len() >= 8);
                        assert(n.key.len >= 1 && n.vector.len >= 1);
                    }
                }
                assert(disk.refs_distinct()) by {
                    let km2 = disk.meta.keymap@;
                    let ts = disk.meta.tombstones@;
                    assert forall|a: int, b: int|
                        0 <= a < km2.len() && 0 <= b < ts.len() implies (#[trigger] km2[a]).1.key
                        != (#[trigger] ts[b]).key && km2[a].1.vector != ts[b].vector by {
                        if b < old(disk).meta.tombstones@.len() {
                        } else {
                            let n = deleted@[b - old(disk).meta.tombstones@.len()];
                            assert(ts[b] == n);
                            assert(Index::removed_ok(*old(disk), n));
                            assert(km_has(km2, km2[a].0@)) by {
                                assert((#[trigger] km2[a]).0@ == km2[a].0@);
                            }
                            assert(km_at(km2, km2[a].0@) == km_at(old(disk).meta.keymap@, km2[
                                a].0@));
                            crate::meta::lemma_km_at(km2, km2[a].0@, a);
                            assert(km_has(old(disk).meta.keymap@, km2[a].0@));
                            let m = choose|m: int|
                                0 <= m < old(disk).meta.keymap@.len() && (#[trigger] old(disk).meta.keymap@[m]).0@ == km2[a].0@;
                            crate::meta::lemma_km_at(old(disk).meta.keymap@, km2[a].0@, m);
                            assert(km2[a].1 == old(disk).meta.keymap@[m].1);
                            assert(old(disk).meta.keymap@[m].1.key != n.key && old(disk).meta.keymap@[m].1.vector != n.vector);
                        }
                    }
                }
            }
            assert(disk.stored_graph_ok()) by {
                let m = disk.meta.log.max_layer as int;
                assert(m == old(self).layers_len);
                let so = disk.meta.layers_out@.take(m);
                let si = disk.meta.layers_in@.take(m);
                assert forall|k: int| 0 <= k < m implies layer_eq(
                    #[trigger] so[k],
                    old(self).layers_out@[k],
                ) && layer_eq(#[trigger] si[k], old(self).layers_in@[k]) by {
                    assert(so[k] == disk.meta.layers_out@[k]);
                    assert(si[k] == disk.meta.layers_in@[k]);
                }
                crate::index::lemma_loaded_stack_wf_pub(so, old(self).layers_out@);
                assert(stack_wf(si)) by {
                    assert forall|k: int| 0 <= k < si.len() implies (#[trigger] si[k]).wf() by {
                        crate::graph_layer::lemma_layer_eq_congruence(
                            si[k],
                            old(self).layers_in@[k],
                        );
                    }
                }
                assert(stacks_transposed(so, si)) by {
                    assert forall|k: int| 0 <= k < so.len() implies transposed(
                        #[trigger] so[k],
                        #[trigger] si[k],
                    ) by {
                        crate::graph_layer::lemma_layer_eq_congruence(
                            so[k],
                            old(self).layers_out@[k],
                        );
                        crate::graph_layer::lemma_layer_eq_congruence(
                            si[k],
                            old(self).layers_in@[k],
                        );
                        assert(transposed(old(self).layers_out@[k], old(self).layers_in@[k]));
                    }
                }
                assert forall|k: int, n: Node|
                    0 <= k < m && (#[trigger] disk.meta.layers_out@[k].has_node_spec(n)) implies n
                    .key.off + n.key.len <= disk.key_storage.data@.len() && n.key.len >= 1 by {
                    crate::graph_layer::lemma_layer_eq_congruence(
                        disk.meta.layers_out@[k],
                        old(self).layers_out@[k],
                    );
                    assert(old(self).layers_out@[k].has_node_spec(n));
                    assert(old(self).layer_keys_bounded(*old(disk)));
                }
            }
        }
    }
}

/// A stack of layer copies keeps well-formedness and prefix-closure.
pub proof fn lemma_loaded_stack_wf_pub(loaded: Seq<GraphLayer>, source: Seq<GraphLayer>)
    requires
        loaded.len() <= source.len(),
        forall|i: int| 0 <= i < loaded.len() ==> layer_eq(#[trigger] loaded[i], source[i]),
        stack_wf(source),
        prefix_closed(source),
    ensures
        stack_wf(loaded),
        prefix_closed(loaded),
{
    assert forall|i: int| 0 <= i < loaded.len() implies (#[trigger] loaded[i]).wf() by {
        crate::graph_layer::lemma_layer_eq_congruence(loaded[i], source[i]);
        assert(source[i].wf());
    }
    assert forall|i: int, n: Node|
        1 <= i < loaded.len() && (#[trigger] loaded[i].has_node_spec(n)) implies loaded[
        i - 1].has_node_spec(n) by {
        crate::graph_layer::lemma_layer_eq_congruence(loaded[i], source[i]);
        crate::graph_layer::lemma_layer_eq_congruence(loaded[i - 1], source[i - 1]);
        assert(source[i].has_node_spec(n));
        assert(source[i - 1].has_node_spec(n));
    }
}

/// In/out symmetry: at every layer of a writer, an out-edge `(u → v, w)` is
/// stored exactly when the in-edge `(v ← u, w)` is, and the weights agree.
pub proof fn lemma_edge_symmetry(idx: Index, k: int, u: Node, v: Node)
    requires
        idx.wf(),
        idx.is_writer(),
        0 <= k < idx.layers_len,
    ensures
        idx.layers_out@[k].has_edge(u, v) <==> idx.layers_in@[k].has_edge(v, u),
        idx.layers_out@[k].has_edge(u, v) ==> idx.layers_in@[k].edge_at(v, u) == (Edge {
            from: v,
            to: u,
            dist: idx.layers_out@[k].edge_at(u, v).dist,
        }),
{
    assert(stacks_transposed(idx.layers_out@, idx.layers_in@));
    assert(transposed(idx.layers_out@[k], idx.layers_in@[k]));
}

/// Layer prefix: a node that participates at layer `k` participates at
/// every layer below it.
pub proof fn lemma_layer_prefix(idx: Index, k: int, j: int, n: Node)
    requires
        idx.wf(),
        0 <= j <= k < idx.layers_len,
        idx.layers_out@[k].has_node_spec(n),
    ensures
        idx.layers_out@[j].has_node_spec(n),
    decreases k - j,
{
    if j < k {
        assert(prefix_closed(idx.layers_out@));
        assert(idx.layers_out@[k - 1].has_node_spec(n));
        lemma_layer_prefix(idx, k - 1, j, n);
    }
}

} // verus!
