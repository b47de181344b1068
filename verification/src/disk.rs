//! The persistent state of one index directory, as a value.
//!
//! A `Disk` gathers the three storage surfaces — the key blob store, the
//! vector blob store and the metadata store — that the directory holds on
//! disk.  Index handles share one `Disk`: a writer passes it mutably, readers
//! immutably, and a host program maps it to the real directory.

use vstd::prelude::*;

use crate::codec::{string_rpr, string_rpr_ok, vector_rpr_ok};
use crate::elements::Node;
use crate::graph_layer::{prefix_closed, stack_wf, stacks_transposed};
use crate::meta::{km_wf, MetaStore};
use crate::segment::SegmentStorage;

verus! {

/// The image of one index directory.
#[derive(Debug)]
pub struct Disk {
    pub key_storage: SegmentStorage,
    pub vector_storage: SegmentStorage,
    pub meta: MetaStore,
}

impl Disk {
    /// A registered entry is backed by both storages: its key segment reads
    /// back as the canonical image of exactly its key, and its vector
    /// segment as a canonical vector image.
    pub open spec fn entry_ok(self, e: (String, Node)) -> bool {
        &&& self.key_storage.is_live(e.1.key)
        &&& self.vector_storage.is_live(e.1.vector)
        &&& self.key_storage.read_spec(e.1.key) == string_rpr(e.0@)
        &&& string_rpr_ok(self.key_storage.read_spec(e.1.key))
        &&& vector_rpr_ok(self.vector_storage.read_spec(e.1.vector))
    }

    /// A tombstoned node still owns its two segments until collection.
    pub open spec fn tombstone_ok(self, n: Node) -> bool {
        &&& self.key_storage.is_live(n.key)
        &&& self.vector_storage.is_live(n.vector)
        &&& n.key.len >= 1
        &&& n.vector.len >= 1
    }

    /// The segments referenced by the key→node map and by the tombstone
    /// queue are pairwise distinct within each storage, so that reclaiming a
    /// tombstone can never free a registered entry's segment.
    pub open spec fn refs_distinct(self) -> bool {
        let km = self.meta.keymap@;
        let ts = self.meta.tombstones@;
        &&& forall|i: int, j: int|
            0 <= i < j < km.len() ==> (#[trigger] km[i]).1.key != (#[trigger] km[j]).1.key && km[
                i].1.vector != km[j].1.vector
        &&& forall|i: int, j: int|
            0 <= i < km.len() && 0 <= j < ts.len() ==> (#[trigger] km[i]).1.key != (
            #[trigger] ts[j]).key && km[i].1.vector != ts[j].vector
    }

    /// The stored layer stacks back every position below the logged
    /// `max_layer` with well-formed, mutually transposed layers whose node
    /// sets are prefix-closed.
    pub open spec fn stored_graph_ok(self) -> bool {
        let m = self.meta.log.max_layer as int;
        &&& m <= self.meta.layers_out@.len()
        &&& m <= self.meta.layers_in@.len()
        &&& stack_wf(self.meta.layers_out@.take(m))
        &&& stack_wf(self.meta.layers_in@.take(m))
        &&& prefix_closed(self.meta.layers_out@.take(m))
        &&& stacks_transposed(self.meta.layers_out@.take(m), self.meta.layers_in@.take(m))
        &&& forall|i: int, n: Node|
            0 <= i < m && (#[trigger] self.meta.layers_out@[i].has_node_spec(n)) ==> n.key.off
                + n.key.len <= self.key_storage.data@.len() && n.key.len >= 1
    }

    /// The record-keeping half of well-formedness: everything except the
    /// stored layer stacks.
    pub open spec fn records_ok(self) -> bool {
        &&& self.key_storage.wf()
        &&& self.vector_storage.wf()
        &&& km_wf(self.meta.keymap@)
        &&& forall|i: int|
            0 <= i < self.meta.keymap@.len() ==> self.entry_ok(#[trigger] self.meta.keymap@[i])
        &&& forall|i: int|
            0 <= i < self.meta.tombstones@.len() ==> self.tombstone_ok(
                #[trigger] self.meta.tombstones@[i],
            )
        &&& self.refs_distinct()
    }

    /// Well-formedness of the whole directory image.
    pub open spec fn wf(self) -> bool {
        &&& self.records_ok()
        &&& self.stored_graph_ok()
    }

    /// An empty directory image: what `create` leaves behind before any
    /// write.
    pub fn create() -> (r: Disk)
        ensures
            r.wf(),
            r.meta.keymap@ == Seq::<(String, Node)>::empty(),
            r.meta.tombstones@ == Seq::<Node>::empty(),
            r.meta.log.version_number == 0,
            r.meta.log.max_layer == 0,
            r.meta.log.entry_point is None,
            r.key_storage.live@ == Seq::<crate::elements::SegmentId>::empty(),
            r.vector_storage.live@ == Seq::<crate::elements::SegmentId>::empty(),
    {
        let r = Disk {
            key_storage: SegmentStorage::create(),
            vector_storage: SegmentStorage::create(),
            meta: MetaStore::create(),
        };
        proof {
            assert(r.meta.layers_out@.take(0) =~= Seq::<crate::graph_layer::GraphLayer>::empty());
            assert(r.meta.layers_in@.take(0) =~= Seq::<crate::graph_layer::GraphLayer>::empty());
        }
        r
    }
}

/// Filtering the key→node map — as erasing a key does, and as the
/// defensive sweep of a commit does — keeps the record half of
/// well-formedness: the surviving entries are entries of the old map.
pub proof fn lemma_records_ok_after_keymap_filter(
    old_d: Disk,
    new_d: Disk,
    p: spec_fn((String, Node)) -> bool,
)
    requires
        old_d.records_ok(),
        new_d.meta.keymap@ == crate::util::keep(old_d.meta.keymap@, p),
        new_d.key_storage == old_d.key_storage,
        new_d.vector_storage == old_d.vector_storage,
        new_d.meta.tombstones@ == old_d.meta.tombstones@,
    ensures
        new_d.records_ok(),
{
    let okm = old_d.meta.keymap@;
    let km = new_d.meta.keymap@;
    crate::util::lemma_keep_elements(okm, p);
    assert(km_wf(km)) by {
        assert forall|a: int, b: int| 0 <= a < b < km.len() implies (#[trigger] km[a]).0@ != (
        #[trigger] km[b]).0@ by {
            crate::util::lemma_keep_unique_proj(okm, p, (|e: (String, Node)| e.0@), a, b);
        }
    }
    assert forall|i: int| 0 <= i < km.len() implies new_d.entry_ok(#[trigger] km[i]) by {
        let j = choose|j: int| 0 <= j < okm.len() && okm[j] == km[i];
        assert(old_d.entry_ok(okm[j]));
    }
    assert(new_d.refs_distinct()) by {
        assert forall|a: int, b: int| 0 <= a < b < km.len() implies (#[trigger] km[a]).1.key != (
        #[trigger] km[b]).1.key && km[a].1.vector != km[b].1.vector by {
            crate::util::lemma_keep_unique_proj(okm, p, (|e: (String, Node)| e.1.key), a, b);
            crate::util::lemma_keep_unique_proj(okm, p, (|e: (String, Node)| e.1.vector), a, b);
        }
        assert forall|a: int, b: int|
            0 <= a < km.len() && 0 <= b < new_d.meta.tombstones@.len() implies (
        #[trigger] km[a]).1.key != (#[trigger] new_d.meta.tombstones@[b]).key && km[a].1.vector
            != new_d.meta.tombstones@[b].vector by {
            let j = choose|j: int| 0 <= j < okm.len() && okm[j] == km[a];
            assert(old_d.refs_distinct());
        }
    }
    assert forall|i: int| 0 <= i < new_d.meta.tombstones@.len() implies new_d.tombstone_ok(
        #[trigger] new_d.meta.tombstones@[i],
    ) by {
        assert(old_d.tombstone_ok(old_d.meta.tombstones@[i]));
    }
}

/// Reading any registered key's segment yields exactly the canonical image
/// of that key string: the indirection invariant, for every entry of the
/// key→node map of any well-formed directory image.
pub proof fn lemma_registered_key_reads_back(d: Disk, i: int)
    requires
        d.wf(),
        0 <= i < d.meta.keymap@.len(),
    ensures
        d.key_storage.is_live(d.meta.keymap@[i].1.key),
        d.key_storage.read_spec(d.meta.keymap@[i].1.key) == string_rpr(d.meta.keymap@[i].0@),
{
    assert(d.entry_ok(d.meta.keymap@[i]));
}

} // verus!
