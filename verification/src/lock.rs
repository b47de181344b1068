//! A shareable façade over one index and its directory image, behind a
//! multiple-reader / single-writer lock.
//!
//! Cloned handles share the same underlying pair.  Every method acquires
//! the appropriate lock mode and delegates; preconditions of the inner
//! operations that the lock hides are re-checked at run time, and a call
//! that a reader-mode or out-of-range argument would make unsound is
//! answered with an empty or `None` result instead.

use vstd::prelude::*;

use std::sync::Arc;

use vstd::rwlock::RwLock;

use crate::disk::Disk;
use crate::elements::{Edge, EntryPoint, Node, Vector};
use crate::index::{Index, Stats};

verus! {

/// The invariant the lock maintains: both halves well-formed and the
/// erased batch in step with the image.
pub open spec fn lock_inv() -> spec_fn((Index, Disk)) -> bool {
    |p: (Index, Disk)|
        {
            &&& p.0.wf()
            &&& p.1.wf()
            &&& p.0.coupled(p.1)
        }
}

/// A shareable, lock-wrapped index handle.
#[derive(Clone)]
pub struct LockIndex {
    pub index: Arc<RwLock<(Index, Disk), spec_fn((Index, Disk)) -> bool>>,
}

impl LockIndex {
    pub open spec fn wf(self) -> bool {
        (*self.index).pred() == lock_inv()
    }

    /// Wraps an index together with its directory image.
    pub fn new(index: Index, disk: Disk) -> (r: LockIndex)
        requires
            index.wf(),
            disk.wf(),
            index.coupled(disk),
        ensures
            r.wf(),
    {
        let lock = RwLock::new((index, disk), Ghost(lock_inv()));
        LockIndex { index: Arc::new(lock) }
    }

    /// Whether every one of `labels` is associated with the node's key; a
    /// node whose key segment is gone carries no labels.
    pub fn has_labels(&self, node: Node, labels: &[String]) -> bool
        requires
            self.wf(),
    {
        let handle = (*self.index).acquire_read();
        let pair = handle.borrow();
        let r = if pair.1.key_storage.contains_live(node.key) {
            let raw = pair.1.key_storage.read(node.key);
            match crate::codec::decode_string(&raw) {
                Some(_) => pair.0.has_labels(&pair.1, node, labels),
                None => false,
            }
        } else {
            false
        };
        handle.release_read();
        r
    }

    /// The vector stored for the node, if its segment is still allocated
    /// and decodes.
    pub fn get_node_vector(&self, node: Node) -> Option<Vector>
        requires
            self.wf(),
    {
        let handle = (*self.index).acquire_read();
        let pair = handle.borrow();
        let r = if pair.1.vector_storage.contains_live(node.vector) {
            let raw = pair.1.vector_storage.read(node.vector);
            match crate::codec::decode_vector(&raw) {
                Some(_) => Some(pair.0.get_node_vector(&pair.1, node)),
                None => None,
            }
        } else {
            None
        };
        handle.release_read();
        r
    }

    /// The key stored for the node, if its segment is still allocated and
    /// decodes.
    pub fn get_node_key(&self, node: Node) -> Option<String>
        requires
            self.wf(),
    {
        let handle = (*self.index).acquire_read();
        let pair = handle.borrow();
        let r = if pair.1.key_storage.contains_live(node.key) {
            let raw = pair.1.key_storage.read(node.key);
            match crate::codec::decode_string(&raw) {
                Some(_) => Some(pair.0.get_node_key(&pair.1, node)),
                None => None,
            }
        } else {
            None
        };
        handle.release_read();
        r
    }

    /// Refreshes a reader-mode index against the shared image; a writer or
    /// an in-sync reader is left as it is.
    pub fn reload(&self)
        requires
            self.wf(),
    {
        let (mut pair, handle) = (*self.index).acquire_write();
        if pair.0.layers_in.len() == 0 {
            let (mut idx, disk) = pair;
            idx.reload(&disk);
            pair = (idx, disk);
        }
        handle.release_write(pair);
    }

    pub fn no_nodes(&self) -> usize
        requires
            self.wf(),
    {
        let handle = (*self.index).acquire_read();
        let r = handle.borrow().0.no_nodes();
        handle.release_read();
        r
    }

    /// Whether the node participates at the layer; a layer outside the
    /// stack holds nothing.
    pub fn is_node_at(&self, layer: usize, node: Node) -> bool
        requires
            self.wf(),
    {
        let handle = (*self.index).acquire_read();
        let pair = handle.borrow();
        let r = if layer < pair.0.no_layers() {
            pair.0.is_node_at(layer, node)
        } else {
            false
        };
        handle.release_read();
        r
    }

    pub fn get_entry_point(&self) -> Option<EntryPoint>
        requires
            self.wf(),
    {
        let handle = (*self.index).acquire_read();
        let r = handle.borrow().0.get_entry_point();
        handle.release_read();
        r
    }

    pub fn get_node(&self, key: &str) -> Option<Node>
        requires
            self.wf(),
    {
        let handle = (*self.index).acquire_read();
        let pair = handle.borrow();
        let r = pair.0.get_node(&pair.1, key);
        handle.release_read();
        r
    }

    /// The registered keys sharing the prefix, sorted ascending.
    pub fn get_prefixed(&self, prefix: &str) -> Vec<String>
        requires
            self.wf(),
    {
        let handle = (*self.index).acquire_read();
        let pair = handle.borrow();
        let r = pair.0.get_prefixed(&pair.1, prefix);
        handle.release_read();
        r
    }

    /// Creates a node under the write lock; `None` when the handle is in
    /// reader mode or the vector has more coordinates than the canonical
    /// image can carry.
    pub fn add_node(&self, key: String, vector: Vector, layer: usize) -> Option<Node>
        requires
            self.wf(),
    {
        let (mut pair, handle) = (*self.index).acquire_write();
        let mut r: Option<Node> = None;
        let vector_len_ok = vector.raw.len() <= (u32::MAX as usize);
        if pair.0.layers_in.len() == pair.0.no_layers() && vector_len_ok && layer < usize::MAX {
            let (mut idx, mut disk) = pair;
            let node = idx.add_node(&mut disk, key, vector, layer);
            r = Some(node);
            pair = (idx, disk);
        }
        handle.release_write(pair);
        r
    }

    pub fn add_label(&self, key: String, label: String)
        requires
            self.wf(),
    {
        let (mut pair, handle) = (*self.index).acquire_write();
        let (idx, mut disk) = pair;
        let mut idx = idx;
        idx.add_label(&mut disk, key, label);
        pair = (idx, disk);
        handle.release_write(pair);
    }

    /// Inserts the edge and its reverse under the write lock; ignored in
    /// reader mode or for a layer outside the stack.
    pub fn connect(&self, layer: usize, edge: Edge)
        requires
            self.wf(),
    {
        let (mut pair, handle) = (*self.index).acquire_write();
        if pair.0.layers_in.len() == pair.0.no_layers() && layer < pair.0.no_layers() {
            let (mut idx, disk) = pair;
            idx.connect(layer, edge);
            pair = (idx, disk);
        }
        handle.release_write(pair);
    }

    /// Removes the edge and its reverse under the write lock; ignored in
    /// reader mode or for a layer outside the stack.
    pub fn disconnect(&self, layer: usize, source: Node, destination: Node)
        requires
            self.wf(),
    {
        let (mut pair, handle) = (*self.index).acquire_write();
        if pair.0.layers_in.len() == pair.0.no_layers() && layer < pair.0.no_layers() {
            let (mut idx, disk) = pair;
            idx.disconnect(layer, source, destination);
            pair = (idx, disk);
        }
        handle.release_write(pair);
    }

    /// A snapshot of the out-adjacency; a layer outside the stack holds
    /// nothing.
    pub fn out_edges(&self, layer: usize, node: Node) -> Vec<Edge>
        requires
            self.wf(),
    {
        let handle = (*self.index).acquire_read();
        let pair = handle.borrow();
        let r = if layer < pair.0.no_layers() {
            pair.0.out_edges(layer, node)
        } else {
            Vec::new()
        };
        handle.release_read();
        r
    }

    /// A snapshot of the in-adjacency; empty in reader mode.
    pub fn in_edges(&self, layer: usize, node: Node) -> Vec<Edge>
        requires
            self.wf(),
    {
        let handle = (*self.index).acquire_read();
        let pair = handle.borrow();
        let r = pair.0.in_edges(layer, node);
        handle.release_read();
        r
    }

    pub fn has_node(&self, key: &str) -> bool
        requires
            self.wf(),
    {
        let handle = (*self.index).acquire_read();
        let pair = handle.borrow();
        let r = pair.0.has_node(&pair.1, key);
        handle.release_read();
        r
    }

    pub fn set_entry_point(&self, ep: EntryPoint)
        requires
            self.wf(),
    {
        let (mut pair, handle) = (*self.index).acquire_write();
        let (mut idx, disk) = pair;
        idx.set_entry_point(ep);
        pair = (idx, disk);
        handle.release_write(pair);
    }

    /// Erases a node under the write lock; ignored in reader mode, when the
    /// stack is empty, or when the node is not registered.
    pub fn erase(&self, node: Node)
        requires
            self.wf(),
    {
        let (mut pair, handle) = (*self.index).acquire_write();
        if pair.0.layers_in.len() == pair.0.no_layers() && pair.0.no_layers() > 0
            && pair.1.meta.has_node_value(node) {
            let (mut idx, mut disk) = pair;
            idx.erase(&mut disk, node);
            pair = (idx, disk);
        }
        handle.release_write(pair);
    }

    /// Publishes the batched state under the write lock; ignored in reader
    /// mode.
    pub fn commit(&mut self)
        requires
            self.wf(),
    {
        let (mut pair, handle) = (*self.index).acquire_write();
        if pair.0.layers_in.len() == pair.0.no_layers() && pair.0.time_stamp < u128::MAX
            && pair.1.meta.log.version_number < pair.0.time_stamp {
            let (mut idx, mut disk) = pair;
            idx.commit(&mut disk);
            pair = (idx, disk);
        }
        handle.release_write(pair);
    }

    /// Frees every tombstoned segment under the write lock.
    pub fn run_garbage_collection(&mut self)
        requires
            self.wf(),
    {
        let (mut pair, handle) = (*self.index).acquire_write();
        let (mut idx, mut disk) = pair;
        idx.run_garbage_collection(&mut disk);
        pair = (idx, disk);
        handle.release_write(pair);
    }

    pub fn stats(&self) -> Stats
        requires
            self.wf(),
    {
        let handle = (*self.index).acquire_read();
        let r = handle.borrow().0.stats();
        handle.release_read();
        r
    }

    pub fn no_layers(&self) -> usize
        requires
            self.wf(),
    {
        let handle = (*self.index).acquire_read();
        let r = handle.borrow().0.no_layers();
        handle.release_read();
        r
    }

    /// The keys of the nodes in layer zero whose key segments still read
    /// back; an empty stack yields no keys.
    #[verifier::loop_isolation(false)]
    pub fn node_keys(&self) -> Vec<String>
        requires
            self.wf(),
    {
        let handle = (*self.index).acquire_read();
        let pair = handle.borrow();
        let mut keys: Vec<String> = Vec::new();
        if pair.0.no_layers() > 0 {
            let nodes = pair.0.layers_out[0].get_nodes();
            let mut i: usize = 0;
            while i < nodes.len()
                invariant
                    i <= nodes@.len(),
                decreases nodes@.len() - i,
            {
                let node = nodes[i];
                if pair.1.key_storage.contains_live(node.key) {
                    let raw = pair.1.key_storage.read(node.key);
                    match crate::codec::decode_string(&raw) {
                        Some(s) => {
                            keys.push(s);
                        },
                        None => {},
                    }
                }
                i += 1;
            }
        }
        handle.release_read();
        keys
    }
}

} // verus!
