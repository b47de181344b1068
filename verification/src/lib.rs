//! A persistent, mutable, hierarchical-graph vector index.
//!
//! The index is a layered proximity graph over embedding vectors: every node
//! takes part in a prefix of stacked layers, edges carry distances, and the
//! topmost non-empty layer holds the entry point that seeds searches.  The
//! library reconciles three storage surfaces — a transactional metadata store,
//! an append-only blob store for vectors and one for key strings — into one
//! entity with a commit discipline and a garbage-collection path.
//!
//! All persistent state lives in a [`disk::Disk`] value, the in-memory image
//! of the index directory; a host program maps it to real files.

mod util;

pub mod elements;

pub mod codec;

pub mod graph_layer;

pub mod segment;

pub mod meta;

pub mod disk;

pub mod index;

pub mod lock;
