//! The element types shared by every component of the index.

use vstd::prelude::*;

verus! {

/// Locator of one blob inside a segment storage: a byte offset and a length.
#[derive(Clone, Copy, PartialEq, Eq, Structural, Hash, Debug)]
pub struct SegmentId {
    pub off: usize,
    pub len: usize,
}

/// Stable handle binding a key segment (in the key storage) to a vector
/// segment (in the vector storage).
#[derive(Clone, Copy, PartialEq, Eq, Structural, Hash, Debug)]
pub struct Node {
    pub key: SegmentId,
    pub vector: SegmentId,
}

/// The embedding payload: a dense sequence of 32-bit floats, carried as the
/// IEEE-754 bit patterns of its coordinates.  Distance computations interpret
/// the bits; the index itself only stores and moves them.
#[derive(Debug)]
pub struct Vector {
    pub raw: Vec<u32>,
}

impl View for Vector {
    type V = Seq<u32>;

    open spec fn view(&self) -> Seq<u32> {
        self.raw@
    }
}

impl Clone for Vector {
    fn clone(&self) -> (r: Self)
        ensures
            r@ == self@,
    {
        let mut raw: Vec<u32> = Vec::new();
        let mut i: usize = 0;
        while i < self.raw.len()
            invariant
                i <= self.raw.len(),
                raw@ == self.raw@.take(i as int),
            decreases self.raw.len() - i,
        {
            raw.push(self.raw[i]);
            i += 1;
        }
        proof {
            assert(raw@ =~= self.raw@);
        }
        Vector { raw }
    }
}

/// Directed weighted edge between two nodes at some layer; `dist` holds the
/// IEEE-754 bit pattern of the 32-bit distance.
#[derive(Clone, Copy, PartialEq, Eq, Structural, Debug)]
pub struct Edge {
    pub from: Node,
    pub to: Node,
    pub dist: u32,
}

/// The seed of a search: a node together with the layer it tops.
#[derive(Clone, Copy, PartialEq, Eq, Structural, Debug)]
pub struct EntryPoint {
    pub node: Node,
    pub layer: u64,
}

/// The persistent commit record.
#[derive(Clone, Copy, Debug)]
pub struct GraphLog {
    pub entry_point: Option<EntryPoint>,
    pub max_layer: u64,
    pub version_number: u128,
}

} // verus!
