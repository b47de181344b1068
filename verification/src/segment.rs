//! Append-only blob storage addressed by [`SegmentId`].
//!
//! The store keeps every byte ever appended and a list of the segments that
//! are still allocated.  `insert` appends and returns a fresh locator,
//! `read` copies a live segment out, and `delete_segment` gives a segment's
//! range up for reclamation.  A host program maps `data` to a real
//! memory-mapped file.

use vstd::prelude::*;

use crate::elements::SegmentId;

use crate::util::{keep, lemma_keep_contains, lemma_keep_take_full, lemma_keep_take_step};

verus! {

/// The segment locators other than `id`.
pub open spec fn not_seg(id: SegmentId) -> spec_fn(SegmentId) -> bool {
    |x: SegmentId| x != id
}

/// An append-oriented, addressable byte store.
#[derive(Debug)]
pub struct SegmentStorage {
    pub data: Vec<u8>,
    pub live: Vec<SegmentId>,
}

impl SegmentStorage {
    /// Every allocated segment lies within the data written so far.
    pub open spec fn wf(self) -> bool {
        forall|i: int|
            0 <= i < self.live@.len() ==> (#[trigger] self.live@[i]).off + self.live@[i].len
                <= self.data@.len()
    }

    pub open spec fn is_live(self, id: SegmentId) -> bool {
        self.live@.contains(id)
    }

    /// The bytes a segment addresses.
    pub open spec fn read_spec(self, id: SegmentId) -> Seq<u8> {
        self.data@.subrange(id.off as int, id.off + id.len)
    }

    /// An empty store.
    pub fn create() -> (r: SegmentStorage)
        ensures
            r.wf(),
            r.data@ == Seq::<u8>::empty(),
            r.live@ == Seq::<SegmentId>::empty(),
    {
        SegmentStorage { data: Vec::new(), live: Vec::new() }
    }

    /// Appends a blob and returns its locator.  The new segment starts at the
    /// previous end of the data, so it is distinct from every segment that
    /// lies within the old bounds.
    #[verifier::loop_isolation(false)]
    pub fn insert(&mut self, bytes: &Vec<u8>) -> (id: SegmentId)
        requires
            old(self).wf(),
        ensures
            final(self).wf(),
            id.off == old(self).data@.len(),
            id.len == bytes@.len(),
            final(self).data@ == old(self).data@ + bytes@,
            final(self).live@ == old(self).live@.push(id),
            final(self).is_live(id),
            final(self).read_spec(id) == bytes@,
            forall|x: SegmentId|
                #[trigger] final(self).is_live(x) <==> old(self).is_live(x) || x == id,
            forall|x: SegmentId|
                x.off + x.len <= old(self).data@.len() ==> #[trigger] final(self).read_spec(x)
                    == old(self).read_spec(x),
    {
        let ghost pre = *self;
        let off = self.data.len();
        let mut i: usize = 0;
        while i < bytes.len()
            invariant
                i <= bytes.len(),
                self.data@ == pre.data@ + bytes@.take(i as int),
                self.live@ == pre.live@,
            decreases bytes.len() - i,
        {
            self.data.push(bytes[i]);
            proof {
                assert(pre.data@ + bytes@.take(i + 1) =~= (pre.data@ + bytes@.take(i as int)).push(
                    bytes@[i as int],
                ));
            }
            i += 1;
        }
        proof {
            assert(bytes@.take(bytes@.len() as int) =~= bytes@);
        }
        let id = SegmentId { off, len: bytes.len() };
        self.live.push(id);
        proof {
            assert(self.live@[self.live@.len() - 1] == id);
            assert(self.read_spec(id) =~= bytes@);
            assert forall|x: SegmentId| #[trigger]
                self.is_live(x) <==> pre.is_live(x) || x == id by {
                if self.is_live(x) {
                    let j = choose|j: int| 0 <= j < self.live@.len() && self.live@[j] == x;
                    if j < self.live@.len() - 1 {
                        assert(pre.live@[j] == x);
                    }
                }
                if pre.is_live(x) {
                    let j = choose|j: int| 0 <= j < pre.live@.len() && pre.live@[j] == x;
                    assert(self.live@[j] == x);
                }
            }
            assert forall|x: SegmentId|
                x.off + x.len <= pre.data@.len() implies #[trigger] self.read_spec(x)
                == pre.read_spec(x) by {
                assert(self.read_spec(x) =~= pre.read_spec(x));
            }
        }
        id
    }

    /// Copies a live segment's bytes out of the store.
    #[verifier::loop_isolation(false)]
    pub fn read(&self, id: SegmentId) -> (r: Vec<u8>)
        requires
            self.wf(),
            self.is_live(id),
        ensures
            r@ == self.read_spec(id),
    {
        proof {
            let j = choose|j: int| 0 <= j < self.live@.len() && self.live@[j] == id;
            assert(self.live@[j].off + self.live@[j].len <= self.data@.len());
        }
        let end = self.data.len();
        assert(id.off + id.len <= end);
        let mut out: Vec<u8> = Vec::new();
        let mut i: usize = 0;
        while i < id.len
            invariant
                i <= id.len,
                out@ == self.data@.subrange(id.off as int, id.off + i),
            decreases id.len - i,
        {
            out.push(self.data[id.off + i]);
            proof {
                assert(self.data@.subrange(id.off as int, id.off + i + 1) =~= self.data@.subrange(
                    id.off as int,
                    id.off + i,
                ).push(self.data@[id.off + i]));
            }
            i += 1;
        }
        out
    }

    /// Marks a segment's range as free.  Reads of other segments are
    /// unaffected; reading the deleted locator is no longer allowed.
    #[verifier::loop_isolation(false)]
    pub fn delete_segment(&mut self, id: SegmentId)
        requires
            old(self).wf(),
        ensures
            final(self).wf(),
            final(self).data@ == old(self).data@,
            final(self).live@ == keep(old(self).live@, not_seg(id)),
            !final(self).is_live(id),
            forall|x: SegmentId|
                x != id ==> (#[trigger] final(self).is_live(x) <==> old(self).is_live(x)),
            forall|x: SegmentId| #[trigger]
                final(self).read_spec(x) == old(self).read_spec(x),
    {
        let ghost pre = *self;
        let ghost p = not_seg(id);
        let mut out: Vec<SegmentId> = Vec::new();
        let mut i: usize = 0;
        while i < self.live.len()
            invariant
                i <= self.live.len(),
                out@ == keep(pre.live@.take(i as int), p),
            decreases self.live.len() - i,
        {
            let x = self.live[i];
            proof {
                lemma_keep_take_step(pre.live@, p, i as int);
            }
            if x != id {
                out.push(x);
            }
            i += 1;
        }
        proof {
            lemma_keep_take_full(pre.live@, p);
        }
        self.live = out;
        proof {
            crate::util::lemma_keep_elements(pre.live@, p);
            assert forall|x: SegmentId|
                x != id implies (#[trigger] self.is_live(x) <==> pre.is_live(x)) by {
                lemma_keep_contains(pre.live@, p, x);
            }
            lemma_keep_contains(pre.live@, p, id);
        }
    }

    /// Whether a locator is currently allocated.
    pub fn contains_live(&self, id: SegmentId) -> (r: bool)
        ensures
            r == self.is_live(id),
    {
        let mut i: usize = 0;
        while i < self.live.len()
            invariant
                i <= self.live@.len(),
                forall|j: int| 0 <= j < i ==> #[trigger] self.live@[j] != id,
            decreases self.live@.len() - i,
        {
            if self.live[i] == id {
                assert(self.live@[i as int] == id);
                return true;
            }
            i += 1;
        }
        false
    }

    /// How many segments are currently allocated.
    pub fn live_segments(&self) -> (r: usize)
        ensures
            r == self.live@.len(),
    {
        self.live.len()
    }

    /// How many bytes have ever been appended.
    pub fn data_len(&self) -> (r: usize)
        ensures
            r == self.data@.len(),
    {
        self.data.len()
    }
}

} // verus!
