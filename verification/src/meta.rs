//! The transactional metadata store: everything the index persists that is
//! not a raw blob.
//!
//! Keyspaces: the key→node map, the label multimap, the two stacks of
//! serialized graph layers, the pending-delete queue and the commit log.
//! Each mutator applies atomically — the store is the in-memory image of the
//! committed state, and a host program maps it to a real transactional
//! database.

use vstd::prelude::*;

use crate::elements::{EntryPoint, GraphLog, Node};
use crate::graph_layer::{layer_eq, GraphLayer};
use crate::util::{keep, lemma_keep_contains, lemma_keep_elements, lemma_keep_take_full, lemma_keep_take_step, lemma_keep_unique_proj};
use vstd::string::StrSliceExecFns;

verus! {

/// Keys of the key→node map are unique, compared as character sequences.
pub open spec fn km_wf(m: Seq<(String, Node)>) -> bool {
    forall|i: int, j: int|
        0 <= i < j < m.len() ==> (#[trigger] m[i]).0@ != (#[trigger] m[j]).0@
}

pub open spec fn km_has(m: Seq<(String, Node)>, k: Seq<char>) -> bool {
    exists|i: int| 0 <= i < m.len() && (#[trigger] m[i]).0@ == k
}

/// The node a key maps to; meaningful under `km_wf` when `km_has` holds.
pub open spec fn km_at(m: Seq<(String, Node)>, k: Seq<char>) -> Node {
    m[choose|i: int| 0 <= i < m.len() && (#[trigger] m[i]).0@ == k].1
}

/// Under `km_wf`, the entry at any index whose key matches is the entry
/// `km_at` denotes.
pub proof fn lemma_km_at(m: Seq<(String, Node)>, k: Seq<char>, i: int)
    requires
        km_wf(m),
        0 <= i < m.len(),
        m[i].0@ == k,
    ensures
        km_has(m, k),
        km_at(m, k) == m[i].1,
{
    assert(km_has(m, k));
    let j = choose|j: int| 0 <= j < m.len() && (#[trigger] m[j]).0@ == k;
    if i < j {
        assert(m[i].0@ != m[j].0@);
    } else if j < i {
        assert(m[j].0@ != m[i].0@);
    }
}

pub open spec fn lbl_has(ls: Seq<(String, String)>, k: Seq<char>, l: Seq<char>) -> bool {
    exists|i: int| 0 <= i < ls.len() && (#[trigger] ls[i]).0@ == k && ls[i].1@ == l
}

/// Strict lexicographic order on character sequences, by code point; a
/// proper prefix precedes its extensions.
pub open spec fn lex_lt(a: Seq<char>, b: Seq<char>) -> bool
    decreases a.len(),
{
    if b.len() == 0 {
        false
    } else if a.len() == 0 {
        true
    } else if (a[0] as u32) < (b[0] as u32) {
        true
    } else if (a[0] as u32) > (b[0] as u32) {
        false
    } else {
        lex_lt(a.skip(1), b.skip(1))
    }
}

/// Of two distinct sequences, exactly one precedes the other; no sequence
/// precedes itself.
pub proof fn lemma_lex_trichotomy(a: Seq<char>, b: Seq<char>)
    ensures
        a == b ==> !lex_lt(a, b),
        a != b ==> (lex_lt(a, b) <==> !lex_lt(b, a)),
    decreases a.len(),
{
    if a.len() == 0 || b.len() == 0 {
        if a.len() == b.len() {
            assert(a =~= b);
        }
    } else {
        vstd::utf8::char_u32_cast(a[0], a[0] as u32);
        vstd::utf8::char_u32_cast(b[0], b[0] as u32);
        lemma_lex_trichotomy(a.skip(1), b.skip(1));
        if a[0] as u32 == b[0] as u32 {
            assert(a[0] == b[0]);
            if a.skip(1) == b.skip(1) {
                assert forall|j: int| 0 <= j < a.len() implies a[j] == b[j] by {
                    if j > 0 {
                        assert(a[j] == a.skip(1)[j - 1]);
                        assert(b[j] == b.skip(1)[j - 1]);
                    }
                }
                assert(a =~= b);
            } else {
                assert(a != b) by {
                    if a == b {
                        assert(a.skip(1) =~= b.skip(1));
                    }
                }
            }
        } else {
            assert(a[0] != b[0]);
            assert(a != b);
        }
    }
}

/// Strict lexicographic order is transitive.
pub proof fn lemma_lex_trans(a: Seq<char>, b: Seq<char>, c: Seq<char>)
    requires
        lex_lt(a, b),
        lex_lt(b, c),
    ensures
        lex_lt(a, c),
    decreases a.len(),
{
    if a.len() > 0 && b.len() > 0 && c.len() > 0 {
        if a[0] as u32 == b[0] as u32 && b[0] as u32 == c[0] as u32 {
            lemma_lex_trans(a.skip(1), b.skip(1), c.skip(1));
        }
    }
}

/// When two sequences agree on their first `i` characters, their order is
/// the order of what follows.
pub proof fn lemma_lex_lt_skip(a: Seq<char>, b: Seq<char>, i: int)
    requires
        0 <= i <= a.len(),
        i <= b.len(),
        forall|j: int| 0 <= j < i ==> a[j] == b[j],
    ensures
        lex_lt(a, b) == lex_lt(a.skip(i), b.skip(i)),
    decreases i,
{
    if i == 0 {
        assert(a.skip(0) =~= a);
        assert(b.skip(0) =~= b);
    } else {
        assert(a.len() > 0 && b.len() > 0);
        assert(a[0] == b[0]);
        assert(forall|j: int| 0 <= j < i - 1 ==> #[trigger] a.skip(1)[j] == b.skip(1)[j]);
        lemma_lex_lt_skip(a.skip(1), b.skip(1), i - 1);
        assert(a.skip(1).skip(i - 1) =~= a.skip(i));
        assert(b.skip(1).skip(i - 1) =~= b.skip(i));
    }
}

/// Whether `a` precedes `b` in strict lexicographic order.
#[verifier::loop_isolation(false)]
pub fn str_lt(a: &str, b: &str) -> (r: bool)
    ensures
        r == lex_lt(a@, b@),
{
    let an = a.unicode_len();
    let bn = b.unicode_len();
    let mut i: usize = 0;
    while i < an && i < bn
        invariant
            i <= an,
            i <= bn,
            forall|j: int| 0 <= j < i ==> a@[j] == b@[j],
        decreases an - i,
    {
        let ca = a.get_char(i);
        let cb = b.get_char(i);
        if (ca as u32) < (cb as u32) {
            proof {
                lemma_lex_lt_skip(a@, b@, i as int);
                assert(a@.skip(i as int)[0] == ca && b@.skip(i as int)[0] == cb);
            }
            return true;
        }
        if (ca as u32) > (cb as u32) {
            proof {
                lemma_lex_lt_skip(a@, b@, i as int);
                assert(a@.skip(i as int)[0] == ca && b@.skip(i as int)[0] == cb);
            }
            return false;
        }
        proof {
            vstd::utf8::char_u32_cast(ca, ca as u32);
            vstd::utf8::char_u32_cast(cb, cb as u32);
            assert(ca == cb);
        }
        i += 1;
    }
    proof {
        lemma_lex_lt_skip(a@, b@, i as int);
        if i == an && i < bn {
            assert(a@.skip(i as int).len() == 0 && b@.skip(i as int).len() > 0);
        } else {
            assert(b@.skip(i as int).len() == 0);
        }
    }
    an < bn
}

/// What an enumeration of the keys sharing a prefix must deliver: strictly
/// ascending order — so no duplicates — and exactly the matching keys of
/// the map, no extras and none missing.
pub open spec fn prefixed_result_ok(m: Seq<(String, Node)>, p: Seq<char>, r: Seq<String>) -> bool {
    &&& forall|i: int, j: int| 0 <= i < j < r.len() ==> lex_lt((#[trigger] r[i])@, (#[trigger] r[j])@)
    &&& forall|i: int|
        0 <= i < r.len() ==> is_prefix(p, (#[trigger] r[i])@) && km_has(m, r[i]@)
    &&& forall|j: int|
        0 <= j < m.len() && is_prefix(p, (#[trigger] m[j]).0@) ==> exists|i: int|
            0 <= i < r.len() && (#[trigger] r[i])@ == m[j].0@
}

/// `p` is an initial run of `s`.
pub open spec fn is_prefix(p: Seq<char>, s: Seq<char>) -> bool {
    p.len() <= s.len() && s.take(p.len() as int) == p
}

/// Whether `s` starts with `p`, character by character.
#[verifier::loop_isolation(false)]
pub fn str_has_prefix(s: &str, p: &str) -> (r: bool)
    ensures
        r == is_prefix(p@, s@),
{
    let sl = s.unicode_len();
    let pl = p.unicode_len();
    if pl > sl {
        assert(!is_prefix(p@, s@));
        return false;
    }
    let mut i: usize = 0;
    while i < pl
        invariant
            i <= pl,
            forall|j: int| 0 <= j < i ==> s@[j] == p@[j],
        decreases pl - i,
    {
        if s.get_char(i) != p.get_char(i) {
            assert(s@.take(pl as int)[i as int] != p@[i as int]);
            return false;
        }
        i += 1;
    }
    proof {
        assert(s@.take(pl as int) =~= p@);
    }
    true
}

/// The key→node entries whose key is not `k`.
pub open spec fn key_not(k: Seq<char>) -> spec_fn((String, Node)) -> bool {
    |e: (String, Node)| e.0@ != k
}

/// The key→node entries whose node is not `x`.
pub open spec fn node_not(x: Node) -> spec_fn((String, Node)) -> bool {
    |e: (String, Node)| e.1 != x
}

/// The in-memory image of the metadata store.
#[derive(Debug)]
pub struct MetaStore {
    pub keymap: Vec<(String, Node)>,
    pub labels: Vec<(String, String)>,
    pub layers_out: Vec<GraphLayer>,
    pub layers_in: Vec<GraphLayer>,
    pub tombstones: Vec<Node>,
    pub log: GraphLog,
}

impl MetaStore {
    /// The unchanged-keyspaces shorthand used below.
    pub open spec fn same_labels(self, other: MetaStore) -> bool {
        self.labels@ == other.labels@
    }

    pub open spec fn same_layers(self, other: MetaStore) -> bool {
        self.layers_out@ == other.layers_out@ && self.layers_in@ == other.layers_in@
    }

    /// An empty store: no keys, no labels, no layers, no tombstones, and a
    /// log at version zero with no entry point.
    pub fn create() -> (r: MetaStore)
        ensures
            r.keymap@ == Seq::<(String, Node)>::empty(),
            r.labels@ == Seq::<(String, String)>::empty(),
            r.layers_out@ == Seq::<GraphLayer>::empty(),
            r.layers_in@ == Seq::<GraphLayer>::empty(),
            r.tombstones@ == Seq::<Node>::empty(),
            r.log == (GraphLog { entry_point: None::<EntryPoint>, max_layer: 0, version_number: 0 }),
    {
        MetaStore {
            keymap: Vec::new(),
            labels: Vec::new(),
            layers_out: Vec::new(),
            layers_in: Vec::new(),
            tombstones: Vec::new(),
            log: GraphLog { entry_point: None, max_layer: 0, version_number: 0 },
        }
    }

    /// The position of a key in the key→node map, if present.
    fn find_key_index(&self, key: &str) -> (r: Option<usize>)
        ensures
            match r {
                Some(i) => i < self.keymap@.len() && self.keymap@[i as int].0@ == key@,
                None => !km_has(self.keymap@, key@),
            },
    {
        let key_owned = key.to_owned();
        let mut i: usize = 0;
        while i < self.keymap.len()
            invariant
                i <= self.keymap.len(),
                key_owned@ == key@,
                forall|j: int| 0 <= j < i ==> (#[trigger] self.keymap@[j]).0@ != key@,
            decreases self.keymap.len() - i,
        {
            if self.keymap[i].0 == key_owned {
                return Some(i);
            }
            i += 1;
        }
        None
    }

    /// Registers `key → node`, overwriting any previous binding of the key.
    pub fn add_node(&mut self, key: String, node: Node)
        requires
            km_wf(old(self).keymap@),
        ensures
            km_wf(final(self).keymap@),
            km_has(old(self).keymap@, key@) ==> exists|i: int|
                0 <= i < old(self).keymap@.len() && (#[trigger] old(self).keymap@[i]).0@ == key@
                    && final(self).keymap@ == old(self).keymap@.update(i, (key, node)),
            !km_has(old(self).keymap@, key@) ==> final(self).keymap@ == old(self).keymap@.push(
                (key, node),
            ),
            forall|k: Seq<char>|
                #[trigger] km_has(final(self).keymap@, k) <==> km_has(old(self).keymap@, k) || k
                    == key@,
            km_at(final(self).keymap@, key@) == node,
            forall|k: Seq<char>|
                k != key@ && #[trigger] km_has(old(self).keymap@, k) ==> km_at(
                    final(self).keymap@,
                    k,
                ) == km_at(old(self).keymap@, k),
            final(self).same_labels(*old(self)),
            final(self).same_layers(*old(self)),
            final(self).tombstones@ == old(self).tombstones@,
            final(self).log == old(self).log,
    {
        let ghost pre = self.keymap@;
        let at = self.find_key_index(key.as_str());
        let ghost slot: int = match at {
            Some(i) => i as int,
            None => pre.len() as int,
        };
        match at {
            Some(i) => {
                self.keymap.set(i, (key, node));
                assert(self.keymap@ == pre.update(i as int, self.keymap@[i as int]));
            },
            None => {
                self.keymap.push((key, node));
            },
        }
        proof {
            let cur = self.keymap@;
            assert(cur[slot].0@ == key@ && cur[slot].1 == node);
            assert(km_wf(cur)) by {
                assert forall|i: int, j: int| 0 <= i < j < cur.len() implies (
                #[trigger] cur[i]).0@ != (#[trigger] cur[j]).0@ by {
                    if i != slot && j != slot {
                        assert(cur[i] == pre[i] && cur[j] == pre[j]);
                    } else if i == slot {
                        assert(cur[j] == pre[j]);
                        if at is Some {
                            assert(pre[slot].0@ == key@);
                        }
                    } else {
                        assert(cur[i] == pre[i]);
                        if at is Some {
                            assert(pre[slot].0@ == key@);
                        }
                    }
                }
            }
            lemma_km_at(cur, key@, slot);
            assert forall|k: Seq<char>| #[trigger]
                km_has(cur, k) <==> km_has(pre, k) || k == key@ by {
                if km_has(cur, k) {
                    let i = choose|i: int| 0 <= i < cur.len() && (#[trigger] cur[i]).0@ == k;
                    if i != slot {
                        assert(pre[i].0@ == k);
                        assert(km_has(pre, k));
                    }
                }
                if km_has(pre, k) {
                    let i = choose|i: int| 0 <= i < pre.len() && (#[trigger] pre[i]).0@ == k;
                    if i != slot {
                        assert(cur[i].0@ == k);
                        assert(km_has(cur, k));
                    } else {
                        assert(at is Some && pre[slot].0@ == key@);
                    }
                }
            }
            assert forall|k: Seq<char>|
                k != key@ && #[trigger] km_has(pre, k) implies km_at(cur, k) == km_at(pre, k) by {
                let i = choose|i: int| 0 <= i < pre.len() && (#[trigger] pre[i]).0@ == k;
                if at is Some {
                    assert(pre[slot].0@ == key@);
                }
                assert(i != slot);
                assert(cur[i] == pre[i]);
                lemma_km_at(cur, k, i);
                lemma_km_at(pre, k, i);
            }
        }
    }

    /// Looks a key up in the key→node map.
    pub fn get_node(&self, key: &str) -> (r: Option<Node>)
        requires
            km_wf(self.keymap@),
        ensures
            r is Some <==> km_has(self.keymap@, key@),
            r matches Some(n) ==> n == km_at(self.keymap@, key@),
    {
        match self.find_key_index(key) {
            Some(i) => {
                proof {
                    lemma_km_at(self.keymap@, key@, i as int);
                }
                Some(self.keymap[i].1)
            },
            None => None,
        }
    }

    /// Removes a key's binding, if any.
    #[verifier::loop_isolation(false)]
    pub fn remove_vector(&mut self, key: &str)
        requires
            km_wf(old(self).keymap@),
        ensures
            km_wf(final(self).keymap@),
            final(self).keymap@ == keep(old(self).keymap@, key_not(key@)),
            !km_has(final(self).keymap@, key@),
            forall|k: Seq<char>|
                k != key@ ==> (#[trigger] km_has(final(self).keymap@, k) <==> km_has(
                    old(self).keymap@,
                    k,
                )),
            forall|k: Seq<char>|
                k != key@ && #[trigger] km_has(old(self).keymap@, k) ==> km_at(
                    final(self).keymap@,
                    k,
                ) == km_at(old(self).keymap@, k),
            final(self).same_labels(*old(self)),
            final(self).same_layers(*old(self)),
            final(self).tombstones@ == old(self).tombstones@,
            final(self).log == old(self).log,
    {
        let ghost pre = self.keymap@;
        let ghost p = key_not(key@);
        let key_owned = key.to_owned();
        let mut out: Vec<(String, Node)> = Vec::new();
        let mut i: usize = 0;
        while i < self.keymap.len()
            invariant
                i <= self.keymap@.len(),
                self.keymap@ == pre,
                key_owned@ == key@,
                out@ == keep(pre.take(i as int), p),
            decreases self.keymap@.len() - i,
        {
            proof {
                lemma_keep_take_step(pre, p, i as int);
            }
            let matches_key = self.keymap[i].0 == key_owned;
            if !matches_key {
                let entry_key = self.keymap[i].0.clone();
                let entry_node = self.keymap[i].1;
                proof {
                    assert(entry_key == pre[i as int].0 && entry_node == pre[i as int].1);
                    assert((entry_key, entry_node) =~= pre[i as int]);
                }
                out.push((entry_key, entry_node));
                assert(out@ =~= keep(pre.take(i + 1), p));
            }
            i += 1;
        }
        proof {
            lemma_keep_take_full(pre, p);
        }
        self.keymap = out;
        proof {
            let cur = self.keymap@;
            lemma_keep_elements(pre, p);
            assert(km_wf(cur)) by {
                assert forall|a: int, b: int| 0 <= a < b < cur.len() implies (
                #[trigger] cur[a]).0@ != (#[trigger] cur[b]).0@ by {
                    lemma_keep_unique_proj(pre, p, (|e: (String, Node)| e.0@), a, b);
                }
            }
            assert(!km_has(cur, key@)) by {
                if km_has(cur, key@) {
                    let i = choose|i: int| 0 <= i < cur.len() && (#[trigger] cur[i]).0@ == key@;
                    assert(p(cur[i]));
                }
            }
            assert forall|k: Seq<char>|
                k != key@ implies (#[trigger] km_has(cur, k) <==> km_has(pre, k)) by {
                if km_has(cur, k) {
                    let i = choose|i: int| 0 <= i < cur.len() && (#[trigger] cur[i]).0@ == k;
                    assert(pre.contains(cur[i]));
                    let j = choose|j: int| 0 <= j < pre.len() && pre[j] == cur[i];
                    assert(pre[j].0@ == k);
                }
                if km_has(pre, k) {
                    let i = choose|i: int| 0 <= i < pre.len() && (#[trigger] pre[i]).0@ == k;
                    lemma_keep_contains(pre, p, pre[i]);
                    let j = choose|j: int| 0 <= j < cur.len() && cur[j] == pre[i];
                    assert(cur[j].0@ == k);
                }
            }
            assert forall|k: Seq<char>|
                k != key@ && #[trigger] km_has(pre, k) implies km_at(cur, k) == km_at(pre, k) by {
                let i = choose|i: int| 0 <= i < pre.len() && (#[trigger] pre[i]).0@ == k;
                lemma_km_at(pre, k, i);
                lemma_keep_contains(pre, p, pre[i]);
                let j = choose|j: int| 0 <= j < cur.len() && cur[j] == pre[i];
                lemma_km_at(cur, k, j);
            }
        }
    }

    /// The keys that start with `prefix`, as a sorted ascending
    /// enumeration: each matching key once, in strict lexicographic order.
    #[verifier::loop_isolation(false)]
    #[verifier::rlimit(100)]
    pub fn get_prefixed(&self, prefix: &str) -> (r: Vec<String>)
        requires
            km_wf(self.keymap@),
        ensures
            prefixed_result_ok(self.keymap@, prefix@, r@),
    {
        let ghost km = self.keymap@;
        let mut out: Vec<String> = Vec::new();
        let mut i: usize = 0;
        while i < self.keymap.len()
            invariant
                i <= km.len(),
                forall|a: int, b: int|
                    0 <= a < b < out@.len() ==> lex_lt((#[trigger] out@[a])@, (#[trigger] out@[b])@),
                forall|a: int|
                    0 <= a < out@.len() ==> is_prefix(prefix@, (#[trigger] out@[a])@) && (exists|
                        j: int,
                    | 0 <= j < i && (#[trigger] km[j]).0@ == out@[a]@),
                forall|j: int|
                    0 <= j < i && is_prefix(prefix@, (#[trigger] km[j]).0@) ==> exists|a: int|
                        0 <= a < out@.len() && (#[trigger] out@[a])@ == km[j].0@,
            decreases km.len() - i,
        {
            if str_has_prefix(self.keymap[i].0.as_str(), prefix) {
                let key = self.keymap[i].0.clone();
                let mut pos: usize = 0;
                while pos < out.len() && str_lt(out[pos].as_str(), key.as_str())
                    invariant
                        pos <= out@.len(),
                        key@ == km[i as int].0@,
                        forall|a: int| 0 <= a < pos ==> lex_lt((#[trigger] out@[a])@, key@),
                    decreases out@.len() - pos,
                {
                    pos += 1;
                }
                proof {
                    // the key is new to the result: every element so far came
                    // from an earlier entry, and keys are unique
                    assert forall|a: int| 0 <= a < out@.len() implies (#[trigger] out@[a])@
                        != key@ by {
                        let j = choose|j: int| 0 <= j < i && (#[trigger] km[j]).0@ == out@[a]@;
                        assert(km[j].0@ != km[i as int].0@);
                    }
                    // everything from the insertion point on is strictly greater
                    assert forall|a: int| pos <= a < out@.len() implies lex_lt(
                        key@,
                        (#[trigger] out@[a])@,
                    ) by {
                        lemma_lex_trichotomy(out@[pos as int]@, key@);
                        assert(lex_lt(key@, out@[pos as int]@));
                        if a > pos {
                            lemma_lex_trans(key@, out@[pos as int]@, out@[a]@);
                        }
                    }
                }
                let ghost pre_out = out@;
                out.insert(pos, key);
                proof {
                    assert(out@ == pre_out.insert(pos as int, key));
                    assert(out@.len() == pre_out.len() + 1);
                    assert forall|a: int| 0 <= a < out@.len() implies (if a < pos {
                        out@[a] == pre_out[a]
                    } else if a == pos {
                        out@[a] == key
                    } else {
                        out@[a] == pre_out[a - 1]
                    }) by {
                        pre_out.insert_ensures(pos as int, key);
                    }
                    assert forall|a: int, b: int|
                        0 <= a < b < out@.len() implies lex_lt(
                        (#[trigger] out@[a])@,
                        (#[trigger] out@[b])@,
                    ) by {}
                    assert forall|j: int|
                        0 <= j < i + 1 && is_prefix(prefix@, (#[trigger] km[j]).0@) implies exists|
                        a: int,
                    | 0 <= a < out@.len() && (#[trigger] out@[a])@ == km[j].0@ by {
                        if j == i {
                            assert(out@[pos as int]@ == km[j].0@);
                        } else {
                            let a0 = choose|a: int|
                                0 <= a < pre_out.len() && (#[trigger] pre_out[a])@ == km[j].0@;
                            if a0 < pos {
                                assert(out@[a0]@ == km[j].0@);
                            } else {
                                assert(out@[a0 + 1]@ == km[j].0@);
                            }
                        }
                    }
                }
            } else {
                proof {
                    assert(!is_prefix(prefix@, km[i as int].0@));
                }
            }
            i += 1;
        }
        out
    }

    /// Associates a label with a key; duplicates collapse.
    pub fn add_label(&mut self, key: String, label: String)
        ensures
            forall|k: Seq<char>, l: Seq<char>|
                #[trigger] lbl_has(final(self).labels@, k, l) <==> lbl_has(old(self).labels@, k, l)
                    || (k == key@ && l == label@),
            final(self).keymap@ == old(self).keymap@,
            final(self).same_layers(*old(self)),
            final(self).tombstones@ == old(self).tombstones@,
            final(self).log == old(self).log,
    {
        if self.has_label(key.as_str(), label.as_str()) {
            proof {
                assert forall|k: Seq<char>, l: Seq<char>| #[trigger]
                    lbl_has(self.labels@, k, l) <==> lbl_has(self.labels@, k, l) || (k == key@ && l
                    == label@) by {
                    if k == key@ && l == label@ {
                        assert(lbl_has(self.labels@, k, l));
                    }
                }
            }
            return ;
        }
        let ghost pre = self.labels@;
        self.labels.push((key, label));
        proof {
            let cur = self.labels@;
            assert(cur[cur.len() - 1].0@ == key@ && cur[cur.len() - 1].1@ == label@);
            assert forall|k: Seq<char>, l: Seq<char>| #[trigger]
                lbl_has(cur, k, l) <==> lbl_has(pre, k, l) || (k == key@ && l == label@) by {
                if lbl_has(cur, k, l) {
                    let i = choose|i: int|
                        0 <= i < cur.len() && (#[trigger] cur[i]).0@ == k && cur[i].1@ == l;
                    if i < cur.len() - 1 {
                        assert(pre[i].0@ == k && pre[i].1@ == l);
                        assert(lbl_has(pre, k, l));
                    }
                }
                if lbl_has(pre, k, l) {
                    let i = choose|i: int|
                        0 <= i < pre.len() && (#[trigger] pre[i]).0@ == k && pre[i].1@ == l;
                    assert(cur[i].0@ == k && cur[i].1@ == l);
                    assert(lbl_has(cur, k, l));
                }
            }
        }
    }

    /// Whether a label is associated with a key.
    pub fn has_label(&self, key: &str, label: &str) -> (r: bool)
        ensures
            r == lbl_has(self.labels@, key@, label@),
    {
        let key_owned = key.to_owned();
        let label_owned = label.to_owned();
        let mut i: usize = 0;
        while i < self.labels.len()
            invariant
                i <= self.labels@.len(),
                key_owned@ == key@,
                label_owned@ == label@,
                forall|j: int|
                    0 <= j < i ==> !((#[trigger] self.labels@[j]).0@ == key@ && self.labels@[j].1@
                        == label@),
            decreases self.labels@.len() - i,
        {
            if self.labels[i].0 == key_owned && self.labels[i].1 == label_owned {
                assert(lbl_has(self.labels@, key@, label@)) by {
                    assert((#[trigger] self.labels@[i as int]).0@ == key@ && self.labels@[
                        i as int].1@ == label@);
                }
                return true;
            }
            i += 1;
        }
        false
    }

    /// Whether any key maps to the given node.
    pub fn has_node_value(&self, x: Node) -> (r: bool)
        ensures
            r == exists|j: int| 0 <= j < self.keymap@.len() && (#[trigger] self.keymap@[j]).1 == x,
    {
        let mut i: usize = 0;
        while i < self.keymap.len()
            invariant
                i <= self.keymap@.len(),
                forall|j: int| 0 <= j < i ==> (#[trigger] self.keymap@[j]).1 != x,
            decreases self.keymap@.len() - i,
        {
            if self.keymap[i].1 == x {
                assert((#[trigger] self.keymap@[i as int]).1 == x);
                return true;
            }
            i += 1;
        }
        false
    }

    /// Stores the out-layer at position `i`: overwrites, or appends when `i`
    /// is the first free slot.
    pub fn insert_layer_out(&mut self, i: usize, layer: GraphLayer)
        requires
            i <= old(self).layers_out@.len(),
        ensures
            final(self).layers_out@ == if i < old(self).layers_out@.len() {
                old(self).layers_out@.update(i as int, layer)
            } else {
                old(self).layers_out@.push(layer)
            },
            final(self).layers_in@ == old(self).layers_in@,
            final(self).keymap@ == old(self).keymap@,
            final(self).same_labels(*old(self)),
            final(self).tombstones@ == old(self).tombstones@,
            final(self).log == old(self).log,
    {
        if i < self.layers_out.len() {
            self.layers_out.set(i, layer);
        } else {
            self.layers_out.push(layer);
        }
    }

    /// Stores the in-layer at position `i`, as `insert_layer_out` does.
    pub fn insert_layer_in(&mut self, i: usize, layer: GraphLayer)
        requires
            i <= old(self).layers_in@.len(),
        ensures
            final(self).layers_in@ == if i < old(self).layers_in@.len() {
                old(self).layers_in@.update(i as int, layer)
            } else {
                old(self).layers_in@.push(layer)
            },
            final(self).layers_out@ == old(self).layers_out@,
            final(self).keymap@ == old(self).keymap@,
            final(self).same_labels(*old(self)),
            final(self).tombstones@ == old(self).tombstones@,
            final(self).log == old(self).log,
    {
        if i < self.layers_in.len() {
            self.layers_in.set(i, layer);
        } else {
            self.layers_in.push(layer);
        }
    }

    /// A copy of the stored out-layer at `i`, if stored.
    pub fn get_layer_out(&self, i: usize) -> (r: Option<GraphLayer>)
        ensures
            r is Some <==> i < self.layers_out@.len(),
            r matches Some(l) ==> layer_eq(l, self.layers_out@[i as int]),
    {
        if i < self.layers_out.len() {
            Some(self.layers_out[i].clone())
        } else {
            None
        }
    }

    /// A copy of the stored in-layer at `i`, if stored.
    pub fn get_layer_in(&self, i: usize) -> (r: Option<GraphLayer>)
        ensures
            r is Some <==> i < self.layers_in@.len(),
            r matches Some(l) ==> layer_eq(l, self.layers_in@[i as int]),
    {
        if i < self.layers_in.len() {
            Some(self.layers_in[i].clone())
        } else {
            None
        }
    }

    /// Records a tombstone batch: nodes whose deletion the given version has
    /// made durable, awaiting reclamation.
    #[verifier::loop_isolation(false)]
    pub fn marked_deleted(&mut self, version: u128, nodes: &Vec<Node>)
        ensures
            final(self).tombstones@ == old(self).tombstones@ + nodes@,
            final(self).keymap@ == old(self).keymap@,
            final(self).same_labels(*old(self)),
            final(self).same_layers(*old(self)),
            final(self).log == old(self).log,
    {
        // The queue drains as a whole at garbage-collection time, so batches
        // are stored flattened; `version` records when the batch became
        // eligible and is not needed to drain it.
        let _ = version;
        let ghost pre = self.tombstones@;
        let mut i: usize = 0;
        while i < nodes.len()
            invariant
                i <= nodes@.len(),
                self.tombstones@ == pre + nodes@.take(i as int),
                self.keymap@ == old(self).keymap@,
                self.labels@ == old(self).labels@,
                self.layers_out@ == old(self).layers_out@,
                self.layers_in@ == old(self).layers_in@,
                self.log == old(self).log,
            decreases nodes@.len() - i,
        {
            self.tombstones.push(nodes[i]);
            proof {
                assert(pre + nodes@.take(i + 1) =~= (pre + nodes@.take(i as int)).push(
                    nodes@[i as int],
                ));
            }
            i += 1;
        }
        proof {
            assert(pre + nodes@.take(nodes@.len() as int) =~= pre + nodes@);
        }
    }

    /// Drains the whole tombstone queue and hands it to the caller.
    #[verifier::loop_isolation(false)]
    pub fn clear_deleted(&mut self) -> (r: Vec<Node>)
        ensures
            r@ == old(self).tombstones@,
            final(self).tombstones@ == Seq::<Node>::empty(),
            final(self).keymap@ == old(self).keymap@,
            final(self).same_labels(*old(self)),
            final(self).same_layers(*old(self)),
            final(self).log == old(self).log,
    {
        let mut out: Vec<Node> = Vec::new();
        let mut i: usize = 0;
        while i < self.tombstones.len()
            invariant
                i <= self.tombstones@.len(),
                out@ == self.tombstones@.take(i as int),
            decreases self.tombstones@.len() - i,
        {
            out.push(self.tombstones[i]);
            i += 1;
        }
        proof {
            assert(out@ =~= self.tombstones@);
        }
        self.tombstones = Vec::new();
        out
    }

    /// The current commit record.
    pub fn get_log(&self) -> (r: GraphLog)
        ensures
            r == self.log,
    {
        self.log
    }

    /// Replaces the commit record.
    pub fn insert_log(&mut self, log: GraphLog)
        ensures
            final(self).log == log,
            final(self).keymap@ == old(self).keymap@,
            final(self).same_labels(*old(self)),
            final(self).same_layers(*old(self)),
            final(self).tombstones@ == old(self).tombstones@,
    {
        self.log = log;
    }
}

} // verus!
