//! The keydir: the in-memory index from key bytes to the locator of the
//! key's current value on disk.

use vstd::prelude::*;

verus! {

use crate::endian::{spec_u128_to_le_bytes, u128_to_le_bytes};
use vstd::bytes::{spec_u64_to_le_bytes, u64_to_le_bytes};
use vstd::slice::slice_to_vec;

/// Identifies one segment: the timestamp its name carries, plus a sequence
/// number distinguishing merge outputs derived from the same base segment
/// (zero for segments created by the write path).
#[derive(Clone, Copy, PartialEq, Eq, Structural)]
pub struct SegmentId {
    pub ts: u128,
    pub seq: u128,
}

/// The order of segment names in the store directory.
pub open spec fn id_lt(a: SegmentId, b: SegmentId) -> bool {
    a.ts < b.ts || (a.ts == b.ts && a.seq < b.seq)
}

/// A locator: where the current value of a key lives.
#[derive(Clone, Copy, PartialEq, Eq, Structural)]
pub struct Item {
    pub file_id: SegmentId,
    pub val_sz: usize,
    pub val_pos: u64,
    pub ts: u128,
}

/// The encoding of one hint record:
/// `timestamp (16) | key_size (8) | value_size (8) | value_offset (8) | key`.
pub open spec fn spec_hint_bytes(key: Seq<u8>, val_sz: u64, val_pos: u64, ts: u128) -> Seq<u8> {
    spec_u128_to_le_bytes(ts) + spec_u64_to_le_bytes(key.len() as u64) + spec_u64_to_le_bytes(
        val_sz,
    ) + spec_u64_to_le_bytes(val_pos) + key
}

impl Item {
    /// Encode this locator as a hint record for `key`.
    pub fn serialize_as_hint(&self, key: &[u8]) -> (r: Vec<u8>)
        ensures
            r@ == spec_hint_bytes(key@, self.val_sz as u64, self.val_pos, self.ts),
    {
        let mut r = u128_to_le_bytes(self.ts);
        let mut ks = u64_to_le_bytes(key.len() as u64);
        let mut vs = u64_to_le_bytes(self.val_sz as u64);
        let mut vp = u64_to_le_bytes(self.val_pos);
        r.append(&mut ks);
        r.append(&mut vs);
        r.append(&mut vp);
        let mut k = slice_to_vec(key);
        r.append(&mut k);
        r
    }
}

/// The keydir proper: an association list from key bytes to locators, with
/// each key held at most once.
pub struct KeyDir {
    pub data: Vec<(Vec<u8>, Item)>,
}

/// The map an association list denotes; later entries win.
pub open spec fn assoc_view(s: Seq<(Vec<u8>, Item)>) -> Map<Seq<u8>, Item>
    decreases s.len(),
{
    if s.len() == 0 {
        Map::empty()
    } else {
        assoc_view(s.drop_last()).insert(s.last().0@, s.last().1)
    }
}

impl View for KeyDir {
    type V = Map<Seq<u8>, Item>;

    open spec fn view(&self) -> Map<Seq<u8>, Item> {
        assoc_view(self.data@)
    }
}

/// Every key of `assoc_view` appears in the list and vice versa.
proof fn lemma_assoc_dom(s: Seq<(Vec<u8>, Item)>)
    ensures
        forall|k: Seq<u8>|
            assoc_view(s).contains_key(k) <==> exists|i: int|
                0 <= i < s.len() && #[trigger] s[i].0@ == k,
    decreases s.len(),
{
    if s.len() > 0 {
        lemma_assoc_dom(s.drop_last());
        assert forall|k: Seq<u8>| assoc_view(s).contains_key(k) implies exists|i: int|
            0 <= i < s.len() && #[trigger] s[i].0@ == k by {
            if k == s.last().0@ {
                assert(s[s.len() - 1].0@ == k);
            } else {
                assert(assoc_view(s.drop_last()).contains_key(k));
                assert(exists|i: int|
                    0 <= i < s.drop_last().len() && #[trigger] s.drop_last()[i].0@ == k);
                let i = choose|i: int| 0 <= i < s.drop_last().len() && #[trigger] s.drop_last()[i].0@
                    == k;
                assert(s.drop_last()[i] == s[i]);
                assert(s[i].0@ == k);
            }
        }
        assert forall|k: Seq<u8>|
            (exists|i: int| 0 <= i < s.len() && #[trigger] s[i].0@ == k) implies assoc_view(
            s,
        ).contains_key(k) by {
            let i = choose|i: int| 0 <= i < s.len() && #[trigger] s[i].0@ == k;
            if i < s.len() - 1 {
                assert(s.drop_last()[i].0@ == k);
                assert(exists|j: int|
                    0 <= j < s.drop_last().len() && #[trigger] s.drop_last()[j].0@ == k);
                assert(assoc_view(s.drop_last()).contains_key(k));
            } else {
                assert(k == s.last().0@);
            }
        }
    }
}

/// With distinct keys, the list entry at any index is the map's entry.
proof fn lemma_assoc_at(s: Seq<(Vec<u8>, Item)>, i: int)
    requires
        forall|a: int, b: int|
            0 <= a < b < s.len() ==> #[trigger] s[a].0@ != #[trigger] s[b].0@,
        0 <= i < s.len(),
    ensures
        assoc_view(s).contains_key(s[i].0@),
        assoc_view(s)[s[i].0@] == s[i].1,
    decreases s.len(),
{
    if i == s.len() - 1 {
    } else {
        lemma_assoc_at(s.drop_last(), i);
        assert(s.drop_last()[i] == s[i]);
        assert(s[i].0@ != s[s.len() - 1].0@);
    }
}

/// Updating the entry at `i` updates the map entry for its key.
proof fn lemma_assoc_update(s: Seq<(Vec<u8>, Item)>, i: int, kv: (Vec<u8>, Item))
    requires
        forall|a: int, b: int|
            0 <= a < b < s.len() ==> #[trigger] s[a].0@ != #[trigger] s[b].0@,
        0 <= i < s.len(),
        kv.0@ == s[i].0@,
    ensures
        assoc_view(s.update(i, kv)) == assoc_view(s).insert(kv.0@, kv.1),
    decreases s.len(),
{
    let t = s.update(i, kv);
    if i == s.len() - 1 {
        assert(t.drop_last() =~= s.drop_last());
        assert(assoc_view(t) == assoc_view(s.drop_last()).insert(kv.0@, kv.1));
        assert(assoc_view(s).insert(kv.0@, kv.1) =~= assoc_view(s.drop_last()).insert(
            kv.0@,
            kv.1,
        ));
    } else {
        lemma_assoc_update(s.drop_last(), i, kv);
        assert(t.drop_last() =~= s.drop_last().update(i, kv));
        assert(t.last() == s.last());
        assert(kv.0@ != s.last().0@);
        assert(assoc_view(t) == assoc_view(s.drop_last()).insert(kv.0@, kv.1).insert(
            s.last().0@,
            s.last().1,
        ));
        assert(assoc_view(s.drop_last()).insert(kv.0@, kv.1).insert(s.last().0@, s.last().1)
            =~= assoc_view(s).insert(kv.0@, kv.1));
    }
}

/// Compare two byte strings.
pub fn bytes_eq(a: &[u8], b: &[u8]) -> (r: bool)
    ensures
        r == (a@ == b@),
{
    if a.len() != b.len() {
        proof {
            assert(a@ != b@);
        }
        return false;
    }
    let n = a.len();
    let mut i: usize = 0;
    while i < n
        invariant
            n == a@.len() == b@.len(),
            0 <= i <= n,
            forall|j: int| 0 <= j < i ==> a@[j] == b@[j],
        decreases n - i,
    {
        if *vstd::slice::slice_index_get(a, i) != *vstd::slice::slice_index_get(b, i) {
            proof {
                assert(a@[i as int] != b@[i as int]);
            }
            return false;
        }
        i += 1;
    }
    proof {
        assert(a@ =~= b@);
    }
    true
}

impl KeyDir {
    /// The well-formedness of the index: no key occurs twice.
    pub open spec fn wf(&self) -> bool {
        forall|a: int, b: int|
            0 <= a < b < self.data@.len() ==> #[trigger] self.data@[a].0@
                != #[trigger] self.data@[b].0@
    }

    /// A well-formed index holds exactly one entry per key of its map.
    pub proof fn lemma_dom_len(&self)
        requires
            self.wf(),
        ensures
            self@.dom().finite(),
            self@.dom().len() == self.data@.len(),
    {
        lemma_assoc_len(self.data@);
    }

    /// An empty keydir.
    pub fn new() -> (r: KeyDir)
        ensures
            r.wf(),
            r@ == Map::<Seq<u8>, Item>::empty(),
            r.data@.len() == 0,
    {
        KeyDir { data: Vec::new() }
    }

    /// How many keys the index holds.
    pub fn len(&self) -> (r: usize)
        requires
            self.wf(),
        ensures
            r == self@.dom().len(),
    {
        proof {
            lemma_assoc_len(self.data@);
        }
        self.data.len()
    }

    /// Look up the locator of `key`.
    pub fn get(&self, key: &[u8]) -> (r: Option<Item>)
        requires
            self.wf(),
        ensures
            match r {
                Some(item) => self@.contains_key(key@) && self@[key@] == item,
                None => !self@.contains_key(key@),
            },
    {
        let n = self.data.len();
        let mut i: usize = 0;
        while i < n
            invariant
                self.wf(),
                n == self.data@.len(),
                0 <= i <= n,
                forall|j: int| 0 <= j < i ==> #[trigger] self.data@[j].0@ != key@,
            decreases n - i,
        {
            let pair = vstd::slice::slice_index_get(self.data.as_slice(), i);
            if bytes_eq(pair.0.as_slice(), key) {
                proof {
                    lemma_assoc_at(self.data@, i as int);
                }
                return Some(pair.1);
            }
            i += 1;
        }
        proof {
            lemma_assoc_dom(self.data@);
        }
        None
    }

    /// Bind `key` to `item`, replacing any previous binding.
    pub fn set(&mut self, key: Vec<u8>, item: Item)
        requires
            old(self).wf(),
        ensures
            final(self).wf(),
            final(self)@ == old(self)@.insert(key@, item),
            final(self).data@.len() == old(self).data@.len() + (if old(self)@.contains_key(
                key@,
            ) {
                0int
            } else {
                1
            }),
    {
        let n = self.data.len();
        let mut i: usize = 0;
        while i < n
            invariant
                self.wf(),
                self.data@ == old(self).data@,
                n == self.data@.len(),
                0 <= i <= n,
                forall|j: int| 0 <= j < i ==> #[trigger] self.data@[j].0@ != key@,
            decreases n - i,
        {
            let found = {
                let pair = vstd::slice::slice_index_get(self.data.as_slice(), i);
                bytes_eq(pair.0.as_slice(), key.as_slice())
            };
            if found {
                proof {
                    lemma_assoc_at(self.data@, i as int);
                    lemma_assoc_update(self.data@, i as int, (key, item));
                }
                self.data[i] = (key, item);
                proof {
                    assert(self.data@ =~= old(self).data@.update(i as int, (key, item)));
                    assert(self@ =~= old(self)@.insert(key@, item));
                }
                return ;
            }
            i += 1;
        }
        proof {
            lemma_assoc_dom(self.data@);
            assert(!assoc_view(self.data@).contains_key(key@));
        }
        self.data.push((key, item));
        proof {
            assert(self.data@.drop_last() =~= old(self).data@);
            assert forall|a: int, b: int| 0 <= a < b < self.data@.len() implies #[trigger] self
                .data@[a].0@ != #[trigger] self.data@[b].0@ by {
                if b == self.data@.len() - 1 {
                    assert(old(self).data@[a].0@ != key@);
                }
            }
        }
    }
}

/// With distinct keys, the map has exactly as many keys as the list.
proof fn lemma_assoc_len(s: Seq<(Vec<u8>, Item)>)
    requires
        forall|a: int, b: int|
            0 <= a < b < s.len() ==> #[trigger] s[a].0@ != #[trigger] s[b].0@,
    ensures
        assoc_view(s).dom().len() == s.len(),
        assoc_view(s).dom().finite(),
    decreases s.len(),
{
    if s.len() > 0 {
        lemma_assoc_len(s.drop_last());
        lemma_assoc_dom(s.drop_last());
        assert(!assoc_view(s.drop_last()).contains_key(s.last().0@));
        vstd::set::axiom_set_insert_len(assoc_view(s.drop_last()).dom(), s.last().0@);
        assert(assoc_view(s).dom() =~= assoc_view(s.drop_last()).dom().insert(s.last().0@));
    }
}

} // verus!
