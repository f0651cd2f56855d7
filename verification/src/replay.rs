//! What a sequence of segment logs denotes: folding every record of every
//! segment, in registry order, into the map from key to the locator and
//! bytes of the key's current value. The keydir is exactly this map, and
//! the store's visible contents are this map with tombstones dropped.

use vstd::prelude::*;

verus! {

use crate::files::LogV;
use crate::keydir::{Item, SegmentId};
use crate::record::{
    fully_valid, lemma_append_record, lemma_records_empty, lemma_records_within,
    spec_record_bytes, spec_records, EntryV, RecordV,
};
use crate::spec_tombstone;

/// The keydir entry a record gives rise to, together with the value bytes
/// it carries.
pub struct EntrySpec {
    pub item: Item,
    pub val: Seq<u8>,
}

/// The entry for one record of segment `id`.
pub open spec fn rec_entry(id: SegmentId, r: RecordV) -> EntrySpec {
    EntrySpec {
        item: Item {
            file_id: id,
            val_sz: r.val.len() as usize,
            val_pos: r.val_pos as u64,
            ts: r.ts,
        },
        val: r.val,
    }
}

/// Fold the records of one segment into the map; later records win.
pub open spec fn fold_recs(
    m: Map<Seq<u8>, EntrySpec>,
    id: SegmentId,
    rs: Seq<RecordV>,
) -> Map<Seq<u8>, EntrySpec>
    decreases rs.len(),
{
    if rs.len() == 0 {
        m
    } else {
        fold_recs(m.insert(rs[0].key, rec_entry(id, rs[0])), id, rs.drop_first())
    }
}

/// Fold whole segments into the map; later segments win.
pub open spec fn fold_segs(m: Map<Seq<u8>, EntrySpec>, ss: Seq<LogV>) -> Map<Seq<u8>, EntrySpec>
    decreases ss.len(),
{
    if ss.len() == 0 {
        m
    } else {
        fold_segs(fold_recs(m, ss[0].id, spec_records(ss[0].data)), ss.drop_first())
    }
}

/// The keydir a sequence of segment logs denotes.
pub open spec fn replay(ss: Seq<LogV>) -> Map<Seq<u8>, EntrySpec> {
    fold_segs(Map::empty(), ss)
}

/// The keydir as locators only.
pub open spec fn replay_items(ss: Seq<LogV>) -> Map<Seq<u8>, Item> {
    Map::new(|k: Seq<u8>| replay(ss).contains_key(k), |k: Seq<u8>| replay(ss)[k].item)
}

/// The visible contents: replayed values with tombstones dropped.
pub open spec fn replay_view(ss: Seq<LogV>) -> Map<Seq<u8>, Seq<u8>> {
    Map::new(
        |k: Seq<u8>| replay(ss).contains_key(k) && replay(ss)[k].val != spec_tombstone(),
        |k: Seq<u8>| replay(ss)[k].val,
    )
}

/// Folding one more record inserts its entry.
pub proof fn lemma_fold_recs_snoc(m: Map<Seq<u8>, EntrySpec>, id: SegmentId, rs: Seq<RecordV>, r: RecordV)
    ensures
        fold_recs(m, id, rs.push(r)) == fold_recs(m, id, rs).insert(r.key, rec_entry(id, r)),
    decreases rs.len(),
{
    if rs.len() == 0 {
        assert(rs.push(r).drop_first() =~= Seq::<RecordV>::empty());
        assert(rs.push(r)[0] == r);
        let m1 = m.insert(r.key, rec_entry(id, r));
        assert(fold_recs(m, id, rs.push(r)) == fold_recs(m1, id, rs.push(r).drop_first()));
        assert(fold_recs(m1, id, Seq::<RecordV>::empty()) == m1);
        assert(fold_recs(m, id, rs) == m);
    } else {
        assert(rs.push(r).drop_first() =~= rs.drop_first().push(r));
        assert(rs.push(r)[0] == rs[0]);
        let m1 = m.insert(rs[0].key, rec_entry(id, rs[0]));
        lemma_fold_recs_snoc(m1, id, rs.drop_first(), r);
        assert(fold_recs(m, id, rs.push(r)) == fold_recs(m1, id, rs.drop_first().push(r)));
        assert(fold_recs(m, id, rs) == fold_recs(m1, id, rs.drop_first()));
    }
}

/// Folding one more segment folds its records into the accumulated map.
pub proof fn lemma_fold_segs_snoc(m: Map<Seq<u8>, EntrySpec>, ss: Seq<LogV>, s: LogV)
    ensures
        fold_segs(m, ss.push(s)) == fold_recs(fold_segs(m, ss), s.id, spec_records(s.data)),
    decreases ss.len(),
{
    if ss.len() == 0 {
        assert(ss.push(s).drop_first() =~= Seq::<LogV>::empty());
        assert(ss.push(s)[0] == s);
        let m1 = fold_recs(m, s.id, spec_records(s.data));
        assert(fold_segs(m, ss.push(s)) == fold_segs(m1, ss.push(s).drop_first()));
        assert(fold_segs(m1, Seq::<LogV>::empty()) == m1);
        assert(fold_segs(m, ss) == m);
    } else {
        assert(ss.push(s).drop_first() =~= ss.drop_first().push(s));
        assert(ss.push(s)[0] == ss[0]);
        let m1 = fold_recs(m, ss[0].id, spec_records(ss[0].data));
        lemma_fold_segs_snoc(m1, ss.drop_first(), s);
        assert(fold_segs(m, ss.push(s)) == fold_segs(m1, ss.drop_first().push(s)));
        assert(fold_segs(m, ss) == fold_segs(m1, ss.drop_first()));
    }
}

/// Folding from any base equals folding from nothing, overridden onto the
/// base.
pub proof fn lemma_fold_recs_base(m: Map<Seq<u8>, EntrySpec>, id: SegmentId, rs: Seq<RecordV>)
    ensures
        fold_recs(m, id, rs) =~= m.union_prefer_right(fold_recs(Map::empty(), id, rs)),
    decreases rs.len(),
{
    if rs.len() > 0 {
        let r = rs[0];
        lemma_fold_recs_base(m.insert(r.key, rec_entry(id, r)), id, rs.drop_first());
        lemma_fold_recs_base(Map::<Seq<u8>, EntrySpec>::empty().insert(r.key, rec_entry(id, r)), id, rs.drop_first());
        assert(fold_recs(m, id, rs) =~= m.union_prefer_right(fold_recs(Map::empty(), id, rs)));
    }
}

/// The same, one whole segment at a time.
pub proof fn lemma_fold_segs_base(m: Map<Seq<u8>, EntrySpec>, ss: Seq<LogV>)
    ensures
        fold_segs(m, ss) =~= m.union_prefer_right(fold_segs(Map::empty(), ss)),
    decreases ss.len(),
{
    if ss.len() > 0 {
        let rs = spec_records(ss[0].data);
        lemma_fold_segs_base(fold_recs(m, ss[0].id, rs), ss.drop_first());
        lemma_fold_segs_base(fold_recs(Map::empty(), ss[0].id, rs), ss.drop_first());
        lemma_fold_recs_base(m, ss[0].id, rs);
        assert(fold_segs(m, ss) =~= m.union_prefer_right(fold_segs(Map::empty(), ss)));
    }
}

/// Folding a concatenation folds the parts in order.
pub proof fn lemma_fold_segs_concat(m: Map<Seq<u8>, EntrySpec>, a: Seq<LogV>, b: Seq<LogV>)
    ensures
        fold_segs(m, a + b) == fold_segs(fold_segs(m, a), b),
    decreases a.len(),
{
    if a.len() == 0 {
        assert(a + b =~= b);
    } else {
        assert((a + b)[0] == a[0]);
        assert((a + b).drop_first() =~= a.drop_first() + b);
        lemma_fold_segs_concat(fold_recs(m, a[0].id, spec_records(a[0].data)), a.drop_first(), b);
    }
}

/// Replaying a concatenation replays the first part, overridden by the
/// second.
pub proof fn lemma_replay_concat(a: Seq<LogV>, b: Seq<LogV>)
    ensures
        replay(a + b) =~= replay(a).union_prefer_right(replay(b)),
{
    lemma_fold_segs_concat(Map::empty(), a, b);
    lemma_fold_segs_base(replay(a), b);
}

/// How many records the given segment logs hold altogether.
pub open spec fn records_count(ss: Seq<LogV>) -> int
    decreases ss.len(),
{
    if ss.len() == 0 {
        0
    } else {
        records_count(ss.drop_last()) + spec_records(ss.last().data).len()
    }
}

/// Appending a segment adds its records to the count.
pub proof fn lemma_records_count_push(ss: Seq<LogV>, s: LogV)
    ensures
        records_count(ss.push(s)) == records_count(ss) + spec_records(s.data).len(),
{
    assert(ss.push(s).drop_last() =~= ss);
    assert(ss.push(s).last() == s);
}

/// Segments that each hold a record number no more than the records do.
pub proof fn lemma_records_count_lower(ss: Seq<LogV>)
    requires
        forall|i: int| 0 <= i < ss.len() ==> spec_records((#[trigger] ss[i]).data).len() >= 1,
    ensures
        records_count(ss) >= ss.len(),
    decreases ss.len(),
{
    if ss.len() > 0 {
        lemma_records_count_lower(ss.drop_last());
        assert(ss.last() == ss[ss.len() - 1]);
    }
}

/// Replacing the last segment replaces its contribution to the count.
pub proof fn lemma_records_count_update_last(ss: Seq<LogV>, s: LogV)
    requires
        ss.len() > 0,
    ensures
        records_count(ss.update(ss.len() - 1, s)) == records_count(ss) - spec_records(
            ss.last().data,
        ).len() + spec_records(s.data).len(),
{
    let t = ss.update(ss.len() - 1, s);
    assert(t.drop_last() =~= ss.drop_last());
    assert(t.last() == s);
}

/// Appending the record of `e` to the last segment inserts its entry into
/// the replayed map, and keeps the image fully valid.
pub proof fn lemma_replay_extend_last(ss: Seq<LogV>, e: EntryV)
    requires
        ss.len() > 0,
        fully_valid(ss.last().data),
        e.key.len() <= u64::MAX,
        e.val.len() <= u64::MAX,
    ensures
        ({
            let rec = RecordV {
                key: e.key,
                val: e.val,
                ts: e.ts,
                val_pos: ss.last().data.len() + 36 + e.key.len() as int,
            };
            let last1 = LogV { id: ss.last().id, data: ss.last().data + spec_record_bytes(e) };
            &&& replay(ss.update(ss.len() - 1, last1)) == replay(ss).insert(
                e.key,
                rec_entry(ss.last().id, rec),
            )
            &&& spec_records(last1.data) == spec_records(ss.last().data).push(rec)
            &&& fully_valid(last1.data)
        }),
{
    let n = ss.len() as int;
    let last0 = ss.last();
    let d0 = last0.data;
    let bytes = spec_record_bytes(e);
    let rec = RecordV { key: e.key, val: e.val, ts: e.ts, val_pos: d0.len() + 36 + e.key.len() as int };
    let last1 = LogV { id: last0.id, data: d0 + bytes };
    let ss1 = ss.update(n - 1, last1);
    lemma_append_record(d0, e);
    assert(spec_records(d0) + seq![rec] =~= spec_records(d0).push(rec));
    assert(ss.take(n - 1).push(last0) =~= ss);
    lemma_fold_segs_snoc(Map::empty(), ss.take(n - 1), last0);
    assert(ss1.take(n - 1) =~= ss.take(n - 1));
    assert(ss1.take(n - 1).push(last1) =~= ss1);
    lemma_fold_segs_snoc(Map::empty(), ss1.take(n - 1), last1);
    lemma_fold_recs_snoc(replay(ss.take(n - 1)), last0.id, spec_records(d0), rec);
}

/// Opening a fresh segment holding exactly the record of `e` inserts its
/// entry into the replayed map.
pub proof fn lemma_replay_push_seg(ss: Seq<LogV>, id: SegmentId, e: EntryV)
    requires
        e.key.len() <= u64::MAX,
        e.val.len() <= u64::MAX,
    ensures
        ({
            let rec = RecordV { key: e.key, val: e.val, ts: e.ts, val_pos: 36 + e.key.len() as int };
            let bytes = spec_record_bytes(e);
            &&& replay(ss.push(LogV { id, data: bytes })) == replay(ss).insert(
                e.key,
                rec_entry(id, rec),
            )
            &&& spec_records(bytes) == seq![rec]
            &&& fully_valid(bytes)
        }),
{
    let rec = RecordV { key: e.key, val: e.val, ts: e.ts, val_pos: 36 + e.key.len() as int };
    let bytes = spec_record_bytes(e);
    lemma_records_empty();
    lemma_append_record(Seq::<u8>::empty(), e);
    assert(Seq::<u8>::empty() + bytes =~= bytes);
    assert(spec_records(bytes) =~= seq![rec]);
    let newseg = LogV { id, data: bytes };
    lemma_fold_segs_snoc(Map::empty(), ss, newseg);
    lemma_fold_recs_snoc(replay(ss), id, Seq::<RecordV>::empty(), rec);
    assert(Seq::<RecordV>::empty().push(rec) =~= seq![rec]);
    assert(fold_recs(replay(ss), id, Seq::<RecordV>::empty()) == replay(ss));
}

/// Where an entry of the replayed map comes from: some record, of some
/// registered segment, whose key, locator and value bytes the entry copies.
pub open spec fn entry_src(ss: Seq<LogV>, k: Seq<u8>, e: EntrySpec) -> bool {
    exists|i: int, j: int|
        {
            &&& 0 <= i < ss.len()
            &&& 0 <= j < spec_records(#[trigger] ss[i].data).len()
            &&& ss[i].id == e.item.file_id
            &&& (#[trigger] spec_records(ss[i].data)[j]).key == k
            &&& rec_entry(ss[i].id, spec_records(ss[i].data)[j]) == e
        }
}

/// An entry a fold of one segment's records holds either was in the base
/// map or has a source among those records.
proof fn lemma_fold_recs_src_at(
    m: Map<Seq<u8>, EntrySpec>,
    id: SegmentId,
    rs: Seq<RecordV>,
    k: Seq<u8>,
)
    requires
        fold_recs(m, id, rs).contains_key(k),
    ensures
        (m.contains_key(k) && fold_recs(m, id, rs)[k] == m[k]) || exists|j: int|
            0 <= j < rs.len() && (#[trigger] rs[j]).key == k && fold_recs(m, id, rs)[k]
                == rec_entry(id, rs[j]),
    decreases rs.len(),
{
    if rs.len() == 0 {
        assert(fold_recs(m, id, rs) == m);
    } else {
        let m1 = m.insert(rs[0].key, rec_entry(id, rs[0]));
        let f = fold_recs(m, id, rs);
        assert(f == fold_recs(m1, id, rs.drop_first()));
        lemma_fold_recs_src_at(m1, id, rs.drop_first(), k);
        if m1.contains_key(k) && f[k] == m1[k] {
            if k == rs[0].key {
                assert(rs[0].key == k && f[k] == rec_entry(id, rs[0]));
            } else {
                assert(m.contains_key(k) && f[k] == m[k]);
            }
        } else {
            let j = choose|j: int|
                0 <= j < rs.drop_first().len() && (#[trigger] rs.drop_first()[j]).key == k
                    && fold_recs(m1, id, rs.drop_first())[k] == rec_entry(id, rs.drop_first()[j]);
            assert(rs[j + 1] == rs.drop_first()[j]);
            assert(rs[j + 1].key == k && f[k] == rec_entry(id, rs[j + 1]));
        }
    }
}

/// Every entry of the replayed map has a source record.
pub proof fn lemma_replay_src_at(ss: Seq<LogV>, k: Seq<u8>)
    requires
        replay(ss).contains_key(k),
    ensures
        entry_src(ss, k, replay(ss)[k]),
    decreases ss.len(),
{
    let e = replay(ss)[k];
    let last = ss.last();
    let front = ss.drop_last();
    assert(ss.len() > 0) by {
        if ss.len() == 0 {
            assert(replay(ss) == Map::<Seq<u8>, EntrySpec>::empty());
        }
    }
    assert(front.push(last) =~= ss);
    lemma_fold_segs_snoc(Map::empty(), front, last);
    assert(replay(ss) == fold_recs(replay(front), last.id, spec_records(last.data)));
    lemma_fold_recs_src_at(replay(front), last.id, spec_records(last.data), k);
    if replay(front).contains_key(k) && e == replay(front)[k] {
        lemma_replay_src_at(front, k);
        let (i, j): (int, int) = choose|i: int, j: int|
            {
                &&& 0 <= i < front.len()
                &&& 0 <= j < spec_records(#[trigger] front[i].data).len()
                &&& front[i].id == e.item.file_id
                &&& (#[trigger] spec_records(front[i].data)[j]).key == k
                &&& rec_entry(front[i].id, spec_records(front[i].data)[j]) == e
            };
        assert(ss[i] == front[i]);
        assert(entry_src(ss, k, e));
    } else {
        let j = choose|j: int|
            0 <= j < spec_records(last.data).len() && (#[trigger] spec_records(last.data)[j]).key
                == k && replay(ss)[k] == rec_entry(last.id, spec_records(last.data)[j]);
        let i = ss.len() - 1;
        assert(ss[i] == last);
        assert(entry_src(ss, k, e));
    }
}

/// The bounds that every sourced entry enjoys: its locator lies inside its
/// segment's image and points at exactly its value bytes.
pub proof fn lemma_entry_src_bounds(ss: Seq<LogV>, k: Seq<u8>, e: EntrySpec)
    requires
        entry_src(ss, k, e),
        forall|i: int| 0 <= i < ss.len() ==> (#[trigger] ss[i].data).len() <= usize::MAX,
    ensures
        exists|i: int|
            {
                &&& 0 <= i < ss.len()
                &&& (#[trigger] ss[i]).id == e.item.file_id
                &&& e.item.val_pos + e.item.val_sz <= ss[i].data.len()
                &&& ss[i].data.subrange(
                    e.item.val_pos as int,
                    e.item.val_pos + e.item.val_sz,
                ) == e.val
                &&& e.val.len() == e.item.val_sz
            },
{
    let (i, j): (int, int) = choose|i: int, j: int|
        {
            &&& 0 <= i < ss.len()
            &&& 0 <= j < spec_records(#[trigger] ss[i].data).len()
            &&& ss[i].id == e.item.file_id
            &&& (#[trigger] spec_records(ss[i].data)[j]).key == k
            &&& rec_entry(ss[i].id, spec_records(ss[i].data)[j]) == e
        };
    lemma_records_within(ss[i].data, 0);
    let r = spec_records(ss[i].data)[j];
    assert(r.end() <= ss[i].data.len());
    assert(r.val == ss[i].data.subrange(r.val_pos, r.end()));
    assert(0 <= r.val_pos <= ss[i].data.len());
    assert(r.val.len() <= ss[i].data.len());
    assert(e.item.val_pos == r.val_pos as u64 && r.val_pos as u64 == r.val_pos);
    assert(e.item.val_sz == r.val.len() as usize && r.val.len() as usize == r.val.len());
    assert(ss[i].data.subrange(e.item.val_pos as int, e.item.val_pos + e.item.val_sz) == e.val);
}

} // verus!
