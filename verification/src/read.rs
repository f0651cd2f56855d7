//! Scanning a segment image: decode records front to back, stopping at the
//! first corrupt or truncated one.

use vstd::prelude::*;

verus! {

use crate::checksum::crc32;
use crate::endian::{spec_u128_from_le_bytes, u128_from_le_bytes};
use crate::keydir::{bytes_eq, Item, SegmentId};
use crate::record::{
    spec_parse_record, spec_records, spec_records_from, LogEntry, RecordV,
};
use crate::replay::rec_entry;
use vstd::bytes::{spec_u64_from_le_bytes, u32_from_le_bytes, u64_from_le_bytes};
use vstd::slice::{slice_subrange, slice_to_vec};

/// One record yielded by a scan: the entry, where it came from, and where
/// its value bytes start.
pub struct LogReaderItem {
    pub file_id: SegmentId,
    pub entry: LogEntry,
    pub val_pos: u64,
}

impl LogReaderItem {
    /// The keydir binding this record gives rise to.
    pub fn into_key_item_tuple(self) -> (r: (Vec<u8>, Item))
        ensures
            r.0@ == self.entry@.key,
            r.1 == (Item {
                file_id: self.file_id,
                val_sz: self.entry.val.len(),
                val_pos: self.val_pos,
                ts: self.entry.ts,
            }),
    {
        let val_sz = self.entry.val.len();
        (
            self.entry.key,
            Item { file_id: self.file_id, val_sz, val_pos: self.val_pos, ts: self.entry.ts },
        )
    }
}

/// Whether the scanned items are exactly the records `recs`, attributed to
/// segment `id`.
pub open spec fn items_match(rs: Seq<LogReaderItem>, recs: Seq<RecordV>, id: SegmentId) -> bool {
    &&& rs.len() == recs.len()
    &&& forall|i: int|
        0 <= i < recs.len() ==> {
            let it = #[trigger] rs[i];
            &&& it.file_id == id
            &&& it.entry@.key == recs[i].key
            &&& it.entry@.val == recs[i].val
            &&& it.entry.ts == recs[i].ts
            &&& it.val_pos == recs[i].val_pos
        }
}

/// Decode the record at `pos`, if the bytes there form a valid one.
fn parse_record_at(data: &Vec<u8>, pos: usize) -> (r: Option<(LogEntry, usize)>)
    requires
        pos <= data@.len(),
    ensures
        match spec_parse_record(data@, pos as int) {
            Some(rv) => r matches Some((e, end)) && e@.key == rv.key && e@.val == rv.val && e.ts
                == rv.ts && end == rv.end() && pos < end <= data@.len(),
            None => r is None,
        },
{
    if data.len() < 36 || pos > data.len() - 36 {
        return None;
    }
    let s = data.as_slice();
    let crc = u32_from_le_bytes(slice_subrange(s, pos, pos + 4));
    let ts = u128_from_le_bytes(slice_subrange(s, pos + 4, pos + 20));
    let ksz = u64_from_le_bytes(slice_subrange(s, pos + 20, pos + 28));
    let vsz = u64_from_le_bytes(slice_subrange(s, pos + 28, pos + 36));
    if (ksz as u128) + (vsz as u128) > (data.len() - pos - 36) as u128 {
        return None;
    }
    let ksz = ksz as usize;
    let vsz = vsz as usize;
    let end = pos + 36 + ksz + vsz;
    let body = slice_subrange(s, pos + 4, end);
    if crc32(body) != crc {
        return None;
    }
    let key = slice_to_vec(slice_subrange(s, pos + 36, pos + 36 + ksz));
    let val = slice_to_vec(slice_subrange(s, pos + 36 + ksz, end));
    Some((LogEntry { key, val, ts }, end))
}

/// One hint record as recovered from a hint image.
pub struct HintV {
    pub key: Seq<u8>,
    pub val_sz: u64,
    pub val_pos: u64,
    pub ts: u128,
}

/// Parse one hint record at `pos`:
/// `timestamp (16) | key_size (8) | value_size (8) | value_offset (8) | key`.
pub open spec fn spec_parse_hint(d: Seq<u8>, pos: int) -> Option<(HintV, int)> {
    if 0 <= pos && pos + 40 <= d.len() {
        let ts = spec_u128_from_le_bytes(d.subrange(pos, pos + 16));
        let ksz = spec_u64_from_le_bytes(d.subrange(pos + 16, pos + 24)) as int;
        let vsz = spec_u64_from_le_bytes(d.subrange(pos + 24, pos + 32));
        let vpos = spec_u64_from_le_bytes(d.subrange(pos + 32, pos + 40));
        if pos + 40 + ksz <= d.len() {
            Some(
                (
                    HintV {
                        key: d.subrange(pos + 40, pos + 40 + ksz),
                        val_sz: vsz,
                        val_pos: vpos,
                        ts,
                    },
                    pos + 40 + ksz,
                ),
            )
        } else {
            None
        }
    } else {
        None
    }
}

/// All hint records of the valid prefix starting at `pos`.
pub open spec fn spec_hints_from(d: Seq<u8>, pos: int) -> Seq<HintV>
    decreases d.len() - pos,
    when 0 <= pos <= d.len()
{
    match spec_parse_hint(d, pos) {
        Option::None => Seq::empty(),
        Option::Some((h, end)) => seq![h] + spec_hints_from(d, end),
    }
}

/// Whether the keydir pairs are exactly the hint records of `hs`,
/// attributed to segment `id`.
pub open spec fn hint_pairs_match(
    es: Seq<(Vec<u8>, Item)>,
    hs: Seq<HintV>,
    id: SegmentId,
) -> bool {
    &&& es.len() == hs.len()
    &&& forall|i: int|
        0 <= i < hs.len() ==> {
            let e = #[trigger] es[i];
            &&& e.0@ == hs[i].key
            &&& e.1 == (Item {
                file_id: id,
                val_sz: hs[i].val_sz as usize,
                val_pos: hs[i].val_pos,
                ts: hs[i].ts,
            })
        }
}

/// Read a hint image: all hint records of its valid prefix, each as the
/// keydir binding it describes for segment `id`.
pub fn read_hint_records(id: SegmentId, data: &Vec<u8>) -> (es: Vec<(Vec<u8>, Item)>)
    ensures
        hint_pairs_match(es@, spec_hints_from(data@, 0), id),
{
    let ghost all = spec_hints_from(data@, 0);
    let mut es: Vec<(Vec<u8>, Item)> = Vec::new();
    let mut pos: usize = 0;
    loop
        invariant
            0 <= pos <= data@.len(),
            es@.len() <= all.len(),
            hint_pairs_match(es@, all.take(es@.len() as int), id),
            all == all.take(es@.len() as int) + spec_hints_from(data@, pos as int),
            all == spec_hints_from(data@, 0),
        decreases data@.len() - pos,
    {
        let s = data.as_slice();
        if data.len() < 40 || pos > data.len() - 40 {
            proof {
                assert(spec_hints_from(data@, pos as int) =~= Seq::<HintV>::empty());
                assert(all =~= all.take(es@.len() as int));
            }
            return es;
        }
        let ts = u128_from_le_bytes(slice_subrange(s, pos, pos + 16));
        let ksz = u64_from_le_bytes(slice_subrange(s, pos + 16, pos + 24));
        let vsz = u64_from_le_bytes(slice_subrange(s, pos + 24, pos + 32));
        let vpos = u64_from_le_bytes(slice_subrange(s, pos + 32, pos + 40));
        if (ksz as u128) > (data.len() - pos - 40) as u128 {
            proof {
                assert(spec_hints_from(data@, pos as int) =~= Seq::<HintV>::empty());
                assert(all =~= all.take(es@.len() as int));
            }
            return es;
        }
        let end = pos + 40 + (ksz as usize);
        let key = slice_to_vec(slice_subrange(s, pos + 40, end));
        let ghost (hv, hend) = spec_parse_hint(data@, pos as int).unwrap();
        let ghost n = es@.len() as int;
        proof {
            assert(spec_hints_from(data@, pos as int) == seq![hv] + spec_hints_from(data@, hend));
            assert(all[n] == hv);
            assert(all.take(n + 1) =~= all.take(n) + seq![hv]);
            assert(all =~= all.take(n + 1) + spec_hints_from(data@, hend));
        }
        es.push((key, Item { file_id: id, val_sz: vsz as usize, val_pos: vpos, ts }));
        pos = end;
    }
}

/// Whether the keydir pairs are exactly the bindings of the given records,
/// attributed to segment `id`.
pub open spec fn entries_match(es: Seq<(Vec<u8>, Item)>, recs: Seq<RecordV>, id: SegmentId) -> bool {
    &&& es.len() == recs.len()
    &&& forall|i: int|
        0 <= i < recs.len() ==> {
            let e = #[trigger] es[i];
            &&& e.0@ == recs[i].key
            &&& e.1 == rec_entry(id, recs[i]).item
        }
}

/// The keydir bindings of one segment. The paired hint image, when there
/// is one, is read and cross-checked against the segment's own records;
/// if it describes them exactly, its bindings are used, and otherwise —
/// a missing, corrupt or stale hint — the scan's bindings are. The
/// cross-check deliberately re-scans the segment, trading the startup
/// speedup hints were invented for against the guarantee that a stale
/// sidecar can never mislead the index; on in-memory images the scan is
/// cheap.
pub fn segment_entries(id: SegmentId, data: &Vec<u8>, hint: &Option<Vec<u8>>) -> (es: Vec<
    (Vec<u8>, Item),
>)
    ensures
        entries_match(es@, spec_records(data@), id),
{
    let ghost recs = spec_records(data@);
    let mut items = scan_records(id, data);
    let hinted: Option<Vec<(Vec<u8>, Item)>> = match hint {
        Some(h) => {
            let hs = read_hint_records(id, h);
            if hint_entries_agree(&hs, &items) {
                Some(hs)
            } else {
                None
            }
        },
        None => None,
    };
    match hinted {
        Some(es) => {
            proof {
                assert(entries_match(es@, recs, id));
            }
            es
        },
        None => {
            let mut es: Vec<(Vec<u8>, Item)> = Vec::new();
            let ghost total = items@.len() as int;
            proof {
                assert(recs.skip(0) =~= recs);
            }
            while items.len() > 0
                invariant
                    items_match(items@, recs.skip(es@.len() as int), id),
                    es@.len() + items@.len() == total,
                    total == recs.len(),
                    entries_match(es@, recs.take(es@.len() as int), id),
                decreases items@.len(),
            {
                let ghost items0 = items@;
                let ghost n = es@.len() as int;
                let it = items.remove(0);
                let ghost r = recs[n];
                proof {
                    assert(items0[0] == it);
                    assert(recs.skip(n)[0] == r);
                }
                let pair = it.into_key_item_tuple();
                proof {
                    assert(pair.1 == rec_entry(id, r).item);
                    assert(recs.take(n + 1) =~= recs.take(n).push(r));
                }
                es.push(pair);
                proof {
                    assert(items@ =~= items0.drop_first());
                    assert(recs.skip(n).drop_first() =~= recs.skip(n + 1));
                }
            }
            proof {
                assert(recs.take(es@.len() as int) =~= recs);
            }
            es
        },
    }
}

/// Whether the hint-derived bindings agree, pair for pair, with the
/// scanned records' bindings.
fn hint_entries_agree(hs: &Vec<(Vec<u8>, Item)>, items: &Vec<LogReaderItem>) -> (r: bool)
    ensures
        r ==> hs@.len() == items@.len() && forall|i: int|
            0 <= i < items@.len() ==> (#[trigger] hs@[i]).0@ == items@[i].entry@.key && hs@[i].1
                == (Item {
                file_id: items@[i].file_id,
                val_sz: items@[i].entry.val.len(),
                val_pos: items@[i].val_pos,
                ts: items@[i].entry.ts,
            }),
{
    if hs.len() != items.len() {
        return false;
    }
    let n = hs.len();
    let mut i: usize = 0;
    while i < n
        invariant
            n == hs@.len() == items@.len(),
            0 <= i <= n,
            forall|x: int|
                0 <= x < i ==> (#[trigger] hs@[x]).0@ == items@[x].entry@.key && hs@[x].1
                    == (Item {
                    file_id: items@[x].file_id,
                    val_sz: items@[x].entry.val.len(),
                    val_pos: items@[x].val_pos,
                    ts: items@[x].entry.ts,
                }),
        decreases n - i,
    {
        let h = vstd::slice::slice_index_get(hs.as_slice(), i);
        let it = vstd::slice::slice_index_get(items.as_slice(), i);
        let expect = Item {
            file_id: it.file_id,
            val_sz: it.entry.val.len(),
            val_pos: it.val_pos,
            ts: it.entry.ts,
        };
        if !bytes_eq(h.0.as_slice(), it.entry.key.as_slice()) {
            return false;
        }
        if !(h.1 == expect) {
            return false;
        }
        i += 1;
    }
    true
}

/// Scan a whole segment image: all records of its valid prefix, in file
/// order.
pub fn scan_records(file_id: SegmentId, data: &Vec<u8>) -> (rs: Vec<LogReaderItem>)
    ensures
        items_match(rs@, spec_records(data@), file_id),
{
    let ghost all = spec_records(data@);
    let mut rs: Vec<LogReaderItem> = Vec::new();
    let mut pos: usize = 0;
    loop
        invariant
            0 <= pos <= data@.len(),
            rs@.len() <= all.len(),
            items_match(rs@, all.take(rs@.len() as int), file_id),
            all == all.take(rs@.len() as int) + spec_records_from(data@, pos as int),
            all == spec_records(data@),
        decreases data@.len() - pos,
    {
        match parse_record_at(data, pos) {
            None => {
                proof {
                    assert(spec_records_from(data@, pos as int) =~= Seq::<RecordV>::empty());
                    assert(all =~= all.take(rs@.len() as int));
                }
                return rs;
            },
            Some((entry, end)) => {
                let ghost rv = spec_parse_record(data@, pos as int).unwrap();
                let ghost n = rs@.len() as int;
                proof {
                    assert(spec_records_from(data@, pos as int) == seq![rv]
                        + spec_records_from(data@, rv.end()));
                    assert(all[n] == rv);
                    assert(all.take(n + 1) =~= all.take(n) + seq![rv]);
                    assert(all =~= all.take(n + 1) + spec_records_from(data@, rv.end()));
                    assert(rv.val_pos == pos + 36 + rv.key.len());
                    assert(rv.val_pos <= u64::MAX);
                }
                let val_pos = (pos + 36 + entry.key.len()) as u64;
                rs.push(LogReaderItem { file_id, entry, val_pos });
                pos = end;
            },
        }
    }
}

} // verus!
