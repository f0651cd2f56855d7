//! The store itself: an in-memory keydir over a family of append-only log
//! segments. `set` appends a record and repoints the keydir, `get` reads
//! the bytes the keydir points at, `delete` writes the tombstone sentinel,
//! and `merge` compacts the closed segments down to the live records.

use vstd::prelude::*;

verus! {

use crate::config::StoreConfig;
use crate::files::{FileManager, LogV, SegV, Segment};
use crate::keydir::{id_lt, Item, KeyDir, SegmentId};
use crate::read::{items_match, scan_records};
use crate::record::{
    fully_valid, lemma_append_record, lemma_record_len, lemma_records_empty,
    lemma_records_within, now_micros, spec_record_bytes, spec_records, EntryV, LogEntry, RecordV,
};
use crate::replay::{
    fold_recs, lemma_entry_src_bounds, lemma_fold_recs_snoc, lemma_fold_segs_snoc,
    lemma_records_count_push, lemma_records_count_update_last, lemma_replay_concat,
    lemma_replay_extend_last, lemma_replay_push_seg, lemma_replay_src_at, rec_entry, records_count,
    replay, replay_view, EntrySpec,
};
use crate::{is_tombstone, spec_tombstone, tombstone};
use vstd::slice::slice_to_vec;

/// `get` found no live value for the key. A normal result, not a fault.
#[derive(Debug)]
pub struct KeyMiss;

/// A merge was requested while another one was still running.
#[derive(Debug)]
pub struct MergeUnderway;

/// Why a write was refused. `OversizeRecord`: the encoded record would not
/// fit into even an empty segment of the configured size; nothing was
/// written. `ClockExhausted`: the timestamp counter has no room left; this
/// cannot arise in practice.
#[derive(Debug)]
pub enum SetError {
    OversizeRecord,
    ClockExhausted,
}

/// The most the wall clock may contribute when seeding the timestamp
/// counter at open. Real microsecond timestamps sit near 2^60; capping the
/// seed far above them keeps the counter's headroom provable, so that
/// writes can be shown to succeed.
pub const CLOCK_CEIL: u128 = 0x10_0000_0000_0000_0000_0000_0000;

/// The segment logs of a list of loaded segments.
pub open spec fn segs_logs(fs: Seq<Segment>) -> Seq<LogV> {
    fs.map(|i: int, s: Segment| LogV { id: s.id, data: s.data@ })
}

/// The keydir projection of a replayed map.
pub open spec fn proj_items(m: Map<Seq<u8>, EntrySpec>) -> Map<Seq<u8>, Item> {
    Map::new(|k: Seq<u8>| m.contains_key(k), |k: Seq<u8>| m[k].item)
}

/// The store.
pub struct BitCask {
    keydir: KeyDir,
    file_manager: FileManager,
    merging: bool,
}

impl View for BitCask {
    type V = Map<Seq<u8>, Seq<u8>>;

    /// The visible contents: each key's last written value, with tombstoned
    /// keys absent.
    closed spec fn view(&self) -> Map<Seq<u8>, Seq<u8>> {
        replay_view(self.file_manager.logs())
    }
}

impl BitCask {
    /// The record logs of the registered segments, in registry order.
    pub closed spec fn logs(&self) -> Seq<LogV> {
        self.file_manager.logs()
    }

    /// The full segment images, hint files included: what a faithful mirror
    /// of the store directory holds.
    pub closed spec fn disk(&self) -> Seq<SegV> {
        self.file_manager.disk()
    }

    /// Whether a merge is underway.
    pub closed spec fn spec_merging(&self) -> bool {
        self.merging
    }

    /// The store invariant: a well-formed registry, and a keydir that is
    /// exactly the replay of the registered segments.
    pub closed spec fn wf(&self) -> bool {
        &&& self.file_manager.wf()
        &&& self.keydir.wf()
        &&& self.keydir@ == proj_items(replay(self.logs()))
    }

    /// The configuration the store was opened with.
    pub fn config(&self) -> (r: &StoreConfig)
        ensures
            r.max_log_file_size == self.config_max(),
    {
        &self.file_manager.config
    }

    /// Construct the keydir reflecting the data in the registered segments.
    pub fn initialize_keydir(file_manager: &FileManager) -> (kd: KeyDir)
        ensures
            kd.wf(),
            kd@ == proj_items(replay(file_manager.logs())),
    {
        let ghost logs = file_manager.logs();
        let mut kd = KeyDir::new();
        let n = file_manager.inner.len();
        let mut i: usize = 0;
        proof {
            assert(logs.take(0) =~= Seq::<LogV>::empty());
            assert(kd@ =~= proj_items(replay(logs.take(0))));
        }
        while i < n
            invariant
                n == file_manager.inner@.len(),
                logs == file_manager.logs(),
                0 <= i <= n,
                kd.wf(),
                kd@ == proj_items(replay(logs.take(i as int))),
            decreases n - i,
        {
            let seg = vstd::slice::slice_index_get(file_manager.inner.as_slice(), i);
            let ghost id = seg.id;
            let ghost recs = spec_records(seg.data@);
            let ghost m0 = replay(logs.take(i as int));
            let mut entries = crate::read::segment_entries(seg.id, &seg.data, &seg.hint);
            proof {
                assert(logs.take(i + 1) =~= logs.take(i as int).push(logs[i as int]));
                lemma_fold_segs_snoc(Map::empty(), logs.take(i as int), logs[i as int]);
                assert(replay(logs.take(i + 1)) == fold_recs(m0, id, recs));
            }
            let total_e = entries.len();
            let ghost total = total_e as int;
            let mut j: usize = 0;
            proof {
                assert(recs.take(0) =~= Seq::<RecordV>::empty());
                assert(fold_recs(m0, id, recs.take(0)) == m0);
            }
            while entries.len() > 0
                invariant
                    kd.wf(),
                    crate::read::entries_match(entries@, recs.skip(j as int), id),
                    j + entries@.len() == total,
                    total == recs.len(),
                    total <= usize::MAX,
                    0 <= j,
                    kd@ == proj_items(fold_recs(m0, id, recs.take(j as int))),
                decreases entries@.len(),
            {
                let ghost entries0 = entries@;
                let (k, item) = entries.remove(0);
                let ghost r = recs[j as int];
                proof {
                    assert(entries0[0] == (k, item));
                    assert(recs.skip(j as int)[0] == r);
                    assert(k@ == r.key && item == rec_entry(id, r).item);
                    assert(recs.take(j + 1) =~= recs.take(j as int).push(r));
                    lemma_fold_recs_snoc(m0, id, recs.take(j as int), r);
                    assert(proj_items(fold_recs(m0, id, recs.take(j as int)).insert(
                        k@,
                        rec_entry(id, r),
                    )) =~= proj_items(fold_recs(m0, id, recs.take(j as int))).insert(k@, item));
                }
                kd.set(k, item);
                j += 1;
                proof {
                    assert(entries@ =~= entries0.drop_first());
                    assert(recs.skip(j - 1).drop_first() =~= recs.skip(j as int));
                    assert(crate::read::entries_match(entries@, recs.skip(j as int), id));
                }
            }
            proof {
                assert(recs.take(total) =~= recs);
                assert(kd@ == proj_items(replay(logs.take(i + 1))));
            }
            i += 1;
        }
        proof {
            assert(logs.take(n as int) =~= logs);
        }
        kd
    }

    /// Open a store over the segment images read back from a directory,
    /// given in file-name order. The visible contents are exactly the
    /// replay of those images.
    pub fn new(config: StoreConfig, files: Vec<Segment>) -> (r: BitCask)
        requires
            forall|i: int, j: int|
                0 <= i < j < files@.len() ==> id_lt(
                    (#[trigger] files@[i])@.id,
                    (#[trigger] files@[j])@.id,
                ),
            forall|i: int| 0 <= i < files@.len() ==> !(#[trigger] files@[i])@.writable,
        ensures
            r.wf(),
            !r.spec_merging(),
            r@ == replay_view(segs_logs(files@)),
            r.disk() == files@.map(|i: int, s: Segment| s@),
            r.spec_clock() <= CLOCK_CEIL || exists|i: int|
                0 <= i < files@.len() && r.spec_clock() == (#[trigger] files@[i])@.id.ts,
            r.config_max() == config.max_log_file_size,
            !r.spec_has_active(),
    {
        let mut clock: u128 = match now_micros() {
            Some(t) => if t > CLOCK_CEIL {
                CLOCK_CEIL
            } else {
                t
            },
            None => 0,
        };
        let n = files.len();
        let mut i: usize = 0;
        while i < n
            invariant
                n == files@.len(),
                0 <= i <= n,
                forall|j: int| 0 <= j < i ==> (#[trigger] files@[j]).id.ts <= clock,
                clock <= CLOCK_CEIL || exists|j: int|
                    0 <= j < i && clock == (#[trigger] files@[j]).id.ts,
            decreases n - i,
        {
            let seg = vstd::slice::slice_index_get(files.as_slice(), i);
            if seg.id.ts > clock {
                clock = seg.id.ts;
                proof {
                    assert(clock == files@[i as int].id.ts);
                }
            }
            i += 1;
        }
        proof {
            if clock > CLOCK_CEIL {
                let j = choose|j: int| 0 <= j < n && clock == (#[trigger] files@[j]).id.ts;
                assert(files@[j]@.id.ts == clock);
                assert(exists|i: int|
                    0 <= i < files@.len() && clock == (#[trigger] files@[i])@.id.ts);
            }
        }
        let file_manager = FileManager { config, current: None, inner: files, clock };
        let keydir = Self::initialize_keydir(&file_manager);
        proof {
            assert(file_manager.logs() =~= segs_logs(file_manager.inner@));
            assert(file_manager.disk() =~= file_manager.inner@.map(|i: int, s: Segment| s@));
        }
        BitCask { keydir, file_manager, merging: false }
    }

    /// Look up the current value of `key`. `Err(KeyMiss)` exactly when the
    /// key is absent or its last record is the tombstone.
    pub fn get(&self, key: &[u8]) -> (r: Result<Vec<u8>, KeyMiss>)
        requires
            self.wf(),
        ensures
            match r {
                Ok(v) => self@.contains_key(key@) && v@ == self@[key@],
                Err(_) => !self@.contains_key(key@),
            },
    {
        let item = match self.keydir.get(key) {
            Some(item) => item,
            None => {
                return Err(KeyMiss);
            },
        };
        let ghost logs = self.logs();
        let ghost e = replay(logs)[key@];
        proof {
            assert(replay(logs).contains_key(key@));
            assert(item == e.item);
            lemma_replay_src_at(logs, key@);
            self.file_manager.lemma_logs_index();
            lemma_entry_src_bounds(logs, key@, e);
        }
        match self.file_manager.read_item(&item) {
            Some(bytes) => {
                proof {
                    let wi = choose|i: int|
                        {
                            &&& 0 <= i < logs.len()
                            &&& (#[trigger] logs[i]).id == e.item.file_id
                            &&& e.item.val_pos + e.item.val_sz <= logs[i].data.len()
                            &&& logs[i].data.subrange(
                                e.item.val_pos as int,
                                e.item.val_pos + e.item.val_sz,
                            ) == e.val
                            &&& e.val.len() == e.item.val_sz
                        };
                    let ri = choose|i: int|
                        0 <= i < logs.len() && (#[trigger] logs[i]).id == item.file_id
                            && item.val_pos + item.val_sz <= logs[i].data.len() && bytes@
                            == logs[i].data.subrange(
                            item.val_pos as int,
                            item.val_pos + item.val_sz,
                        );
                    self.file_manager.lemma_ids_unique();
                    if wi != ri {
                        assert(self.file_manager.inner@[wi].id != self.file_manager.inner@[ri].id);
                        assert(false);
                    }
                    assert(bytes@ == e.val);
                }
                if is_tombstone(bytes.as_slice()) {
                    proof {
                        assert(!self@.contains_key(key@));
                    }
                    Err(KeyMiss)
                } else {
                    proof {
                        assert(self@.contains_key(key@) && self@[key@] == e.val);
                    }
                    Ok(bytes)
                }
            },
            None => {
                proof {
                    assert(false);
                }
                Err(KeyMiss)
            },
        }
    }

    /// Write `key := val`. On success exactly one record holding the pair
    /// is appended: to the active segment when it fits, else to a freshly
    /// rotated one; the visible contents gain the binding (or lose it, if
    /// `val` is the tombstone sentinel). `OversizeRecord` exactly when the
    /// encoded record cannot fit into a fresh segment of the configured
    /// size; nothing is written then.
    pub fn set(&mut self, key: &[u8], val: &[u8]) -> (r: Result<(), SetError>)
        requires
            old(self).wf(),
        ensures
            final(self).wf(),
            final(self).spec_merging() == old(self).spec_merging(),
            final(self).config_max() == old(self).config_max(),
            match r {
                Ok(()) => ({
                    let e = EntryV {
                        key: key@,
                        val: val@,
                        ts: (old(self).spec_clock() + 1) as u128,
                    };
                    let bytes = spec_record_bytes(e);
                    &&& if val@ == spec_tombstone() {
                        final(self)@ == old(self)@.remove(key@)
                    } else {
                        final(self)@ == old(self)@.insert(key@, val@)
                    }
                    &&& if old(self).active_fits(bytes.len() as int) {
                        &&& final(self).logs() == old(self).logs().update(
                            old(self).logs().len() - 1,
                            LogV {
                                id: old(self).logs().last().id,
                                data: old(self).logs().last().data + bytes,
                            },
                        )
                        &&& final(self).spec_clock() == old(self).spec_clock() + 1
                    } else {
                        &&& final(self).logs() == old(self).logs().push(
                            LogV {
                                id: SegmentId {
                                    ts: (old(self).spec_clock() + 2) as u128,
                                    seq: 0,
                                },
                                data: bytes,
                            },
                        )
                        &&& final(self).spec_clock() == old(self).spec_clock() + 2
                    }
                }),
                Err(SetError::OversizeRecord) => final(self)@ == old(self)@ && final(self).disk()
                    == old(self).disk() && final(self).spec_clock() == old(self).spec_clock() && 36
                    + key@.len() + val@.len() > old(self).config_max() as int,
                Err(SetError::ClockExhausted) => final(self)@ == old(self)@ && final(self).disk()
                    == old(self).disk() && final(self).spec_clock() == old(self).spec_clock() && 36
                    + key@.len() + val@.len() <= old(self).config_max() as int && old(
                    self,
                ).spec_clock() >= u128::MAX - 1,
            },
            r is Ok <==> (36 + key@.len() + val@.len() <= old(self).config_max() as int && old(
                self,
            ).spec_clock() < u128::MAX - 1),
    {
        if 36 + (key.len() as u128) + (val.len() as u128)
            > self.file_manager.config.max_log_file_size as u128 {
            return Err(SetError::OversizeRecord);
        }
        if self.file_manager.clock >= u128::MAX - 1 {
            return Err(SetError::ClockExhausted);
        }
        let ts = self.file_manager.clock + 1;
        self.file_manager.clock = ts;
        let entry = LogEntry { key: slice_to_vec(key), val: slice_to_vec(val), ts };
        let ghost pre = *self;
        let item = self.file_manager.set(&entry);
        let ghost mid = *self;
        proof {
            lemma_record_len(entry@);
            self.lemma_set_replay(pre, entry@, item);
        }
        self.keydir.set(entry.key, item);
        proof {
            let rec = RecordV {
                key: key@,
                val: val@,
                ts: ts,
                val_pos: item.val_pos as int,
            };
            assert(self.keydir@ =~= proj_items(replay(mid.logs())));
            assert(replay_view(mid.logs()) =~= (if val@ == spec_tombstone() {
                old(self)@.remove(key@)
            } else {
                old(self)@.insert(key@, val@)
            }));
        }
        proof {
            let e = EntryV { key: key@, val: val@, ts: (old(self).spec_clock() + 1) as u128 };
            assert(entry@ == e);
            let bytes = spec_record_bytes(e);
            let fits = pre.file_manager.current is Some && pre.file_manager.active_len()
                + bytes.len() <= pre.file_manager.config.max_log_file_size;
            assert(pre.file_manager.logs() == old(self).logs());
            assert(fits == old(self).active_fits(bytes.len() as int));
            if fits {
                old(self).file_manager.lemma_logs_index();
                assert(old(self).logs().last().id == old(self).file_manager.inner@.last().id);
                assert(old(self).logs().last().data == old(self).file_manager.inner@.last().data@);
                assert(old(self).file_manager.inner@.last().id == pre.file_manager.current.unwrap());
                assert(self.file_manager.logs() == old(self).logs().update(
                    old(self).logs().len() - 1,
                    LogV {
                        id: old(self).logs().last().id,
                        data: old(self).logs().last().data + bytes,
                    },
                ));
                assert(self.file_manager.clock == old(self).spec_clock() + 1);
            } else {
                assert(self.file_manager.logs() == old(self).logs().push(
                    LogV {
                        id: SegmentId { ts: (old(self).spec_clock() + 2) as u128, seq: 0 },
                        data: bytes,
                    },
                ));
                assert(self.file_manager.clock == old(self).spec_clock() + 2);
            }
        }
        Ok(())
    }

    /// The configured segment-size bound.
    pub closed spec fn config_max(&self) -> u64 {
        self.file_manager.config.max_log_file_size
    }

    /// The timestamp counter new writes and segment names draw from.
    pub closed spec fn spec_clock(&self) -> u128 {
        self.file_manager.clock
    }

    /// Whether there is an active segment with room for `n` more bytes.
    pub closed spec fn active_fits(&self, n: int) -> bool {
        self.file_manager.current is Some && self.file_manager.active_len() + n
            <= self.config_max()
    }

    /// Whether an active (writable) segment is open.
    pub closed spec fn spec_has_active(&self) -> bool {
        self.file_manager.current is Some
    }

    /// How the segment counts relate: every segment is closed but for the
    /// active one, and the logs mirror the on-disk images one to one.
    pub proof fn lemma_disk_shape(&self)
        requires
            self.wf(),
        ensures
            self.logs().len() == self.disk().len(),
            self.disk().len() == self.closed_logs().len() + (if self.spec_has_active() {
                1int
            } else {
                0
            }),
            forall|i: int|
                0 <= i < self.disk().len() ==> (#[trigger] self.disk()[i]).id.ts
                    <= self.spec_clock(),
    {
        self.file_manager.lemma_logs_index();
        assert forall|i: int| 0 <= i < self.disk().len() implies (#[trigger] self.disk()[i]).id.ts
            <= self.spec_clock() by {
            assert(self.disk()[i] == self.file_manager.inner@[i]@);
        }
    }

    /// After `FileManager::set` appended the record of `e`, the replayed
    /// map gains exactly its entry.
    proof fn lemma_set_replay(&self, pre: BitCask, e: crate::record::EntryV, item: Item)
        requires
            pre.file_manager.wf(),
            self.file_manager.wf(),
            ({
                let bytes = spec_record_bytes(e);
                let fits = pre.file_manager.current is Some && pre.file_manager.active_len()
                    + bytes.len() <= pre.file_manager.config.max_log_file_size;
                let base = if fits {
                    pre.file_manager.active_len()
                } else {
                    0
                };
                &&& if fits {
                    self.file_manager.logs() =~= pre.file_manager.logs().update(
                        pre.file_manager.logs().len() - 1,
                        LogV {
                            id: pre.file_manager.current.unwrap(),
                            data: pre.file_manager.logs().last().data + bytes,
                        },
                    )
                } else {
                    self.file_manager.logs() =~= pre.file_manager.logs() + seq![
                        LogV {
                            id: SegmentId { ts: (pre.file_manager.clock + 1) as u128, seq: 0 },
                            data: bytes,
                        },
                    ]
                }
                &&& item.file_id == self.file_manager.current.unwrap()
                &&& self.file_manager.current is Some
                &&& item.val_sz == e.val.len()
                &&& item.ts == e.ts
                &&& item.val_pos == base + 36 + e.key.len()
                &&& self.file_manager.logs().last().id == item.file_id
            }),
            e.key.len() <= u64::MAX,
            e.val.len() <= u64::MAX,
        ensures
            replay(self.file_manager.logs()) == replay(pre.file_manager.logs()).insert(
                e.key,
                rec_entry(
                    item.file_id,
                    RecordV { key: e.key, val: e.val, ts: e.ts, val_pos: item.val_pos as int },
                ),
            ),
    {
        let bytes = spec_record_bytes(e);
        let logs0 = pre.file_manager.logs();
        let logs1 = self.file_manager.logs();
        let fits = pre.file_manager.current is Some && pre.file_manager.active_len() + bytes.len()
            <= pre.file_manager.config.max_log_file_size;
        lemma_record_len(e);
        if fits {
            let n = logs0.len() as int;
            let last0 = logs0.last();
            let d0 = last0.data;
            let rec = RecordV {
                key: e.key,
                val: e.val,
                ts: e.ts,
                val_pos: d0.len() + 36 + e.key.len() as int,
            };
            assert(fully_valid(d0)) by {
                assert(d0 == pre.file_manager.inner@.last().data@);
            }
            lemma_append_record(d0, e);
            assert(logs0.take(n - 1).push(last0) =~= logs0);
            lemma_fold_segs_snoc(Map::empty(), logs0.take(n - 1), last0);
            let last1 = LogV { id: last0.id, data: d0 + bytes };
            assert(logs1.take(n - 1) =~= logs0.take(n - 1));
            assert(logs1.take(n - 1).push(last1) =~= logs1);
            lemma_fold_segs_snoc(Map::empty(), logs1.take(n - 1), last1);
            lemma_fold_recs_snoc(
                replay(logs0.take(n - 1)),
                last0.id,
                spec_records(d0),
                rec,
            );
            assert(spec_records(last1.data) == spec_records(d0).push(rec)) by {
                assert(spec_records(d0) + seq![rec] =~= spec_records(d0).push(rec));
            }
            assert(item.val_pos as int == rec.val_pos);
            assert(rec_entry(item.file_id, rec) == rec_entry(
                item.file_id,
                RecordV { key: e.key, val: e.val, ts: e.ts, val_pos: item.val_pos as int },
            ));
        } else {
            let newid = SegmentId { ts: (pre.file_manager.clock + 1) as u128, seq: 0 };
            let rec = RecordV { key: e.key, val: e.val, ts: e.ts, val_pos: 36 + e.key.len() as int };
            lemma_records_empty();
            lemma_append_record(Seq::<u8>::empty(), e);
            assert(Seq::<u8>::empty() + bytes =~= bytes);
            assert(spec_records(bytes) =~= seq![rec]);
            let newseg = LogV { id: newid, data: bytes };
            assert(logs0.push(newseg) =~= logs1);
            lemma_fold_segs_snoc(Map::empty(), logs0, newseg);
            lemma_fold_recs_snoc(replay(logs0), newid, Seq::<RecordV>::empty(), rec);
            assert(Seq::<RecordV>::empty().push(rec) =~= seq![rec]);
            assert(fold_recs(replay(logs0), newid, Seq::<RecordV>::empty()) == replay(logs0));
            assert(item.val_pos as int == rec.val_pos);
        }
    }

    /// The logs of the closed (read-only) segments: everything but the
    /// active one.
    pub closed spec fn closed_logs(&self) -> Seq<LogV> {
        if self.file_manager.current is Some {
            self.logs().drop_last()
        } else {
            self.logs()
        }
    }

    /// How many keys the index currently holds, tombstoned ones included.
    pub closed spec fn index_size(&self) -> int {
        replay(self.logs()).dom().len() as int
    }

    /// The indexed keys whose current record lives in a closed segment:
    /// the keys a merge is responsible for carrying over.
    pub closed spec fn live_keys_in_closed(&self) -> Set<Seq<u8>> {
        Set::new(
            |k: Seq<u8>|
                replay(self.logs()).contains_key(k) && exists|i: int|
                    0 <= i < self.closed_logs().len() && (#[trigger] self.closed_logs()[i]).id
                        == replay(self.logs())[k].item.file_id,
        )
    }

    /// What the index size counts — the distinct keys of the replayed
    /// logs — and a bound on the subset a merge carries over.
    pub proof fn lemma_index_bounds(&self)
        requires
            self.wf(),
        ensures
            self.index_size() == replay(self.logs()).dom().len(),
            self.live_keys_in_closed().finite(),
            self.live_keys_in_closed().len() <= self.index_size(),
    {
        self.keydir.lemma_dom_len();
        assert(self.keydir@.dom() =~= replay(self.logs()).dom());
        assert(self.live_keys_in_closed().subset_of(replay(self.logs()).dom()));
        vstd::set_lib::lemma_len_subset(self.live_keys_in_closed(), replay(self.logs()).dom());
    }

    /// Compact the closed segments: rewrite only the records the keydir
    /// still points at into fresh segments (with hint sidecars), publish
    /// the new locators, and drop the inputs. The visible contents never
    /// change, and afterwards the closed segments hold at most one record
    /// per indexed key.
    pub fn merge(&mut self) -> (r: Result<(), MergeUnderway>)
        requires
            old(self).wf(),
        ensures
            final(self).wf(),
            final(self)@ == old(self)@,
            final(self).spec_merging() == old(self).spec_merging(),
            r is Err <==> old(self).spec_merging(),
            r is Err ==> final(self).disk() == old(self).disk(),
            r is Ok ==> records_count(final(self).closed_logs()) <= old(self).index_size(),
            r is Ok ==> records_count(final(self).closed_logs()) == old(
                self,
            ).live_keys_in_closed().len(),
            r is Ok ==> forall|i: int|
                0 <= i < final(self).disk().len() ==> ((#[trigger] final(self).disk()[i]).hint
                    is Some || final(self).disk()[i].writable),
            final(self).spec_clock() == old(self).spec_clock(),
            final(self).config_max() == old(self).config_max(),
            r is Ok ==> final(self).spec_has_active() == old(self).spec_has_active(),
            r is Ok && old(self).spec_has_active() ==> final(self).disk().len() > 0
                && final(self).disk().last() == old(self).disk().last(),
            r is Ok ==> final(self).closed_logs().len() <= old(self).live_keys_in_closed().len(),
    {
        if self.merging {
            return Err(MergeUnderway);
        }
        self.merging = true;
        let n = self.file_manager.inner.len();
        let has_active = self.file_manager.current.is_some();
        let n_inputs = if has_active {
            n - 1
        } else {
            n
        };
        proof {
            self.file_manager.lemma_logs_index();
            self.file_manager.lemma_ids_unique();
        }
        if n_inputs == 0 {
            self.merging = false;
            proof {
                if has_active {
                    assert(self.closed_logs() =~= Seq::<LogV>::empty());
                } else {
                    assert(self.closed_logs() =~= Seq::<LogV>::empty());
                }
                assert forall|x: int| 0 <= x < self.disk().len() implies ((#[trigger] self.disk()[
                x]).hint is Some || self.disk()[x].writable) by {
                    assert(self.disk()[x] == self.file_manager.inner@[x]@);
                    assert(self.file_manager.inner@[x].writable);
                }
                assert(old(self).closed_logs() =~= Seq::<LogV>::empty());
                assert(old(self).live_keys_in_closed() =~= Set::<Seq<u8>>::empty());
                broadcast use vstd::set::axiom_set_empty_len;
            }
            return Ok(());
        }
        let ghost old_logs = self.logs();
        let ghost inputs = old_logs.take(n_inputs as int);
        let ghost act = old_logs.skip(n_inputs as int);
        let ghost kd0 = replay(old_logs);
        let base_ts = vstd::slice::slice_index_get(
            self.file_manager.inner.as_slice(),
            n_inputs - 1,
        ).id.ts;
        let max = self.file_manager.config.max_log_file_size;
        let mut outputs: Vec<Segment> = Vec::new();
        let mut delta = KeyDir::new();
        let mut i: usize = 0;
        proof {
            assert(inputs + act =~= old_logs);
            lemma_replay_concat(inputs, act);
            assert(segs_logs(outputs@) =~= Seq::<LogV>::empty());
            assert(records_count(Seq::<LogV>::empty()) == 0);
            assert(forall|k: Seq<u8>| !(#[trigger] matched_in(kd0, inputs, 0, k)));
            self.file_manager.lemma_logs_index();
            self.file_manager.lemma_ids_unique();
            assert forall|a: int, b: int| 0 <= a < b < old_logs.len() implies (
            #[trigger] old_logs[a]).id != (#[trigger] old_logs[b]).id by {
                assert(old_logs[a].id == self.file_manager.inner@[a].id);
                assert(old_logs[b].id == self.file_manager.inner@[b].id);
            }
        }
        while i < n_inputs
            invariant
                old(self).wf(),
                self.file_manager == old(self).file_manager,
                self.keydir == old(self).keydir,
                self.merging,
                0 <= i <= n_inputs,
                n_inputs == (if has_active {
                    self.file_manager.inner@.len() - 1
                } else {
                    self.file_manager.inner@.len() as int
                }),
                has_active == (self.file_manager.current is Some),
                old_logs == self.logs(),
                inputs == old_logs.take(n_inputs as int),
                kd0 == replay(old_logs),
                base_ts == inputs[n_inputs - 1].id.ts,
                max == self.file_manager.config.max_log_file_size,
                forall|a: int, b: int|
                    0 <= a < b < old_logs.len() ==> (#[trigger] old_logs[a]).id
                        != (#[trigger] old_logs[b]).id,
                forall|a: int|
                    0 <= a < old_logs.len() ==> (#[trigger] old_logs[a].data).len() <= usize::MAX,
                delta.wf(),
                outputs_wf(outputs@, base_ts),
                proj_items(replay(segs_logs(outputs@))) == delta@,
                forall|k: Seq<u8>| #[trigger]
                    delta@.contains_key(k) ==> replay(segs_logs(outputs@)).contains_key(k)
                        && replay(segs_logs(outputs@))[k].val == kd0[k].val,
                forall|k: Seq<u8>| #[trigger]
                    delta@.contains_key(k) <==> matched_in(kd0, inputs, i as int, k),
                records_count(segs_logs(outputs@)) == delta.data@.len(),
            decreases n_inputs - i,
        {
            let seg = vstd::slice::slice_index_get(self.file_manager.inner.as_slice(), i);
            let ghost recs = spec_records(seg.data@);
            let ghost seg_id = seg.id;
            let mut items = scan_records(seg.id, &seg.data);
            let total_e = items.len();
            let ghost total = total_e as int;
            let mut j: usize = 0;
            proof {
                lemma_records_within(seg.data@, 0);
                crate::record::lemma_records_ordered(seg.data@, 0);
                self.file_manager.lemma_logs_index();
                assert(inputs[i as int] == old_logs[i as int]);
                assert(inputs[i as int].id == seg_id && inputs[i as int].data == seg.data@);
                assert(inputs[i as int].data.len() <= usize::MAX);
                assert(forall|k: Seq<u8>| !(#[trigger] matched_in_recs(kd0, inputs, i as int, 0, k)));
            }
            while items.len() > 0
                invariant
                    old(self).wf(),
                    self.file_manager == old(self).file_manager,
                    self.keydir == old(self).keydir,
                    self.merging,
                    0 <= i < n_inputs,
                    n_inputs == (if has_active {
                        self.file_manager.inner@.len() - 1
                    } else {
                        self.file_manager.inner@.len() as int
                    }),
                    has_active == (self.file_manager.current is Some),
                    old_logs == self.logs(),
                    inputs == old_logs.take(n_inputs as int),
                    kd0 == replay(old_logs),
                    base_ts == inputs[n_inputs - 1].id.ts,
                    max == self.file_manager.config.max_log_file_size,
                    seg_id == inputs[i as int].id,
                    recs == spec_records(inputs[i as int].data),
                    inputs[i as int].data.len() <= usize::MAX,
                    forall|a: int, b: int|
                        0 <= a < b < old_logs.len() ==> (#[trigger] old_logs[a]).id
                            != (#[trigger] old_logs[b]).id,
                    forall|a: int|
                        0 <= a < old_logs.len() ==> (#[trigger] old_logs[a].data).len()
                            <= usize::MAX,
                    items_match(items@, recs.skip(j as int), seg_id),
                    j + items@.len() == total,
                    total == recs.len(),
                    total <= usize::MAX,
                    0 <= j,
                    forall|j1: int, j2: int|
                        0 <= j1 < j2 < recs.len() ==> (#[trigger] recs[j1]).val_pos
                            < (#[trigger] recs[j2]).val_pos,
                    forall|jj: int|
                        0 <= jj < recs.len() ==> 0 <= (#[trigger] recs[jj]).val_pos
                            && recs[jj].end() <= inputs[i as int].data.len(),
                    delta.wf(),
                    outputs_wf(outputs@, base_ts),
                    proj_items(replay(segs_logs(outputs@))) == delta@,
                    forall|k: Seq<u8>| #[trigger]
                        delta@.contains_key(k) ==> replay(segs_logs(outputs@)).contains_key(k)
                            && replay(segs_logs(outputs@))[k].val == kd0[k].val,
                    forall|k: Seq<u8>| #[trigger]
                        delta@.contains_key(k) <==> matched_in(kd0, inputs, i as int, k)
                            || matched_in_recs(kd0, inputs, i as int, j as int, k),
                    records_count(segs_logs(outputs@)) == delta.data@.len(),
                decreases items@.len(),
            {
                let ghost items0 = items@;
                let it = items.remove(0);
                let ghost r = recs[j as int];
                proof {
                    assert(items0[0] == it);
                    assert(recs.skip(j as int)[0] == r);
                    assert(it.entry@.key == r.key && it.entry@.val == r.val && it.entry.ts == r.ts
                        && it.val_pos == r.val_pos);
                }
                let cand = Item {
                    file_id: it.file_id,
                    val_sz: it.entry.val.len(),
                    val_pos: it.val_pos,
                    ts: it.entry.ts,
                };
                proof {
                    assert(it.file_id == seg_id);
                    assert(cand == rec_entry(seg_id, r).item);
                }
                let retain = match self.keydir.get(it.entry.key.as_slice()) {
                    Some(cur) => cur == cand,
                    None => false,
                };
                if retain {
                    let ghost k = r.key;
                    proof {
                        assert(self.keydir@ == proj_items(kd0));
                        assert(kd0.contains_key(k) && kd0[k].item == cand);
                        assert forall|a: int, b: int| 0 <= a < b < inputs.len() implies (
                        #[trigger] inputs[a]).id != (#[trigger] inputs[b]).id by {
                            assert(inputs[a] == old_logs[a] && inputs[b] == old_logs[b]);
                        }
                        assert forall|a: int| 0 <= a < inputs.len() implies (
                        #[trigger] inputs[a].data).len() <= usize::MAX by {
                            assert(inputs[a] == old_logs[a]);
                        }
                        assert(inputs[i as int] == old_logs[i as int]);
                        lemma_merge_fresh(kd0, inputs, i as int, j as int, k);
                        assert(!delta@.contains_key(k));
                        lemma_merge_val(kd0, old_logs, i as int, j as int, k);
                        assert(kd0[k].val == r.val);
                    }
                    let ghost delta_pre = delta@;
                    let ghost out_pre = outputs@;
                    merge_append(&mut outputs, &mut delta, base_ts, max, &it.entry);
                    proof {
                        assert forall|k2: Seq<u8>| #[trigger] delta@.contains_key(k2) implies
                            replay(segs_logs(outputs@)).contains_key(k2) && replay(
                            segs_logs(outputs@),
                        )[k2].val == kd0[k2].val by {
                            if k2 != k {
                                assert(delta_pre.contains_key(k2));
                                assert(replay(segs_logs(out_pre)).contains_key(k2));
                            }
                        }
                        assert forall|k2: Seq<u8>| #[trigger]
                            delta@.contains_key(k2) <==> matched_in(kd0, inputs, i as int, k2)
                                || matched_in_recs(kd0, inputs, i as int, j + 1, k2) by {
                            if k2 == k {
                                assert(matched_in_recs(kd0, inputs, i as int, j + 1, k2));
                            } else {
                                assert(matched_in_recs(kd0, inputs, i as int, j + 1, k2)
                                    == matched_in_recs(kd0, inputs, i as int, j as int, k2)) by {
                                    if matched_in_recs(kd0, inputs, i as int, j + 1, k2) {
                                        let j2 = choose|j2: int|
                                            0 <= j2 < j + 1 && (#[trigger] spec_records(
                                                inputs[i as int].data,
                                            )[j2]).key == k2 && kd0.contains_key(k2)
                                                && kd0[k2].item == rec_entry(
                                                inputs[i as int].id,
                                                spec_records(inputs[i as int].data)[j2],
                                            ).item;
                                        assert(j2 != j);
                                        assert(matched_in_recs(kd0, inputs, i as int, j as int, k2));
                                    }
                                }
                            }
                        }
                    }
                } else {
                    proof {
                        let ghost k = r.key;
                        assert forall|k2: Seq<u8>| #[trigger]
                            delta@.contains_key(k2) <==> matched_in(kd0, inputs, i as int, k2)
                                || matched_in_recs(kd0, inputs, i as int, j + 1, k2) by {
                            if matched_in_recs(kd0, inputs, i as int, j + 1, k2) {
                                let j2 = choose|j2: int|
                                    0 <= j2 < j + 1 && (#[trigger] spec_records(
                                        inputs[i as int].data,
                                    )[j2]).key == k2 && kd0.contains_key(k2) && kd0[k2].item
                                        == rec_entry(
                                        inputs[i as int].id,
                                        spec_records(inputs[i as int].data)[j2],
                                    ).item;
                                if j2 == j {
                                    assert(self.keydir@ == proj_items(kd0));
                                    assert(self.keydir@.contains_key(k));
                                    assert(false);
                                } else {
                                    assert(matched_in_recs(kd0, inputs, i as int, j as int, k2));
                                }
                            }
                        }
                    }
                }
                j += 1;
                proof {
                    assert(items@ =~= items0.drop_first());
                    assert(recs.skip(j - 1).drop_first() =~= recs.skip(j as int));
                    assert(items_match(items@, recs.skip(j as int), seg_id));
                }
            }
            proof {
                lemma_matched_step(kd0, inputs, i as int);
                assert(j == recs.len());
            }
            i += 1;
        }
        // Finalization: register the outputs, repoint the keydir, drop the
        // inputs.
        proof {
            assert(i == n_inputs);
        }
        let ghost out_logs = segs_logs(outputs@);
        let ghost outputs_g = outputs@;
        let ghost delta0 = delta;
        proof {
            assert(outputs_g.len() == outputs.len());
        }
        let mut new_inner = outputs;
        if has_active {
            let active = self.file_manager.inner.pop().unwrap();
            new_inner.push(active);
        }
        self.file_manager.inner = new_inner;
        let ghost kd_pre = self.keydir@;
        let ghost fm_mid = self.file_manager;
        let KeyDir { data: mut pairs } = delta;
        let ghost pairs0 = pairs@;
        let mut j: usize = 0;
        proof {
            assert(pairs0.len() == pairs.len());
            assert(pairs0.take(0) =~= Seq::<(Vec<u8>, Item)>::empty());
            assert(crate::keydir::assoc_view(pairs0.take(0)) =~= Map::<Seq<u8>, Item>::empty());
            assert(self.keydir@ =~= kd_pre.union_prefer_right(
                crate::keydir::assoc_view(pairs0.take(0)),
            ));
        }
        while pairs.len() > 0
            invariant
                self.keydir.wf(),
                0 <= j,
                j + pairs@.len() == pairs0.len(),
                pairs0.len() <= usize::MAX,
                pairs@ == pairs0.skip(j as int),
                self.keydir@ == kd_pre.union_prefer_right(
                    crate::keydir::assoc_view(pairs0.take(j as int)),
                ),
                self.file_manager == fm_mid,
                self.merging,
            decreases pairs@.len(),
        {
            let ghost pairs_pre = pairs@;
            let kv = pairs.remove(0);
            proof {
                assert(pairs_pre[0] == kv);
                assert(pairs_pre[0] == pairs0[j as int]);
                assert(pairs0.take(j + 1) =~= pairs0.take(j as int).push(kv));
                assert(pairs0.take(j + 1).drop_last() =~= pairs0.take(j as int));
                assert(pairs0.take(j + 1).last() == kv);
                assert(crate::keydir::assoc_view(pairs0.take(j + 1))
                    == crate::keydir::assoc_view(pairs0.take(j as int)).insert(kv.0@, kv.1));
            }
            self.keydir.set(kv.0, kv.1);
            j += 1;
            proof {
                assert(pairs@ =~= pairs0.skip(j as int));
                assert(self.keydir@ =~= kd_pre.union_prefer_right(
                    crate::keydir::assoc_view(pairs0.take(j as int)),
                ));
            }
        }
        self.merging = false;
        proof {
            assert(pairs0.take(j as int) =~= pairs0);
            assert(self.keydir@ == kd_pre.union_prefer_right(delta0@));
            self.lemma_merge_finalize(*old(self), kd0, old_logs, inputs, act, n_inputs as int,
                out_logs, outputs_g, delta0, base_ts, has_active);
        }
        Ok(())
    }

    /// Merge finalization is sound: with the outputs registered in place of
    /// the inputs and the delta applied over the keydir, the store is
    /// well-formed again, reads are unchanged, and the closed segments hold
    /// at most one record per indexed key.
    proof fn lemma_merge_finalize(
        &self,
        old_self: BitCask,
        kd0: Map<Seq<u8>, EntrySpec>,
        old_logs: Seq<LogV>,
        inputs: Seq<LogV>,
        act: Seq<LogV>,
        n_inputs: int,
        out_logs: Seq<LogV>,
        outputs_g: Seq<Segment>,
        delta0: KeyDir,
        base_ts: u128,
        has_active: bool,
    )
        requires
            old_self.wf(),
            old_logs == old_self.file_manager.logs(),
            1 <= n_inputs <= old_logs.len(),
            has_active == (old_self.file_manager.current is Some),
            n_inputs == old_logs.len() - (if has_active {
                1int
            } else {
                0
            }),
            inputs == old_logs.take(n_inputs),
            act == old_logs.skip(n_inputs),
            kd0 == replay(old_logs),
            delta0.wf(),
            delta0@ == proj_items(replay(out_logs)),
            forall|k: Seq<u8>| #[trigger]
                delta0@.contains_key(k) ==> replay(out_logs).contains_key(k) && replay(
                    out_logs,
                )[k].val == kd0[k].val,
            forall|k: Seq<u8>| #[trigger]
                delta0@.contains_key(k) <==> matched_in(kd0, inputs, n_inputs, k),
            records_count(out_logs) == delta0.data@.len(),
            outputs_wf(outputs_g, base_ts),
            out_logs == segs_logs(outputs_g),
            outputs_g.len() <= usize::MAX,
            base_ts == inputs[n_inputs - 1].id.ts,
            self.file_manager.config == old_self.file_manager.config,
            self.file_manager.current == old_self.file_manager.current,
            self.file_manager.clock == old_self.file_manager.clock,
            self.file_manager.inner@.len() == outputs_g.len() + (if has_active {
                1int
            } else {
                0
            }),
            forall|x: int|
                0 <= x < outputs_g.len() ==> #[trigger] self.file_manager.inner@[x]
                    == outputs_g[x],
            has_active ==> self.file_manager.inner@.last()
                == old_self.file_manager.inner@.last(),
            self.keydir.wf(),
            self.keydir@ == proj_items(kd0).union_prefer_right(delta0@),
        ensures
            self.file_manager.wf(),
            self.keydir@ == proj_items(replay(self.file_manager.logs())),
            replay_view(self.file_manager.logs()) == replay_view(old_logs),
            records_count(
                if self.file_manager.current is Some {
                    self.file_manager.logs().drop_last()
                } else {
                    self.file_manager.logs()
                },
            ) <= replay(old_logs).dom().len(),
            records_count(
                if self.file_manager.current is Some {
                    self.file_manager.logs().drop_last()
                } else {
                    self.file_manager.logs()
                },
            ) == old_self.live_keys_in_closed().len(),
            (if self.file_manager.current is Some {
                self.file_manager.logs().drop_last()
            } else {
                self.file_manager.logs()
            }).len() <= old_self.live_keys_in_closed().len(),
            has_active ==> self.file_manager.disk().len() > 0 && self.file_manager.disk().last()
                == old_self.file_manager.disk().last(),
            forall|i: int|
                0 <= i < self.file_manager.disk().len() ==> ((#[trigger] self.file_manager.disk()[
                i]).hint is Some || self.file_manager.disk()[i].writable),
    {
        let new_logs = self.file_manager.logs();
        let n_out = outputs_g.len() as int;
        self.file_manager.lemma_logs_index();
        old_self.file_manager.lemma_logs_index();
        old_self.file_manager.lemma_ids_unique();
        assert(self.file_manager.inner.len() == self.file_manager.inner@.len());
        assert(inputs.len() == n_inputs);
        // The new logs are the outputs followed by the surviving active
        // segment.
        assert forall|x: int| 0 <= x < n_out implies #[trigger] new_logs[x] == out_logs[x] by {
            assert(self.file_manager.inner@[x] == outputs_g[x]);
            assert(out_logs[x] == (LogV { id: outputs_g[x].id, data: outputs_g[x].data@ }));
        }
        assert(new_logs =~= out_logs + act) by {
            if has_active {
                assert(act =~= seq![old_logs.last()]);
                assert(new_logs.last() == old_logs.last());
            } else {
                assert(act =~= Seq::<LogV>::empty());
            }
        }
        assert(inputs + act =~= old_logs);
        lemma_replay_concat(inputs, act);
        lemma_replay_concat(out_logs, act);
        // Keys whose current record lives in the active segment are exactly
        // those the delta avoids.
        assert forall|k: Seq<u8>| #[trigger] replay(act).contains_key(k) implies kd0.contains_key(
            k,
        ) && kd0[k] == replay(act)[k] && !delta0@.contains_key(k) && replay(
            act,
        )[k].item.file_id == old_logs.last().id by {
            assert(kd0 == replay(inputs).union_prefer_right(replay(act)));
            lemma_replay_src_at(act, k);
            let (i2, j2): (int, int) = choose|i2: int, j2: int|
                {
                    &&& 0 <= i2 < act.len()
                    &&& 0 <= j2 < spec_records((#[trigger] act[i2]).data).len()
                    &&& act[i2].id == replay(act)[k].item.file_id
                    &&& (#[trigger] spec_records(act[i2].data)[j2]).key == k
                    &&& rec_entry(act[i2].id, spec_records(act[i2].data)[j2]) == replay(act)[k]
                };
            assert(act[0] == old_logs.last());
            assert(replay(act)[k].item.file_id == old_logs.last().id);
            if delta0@.contains_key(k) {
                let (a, b): (int, int) = choose|a: int, b: int|
                    {
                        &&& 0 <= a < n_inputs <= inputs.len()
                        &&& 0 <= b < spec_records((#[trigger] inputs[a]).data).len()
                        &&& (#[trigger] spec_records(inputs[a].data)[b]).key == k
                        &&& kd0.contains_key(k)
                        &&& kd0[k].item == rec_entry(inputs[a].id, spec_records(inputs[a].data)[b]).item
                    };
                assert(inputs[a].id == old_logs[a].id);
                assert(old_logs[a].id == old_logs.last().id);
                assert(old_logs[a].id.ts < old_logs.last().id.ts);
                assert(false);
            }
        }
        // Keys whose current record lives in a closed segment are exactly
        // the delta's keys, and the delta preserves their values.
        assert forall|k: Seq<u8>|
            kd0.contains_key(k) && !replay(act).contains_key(k) implies #[trigger] delta0@.contains_key(
            k,
        ) && replay(out_logs).contains_key(k) && replay(out_logs)[k].val == kd0[k].val by {
            assert(kd0 == replay(inputs).union_prefer_right(replay(act)));
            assert(replay(inputs).contains_key(k) && kd0[k] == replay(inputs)[k]);
            lemma_replay_src_at(inputs, k);
            let (i2, j2): (int, int) = choose|i2: int, j2: int|
                {
                    &&& 0 <= i2 < inputs.len()
                    &&& 0 <= j2 < spec_records((#[trigger] inputs[i2]).data).len()
                    &&& inputs[i2].id == replay(inputs)[k].item.file_id
                    &&& (#[trigger] spec_records(inputs[i2].data)[j2]).key == k
                    &&& rec_entry(inputs[i2].id, spec_records(inputs[i2].data)[j2]) == replay(
                        inputs,
                    )[k]
                };
            assert(rec_entry(inputs[i2].id, spec_records(inputs[i2].data)[j2]).item
                == kd0[k].item);
            assert(matched_in(kd0, inputs, n_inputs, k));
            assert(delta0@.contains_key(k));
        }
        // The published keydir is the replay of the new logs.
        assert(self.keydir@ =~= proj_items(replay(new_logs))) by {
            assert(replay(new_logs) == replay(out_logs).union_prefer_right(replay(act)));
            assert forall|k: Seq<u8>| #[trigger] self.keydir@.contains_key(k) implies replay(
                new_logs,
            ).contains_key(k) && self.keydir@[k] == replay(new_logs)[k].item by {
                if delta0@.contains_key(k) {
                    assert(!replay(act).contains_key(k));
                    assert(self.keydir@[k] == delta0@[k]);
                } else {
                    assert(kd0.contains_key(k));
                    assert(replay(act).contains_key(k));
                }
            }
            assert forall|k: Seq<u8>| #[trigger] replay(new_logs).contains_key(k) implies self
                .keydir@.contains_key(k) by {
                if replay(act).contains_key(k) {
                    assert(kd0.contains_key(k));
                } else {
                    assert(replay(out_logs).contains_key(k));
                    assert(delta0@.contains_key(k));
                }
            }
        }
        // Reads are unchanged.
        assert(replay_view(new_logs) =~= replay_view(old_logs)) by {
            assert forall|k: Seq<u8>|
                #![trigger replay(new_logs).contains_key(k)]
                #![trigger replay(old_logs).contains_key(k)]
                true implies {
                (replay(new_logs).contains_key(k) <==> replay(old_logs).contains_key(k))
                    && (replay(new_logs).contains_key(k) ==> replay(new_logs)[k].val == replay(
                    old_logs,
                )[k].val)
            } by {
                assert(replay(new_logs) == replay(out_logs).union_prefer_right(replay(act)));
                if replay(act).contains_key(k) {
                } else if kd0.contains_key(k) {
                    assert(delta0@.contains_key(k));
                } else {
                    if replay(out_logs).contains_key(k) {
                        assert(delta0@.contains_key(k));
                        assert(matched_in(kd0, inputs, n_inputs, k));
                        assert(kd0.contains_key(k));
                        assert(false);
                    }
                }
            }
        }
        // The registry is well-formed again.
        assert(self.file_manager.wf()) by {
            assert forall|x: int, y: int|
                0 <= x < y < self.file_manager.inner@.len() implies id_lt(
                #[trigger] self.file_manager.inner@[x].id,
                #[trigger] self.file_manager.inner@[y].id,
            ) by {
                if y < n_out {
                    assert(self.file_manager.inner@[x] == outputs_g[x]);
                    assert(self.file_manager.inner@[y] == outputs_g[y]);
                    assert(outputs_g[x]@.id == SegmentId { ts: base_ts, seq: (x + 1) as u128 });
                    assert(outputs_g[y]@.id == SegmentId { ts: base_ts, seq: (y + 1) as u128 });
                } else {
                    assert(has_active);
                    assert(self.file_manager.inner@[y]
                        == old_self.file_manager.inner@.last());
                    assert(self.file_manager.inner@[x] == outputs_g[x]);
                    assert(outputs_g[x]@.id == SegmentId { ts: base_ts, seq: (x + 1) as u128 });
                    assert(base_ts == old_logs[n_inputs - 1].id.ts);
                    assert(old_logs[n_inputs - 1].id.ts
                        < old_self.file_manager.inner@.last().id.ts);
                }
            }
            assert forall|x: int| 0 <= x < self.file_manager.inner@.len() implies #[trigger] self
                .file_manager.inner@[x].id.ts <= self.file_manager.clock by {
                if x < n_out {
                    assert(self.file_manager.inner@[x] == outputs_g[x]);
                    assert(old_logs[n_inputs - 1].id.ts
                        == old_self.file_manager.inner@[n_inputs - 1].id.ts);
                } else {
                    assert(self.file_manager.inner@[x]
                        == old_self.file_manager.inner@.last());
                }
            }
            match self.file_manager.current {
                None => {
                    assert forall|x: int| 0 <= x < self.file_manager.inner@.len() implies !(
                    #[trigger] self.file_manager.inner@[x].writable) by {
                        assert(self.file_manager.inner@[x] == outputs_g[x]);
                    }
                },
                Some(id) => {
                    assert(self.file_manager.inner@.last()
                        == old_self.file_manager.inner@.last());
                    assert forall|x: int|
                        0 <= x < self.file_manager.inner@.len() - 1 implies !(#[trigger] self
                        .file_manager.inner@[x].writable) && self.file_manager.inner@[x].id.ts
                        < id.ts by {
                        assert(self.file_manager.inner@[x] == outputs_g[x]);
                        assert(base_ts == old_logs[n_inputs - 1].id.ts);
                        assert(old_logs[n_inputs - 1].id.ts
                            < old_self.file_manager.inner@.last().id.ts);
                    }
                },
            }
        }
        // The closed segments now hold one record per repointed key.
        let closed = if self.file_manager.current is Some {
            new_logs.drop_last()
        } else {
            new_logs
        };
        assert(closed =~= out_logs);
        assert forall|x: int| 0 <= x < self.file_manager.disk().len() implies ((
        #[trigger] self.file_manager.disk()[x]).hint is Some || self.file_manager.disk()[
        x].writable) by {
            assert(self.file_manager.disk()[x] == self.file_manager.inner@[x]@);
            if x < n_out {
                assert(self.file_manager.inner@[x] == outputs_g[x]);
                assert(outputs_g[x]@.hint is Some);
            } else {
                assert(self.file_manager.inner@[x] == old_self.file_manager.inner@.last());
                assert(old_self.file_manager.inner@.last().writable);
            }
        }
        delta0.lemma_dom_len();
        old_self.keydir.lemma_dom_len();
        assert(old_self.keydir@.dom() =~= kd0.dom());
        assert(delta0@.dom().subset_of(kd0.dom()));
        vstd::set_lib::lemma_len_subset(delta0@.dom(), kd0.dom());
        // The repointed keys are exactly the indexed keys that lived in the
        // inputs, so the merged record count is exactly their number.
        assert(old_self.closed_logs() =~= inputs);
        assert(old_self.logs() == old_logs);
        assert forall|k: Seq<u8>| #[trigger] delta0@.contains_key(k) implies old_self
            .live_keys_in_closed().contains(k) by {
            assert(matched_in(kd0, inputs, n_inputs, k));
            let (i2, j2): (int, int) = choose|i2: int, j2: int|
                {
                    &&& 0 <= i2 < n_inputs <= inputs.len()
                    &&& 0 <= j2 < spec_records((#[trigger] inputs[i2]).data).len()
                    &&& (#[trigger] spec_records(inputs[i2].data)[j2]).key == k
                    &&& kd0.contains_key(k)
                    &&& kd0[k].item == rec_entry(inputs[i2].id, spec_records(inputs[i2].data)[j2]).item
                };
            assert(old_self.closed_logs()[i2].id == replay(old_self.logs())[k].item.file_id);
        }
        assert forall|k: Seq<u8>| #[trigger] old_self.live_keys_in_closed().contains(
            k,
        ) implies delta0@.contains_key(k) by {
            let i = choose|i: int|
                0 <= i < old_self.closed_logs().len() && (#[trigger] old_self.closed_logs()[i]).id
                    == replay(old_self.logs())[k].item.file_id;
            assert(inputs[i].id == kd0[k].item.file_id);
            if replay(act).contains_key(k) {
                assert(kd0[k].item.file_id == old_logs.last().id);
                assert(inputs[i] == old_logs[i]);
                assert(old_logs[i].id == old_self.file_manager.inner@[i].id);
                assert(old_logs.last().id == old_self.file_manager.inner@.last().id);
                assert(old_self.file_manager.inner@[i].id.ts
                    < old_self.file_manager.inner@.last().id.ts);
                assert(false);
            }
        }
        assert(delta0@.dom() =~= old_self.live_keys_in_closed());
        // Each output was opened only to take a record, so there are no
        // more output segments than repointed keys.
        assert forall|x: int| 0 <= x < out_logs.len() implies spec_records(
            (#[trigger] out_logs[x]).data,
        ).len() >= 1 by {
            assert(out_logs[x] == (LogV { id: outputs_g[x].id, data: outputs_g[x].data@ }));
            assert(outputs_g[x]@.data == outputs_g[x].data@);
        }
        crate::replay::lemma_records_count_lower(out_logs);
        // The surviving active segment is byte-identical.
        if has_active {
            let m = self.file_manager.inner@.len() - 1;
            assert(self.file_manager.disk()[m] == self.file_manager.inner@[m]@);
            let m0 = old_self.file_manager.inner@.len() - 1;
            assert(old_self.file_manager.disk()[m0] == old_self.file_manager.inner@[m0]@);
        }
    }

    /// How many segment files the store holds, the active one included.
    pub fn segment_count(&self) -> (r: usize)
        ensures
            r == self.disk().len(),
    {
        self.file_manager.inner.len()
    }

    /// How many of the store's segments carry a hint sidecar.
    pub fn hint_count(&self) -> (r: usize)
        ensures
            r == hints_count(self.disk()),
    {
        let n = self.file_manager.inner.len();
        let mut i: usize = 0;
        let mut count: usize = 0;
        proof {
            assert(self.disk().take(0) =~= Seq::<SegV>::empty());
        }
        while i < n
            invariant
                n == self.file_manager.inner@.len(),
                n == self.disk().len(),
                0 <= i <= n,
                count == hints_count(self.disk().take(i as int)),
                count <= i,
            decreases n - i,
        {
            let seg = vstd::slice::slice_index_get(self.file_manager.inner.as_slice(), i);
            proof {
                assert(self.disk()[i as int] == seg@);
                assert(self.disk().take(i + 1).drop_last() =~= self.disk().take(i as int));
                assert(self.disk().take(i + 1).last() == seg@);
            }
            if seg.hint.is_some() {
                count += 1;
            }
            i += 1;
        }
        proof {
            assert(self.disk().take(n as int) =~= self.disk());
        }
        count
    }

    /// Close the store and hand back its segment images, ready to be opened
    /// again: the same segments in the same order, all read-only.
    pub fn into_files(self) -> (r: Vec<Segment>)
        requires
            self.wf(),
        ensures
            r@.len() == self.disk().len(),
            forall|i: int|
                0 <= i < r@.len() ==> {
                    let s = (#[trigger] r@[i])@;
                    &&& s.id == self.disk()[i].id
                    &&& s.data == self.disk()[i].data
                    &&& s.hint == self.disk()[i].hint
                    &&& !s.writable
                },
            forall|i: int, j: int|
                0 <= i < j < r@.len() ==> id_lt((#[trigger] r@[i])@.id, (#[trigger] r@[j])@.id),
            forall|i: int| 0 <= i < r@.len() ==> (#[trigger] r@[i])@.id.ts <= self.spec_clock(),
            segs_logs(r@) == self.logs(),
    {
        let ghost disk0 = self.disk();
        let ghost logs0 = self.logs();
        proof {
            self.file_manager.lemma_logs_index();
            assert forall|i: int| 0 <= i < disk0.len() implies (#[trigger] disk0[i]).id.ts
                <= self.spec_clock() by {
                assert(disk0[i] == self.file_manager.inner@[i]@);
            }
        }
        let mut v = self.file_manager.inner;
        let mut r: Vec<Segment> = Vec::new();
        let ghost v0 = v@;
        while v.len() > 0
            invariant
                r@.len() + v@.len() == v0.len(),
                v@ == v0.skip(r@.len() as int),
                v0.len() == disk0.len(),
                forall|i: int| 0 <= i < disk0.len() ==> #[trigger] v0[i]@ == disk0[i],
                forall|i: int|
                    0 <= i < r@.len() ==> {
                        let s = (#[trigger] r@[i])@;
                        &&& s.id == disk0[i].id
                        &&& s.data == disk0[i].data
                        &&& s.hint == disk0[i].hint
                        &&& !s.writable
                    },
                forall|i: int, j: int|
                    0 <= i < j < disk0.len() ==> id_lt(
                        (#[trigger] disk0[i]).id,
                        (#[trigger] disk0[j]).id,
                    ),
            decreases v@.len(),
        {
            let ghost vpre = v@;
            let ghost idx = r@.len() as int;
            let mut s = v.remove(0);
            proof {
                assert(vpre[0] == s);
                assert(vpre[0] == v0[idx]);
                assert(v0[idx]@ == disk0[idx]);
            }
            let ghost s0 = s;
            s.writable = false;
            proof {
                assert(s@.id == s0@.id && s@.data == s0@.data && s@.hint == s0@.hint
                    && !s@.writable);
            }
            r.push(s);
            proof {
                assert(r@[idx] == s);
                assert(v@ =~= v0.skip(r@.len() as int));
            }
        }
        proof {
            assert forall|i: int, j: int|
                0 <= i < j < r@.len() implies id_lt(
                (#[trigger] r@[i])@.id,
                (#[trigger] r@[j])@.id,
            ) by {
                assert(r@[i]@.id == disk0[i].id && r@[j]@.id == disk0[j].id);
            }
            assert forall|i: int| 0 <= i < r@.len() implies #[trigger] segs_logs(r@)[i]
                == logs0[i] by {
                assert(segs_logs(r@)[i] == (LogV { id: r@[i].id, data: r@[i].data@ }));
            }
            assert(segs_logs(r@) =~= logs0);
        }
        r
    }

    /// Copy out the store's current segment images, for mirroring them to
    /// the directory they model.
    pub fn export_files(&self) -> (r: Vec<Segment>)
        requires
            self.wf(),
        ensures
            r@.len() == self.disk().len(),
            forall|i: int|
                0 <= i < r@.len() ==> {
                    let s = (#[trigger] r@[i])@;
                    &&& s.id == self.disk()[i].id
                    &&& s.data == self.disk()[i].data
                    &&& s.hint == self.disk()[i].hint
                    &&& !s.writable
                },
            forall|i: int| 0 <= i < r@.len() ==> (#[trigger] r@[i])@.id.ts <= self.spec_clock(),
    {
        proof {
            self.file_manager.lemma_logs_index();
            assert forall|i: int| 0 <= i < self.disk().len() implies (#[trigger] self.disk()[
            i]).id.ts <= self.spec_clock() by {
                assert(self.disk()[i] == self.file_manager.inner@[i]@);
            }
        }
        let n = self.file_manager.inner.len();
        let mut r: Vec<Segment> = Vec::new();
        let mut i: usize = 0;
        while i < n
            invariant
                n == self.file_manager.inner@.len(),
                n == self.disk().len(),
                0 <= i <= n,
                r@.len() == i,
                forall|x: int|
                    0 <= x < i ==> {
                        let s = (#[trigger] r@[x])@;
                        &&& s.id == self.disk()[x].id
                        &&& s.data == self.disk()[x].data
                        &&& s.hint == self.disk()[x].hint
                        &&& !s.writable
                    },
            decreases n - i,
        {
            let seg = vstd::slice::slice_index_get(self.file_manager.inner.as_slice(), i);
            let data = vstd::slice::slice_to_vec(seg.data.as_slice());
            let hint = match &seg.hint {
                Some(h) => Some(vstd::slice::slice_to_vec(h.as_slice())),
                None => None,
            };
            let copy = Segment::new(seg.id, data, hint);
            proof {
                assert(self.disk()[i as int] == seg@);
            }
            r.push(copy);
            i += 1;
        }
        r
    }

    /// Durability: replaying the segment images the store holds yields
    /// exactly its visible contents, so a store reopened over a faithful
    /// copy of its directory reads the same values.
    pub proof fn lemma_durability(&self)
        requires
            self.wf(),
        ensures
            replay_view(disk_logs(self.disk())) == self@,
    {
        self.file_manager.lemma_logs_index();
        assert forall|i: int| 0 <= i < self.disk().len() implies #[trigger] disk_logs(
            self.disk(),
        )[i] == self.logs()[i] by {
            assert(self.disk()[i] == self.file_manager.inner@[i]@);
            assert(disk_logs(self.disk())[i] == (LogV {
                id: self.disk()[i].id,
                data: self.disk()[i].data,
            }));
        }
        assert(disk_logs(self.disk()) =~= self.logs());
    }

    /// Remove `key`: write the tombstone record for it. On success the key
    /// reads as missing until a later `set`.
    pub fn delete(&mut self, key: &[u8]) -> (r: Result<(), SetError>)
        requires
            old(self).wf(),
        ensures
            final(self).wf(),
            final(self).spec_merging() == old(self).spec_merging(),
            final(self).config_max() == old(self).config_max(),
            match r {
                Ok(()) => ({
                    let e = EntryV {
                        key: key@,
                        val: spec_tombstone(),
                        ts: (old(self).spec_clock() + 1) as u128,
                    };
                    let bytes = spec_record_bytes(e);
                    &&& final(self)@ == old(self)@.remove(key@)
                    &&& if old(self).active_fits(bytes.len() as int) {
                        &&& final(self).logs() == old(self).logs().update(
                            old(self).logs().len() - 1,
                            LogV {
                                id: old(self).logs().last().id,
                                data: old(self).logs().last().data + bytes,
                            },
                        )
                        &&& final(self).spec_clock() == old(self).spec_clock() + 1
                    } else {
                        &&& final(self).logs() == old(self).logs().push(
                            LogV {
                                id: SegmentId {
                                    ts: (old(self).spec_clock() + 2) as u128,
                                    seq: 0,
                                },
                                data: bytes,
                            },
                        )
                        &&& final(self).spec_clock() == old(self).spec_clock() + 2
                    }
                }),
                Err(SetError::OversizeRecord) => final(self)@ == old(self)@ && final(self).disk()
                    == old(self).disk() && final(self).spec_clock() == old(self).spec_clock() && 36
                    + key@.len() + 3 > old(self).config_max() as int,
                Err(SetError::ClockExhausted) => final(self)@ == old(self)@ && final(self).disk()
                    == old(self).disk() && final(self).spec_clock() == old(self).spec_clock() && 36
                    + key@.len() + 3 <= old(self).config_max() as int && old(self).spec_clock()
                    >= u128::MAX - 1,
            },
            r is Ok <==> (36 + key@.len() + 3 <= old(self).config_max() as int && old(
                self,
            ).spec_clock() < u128::MAX - 1),
    {
        let t = tombstone();
        self.set(key, t.as_slice())
    }
}

/// How many of the given segment images carry a hint sidecar.
pub open spec fn hints_count(ss: Seq<SegV>) -> int
    decreases ss.len(),
{
    if ss.len() == 0 {
        0
    } else {
        hints_count(ss.drop_last()) + (if ss.last().hint is Some {
            1int
        } else {
            0
        })
    }
}

/// The record logs of a sequence of segment images.
pub open spec fn disk_logs(ss: Seq<SegV>) -> Seq<LogV> {
    ss.map(|i: int, s: SegV| LogV { id: s.id, data: s.data })
}

/// Read-your-writes: a successful `set(k, v)` binds `k` to `v` in the
/// contents `get` consults, and the binding stands until a later `set` or
/// `delete` of `k`.
pub proof fn lemma_read_your_writes(m: Map<Seq<u8>, Seq<u8>>, k: Seq<u8>, v: Seq<u8>)
    ensures
        m.insert(k, v).contains_key(k) && m.insert(k, v)[k] == v,
        forall|k2: Seq<u8>, v2: Seq<u8>|
            k2 != k ==> #[trigger] m.insert(k2, v2).insert(k, v)[k] == v && m.insert(
                k,
                v,
            ).insert(k2, v2)[k] == v && m.insert(k, v).remove(k2)[k] == v,
{
}

/// Tombstone hides: after `delete(k)` the key reads as missing, and stays
/// missing until a later `set(k, w)` succeeds, which reads as `w`.
pub proof fn lemma_tombstone_hides(m: Map<Seq<u8>, Seq<u8>>, k: Seq<u8>, w: Seq<u8>)
    ensures
        !m.remove(k).contains_key(k),
        forall|k2: Seq<u8>, v2: Seq<u8>|
            k2 != k ==> !(#[trigger] m.remove(k).insert(k2, v2)).contains_key(k) && !(
            #[trigger] m.remove(k).remove(k2)).contains_key(k),
        m.remove(k).insert(k, w).contains_key(k) && m.remove(k).insert(k, w)[k] == w,
{
}

/// The shape the merge writer keeps its outputs in: named after the latest
/// input with consecutive merge sequence numbers, read-only, carrying a
/// hint image, and fully valid.
spec fn outputs_wf(fs: Seq<Segment>, base_ts: u128) -> bool {
    forall|idx: int|
        0 <= idx < fs.len() ==> {
            let s = (#[trigger] fs[idx])@;
            &&& s.id == SegmentId { ts: base_ts, seq: (idx + 1) as u128 }
            &&& !s.writable
            &&& s.hint is Some
            &&& fully_valid(s.data)
            &&& spec_records(s.data).len() >= 1
        }
}

/// Whether some record among the first `upto` segments carries the keydir's
/// locator for `k`.
spec fn matched_in(
    kd: Map<Seq<u8>, EntrySpec>,
    ss: Seq<LogV>,
    upto: int,
    k: Seq<u8>,
) -> bool {
    exists|i2: int, j2: int|
        {
            &&& 0 <= i2 < upto <= ss.len()
            &&& 0 <= j2 < spec_records((#[trigger] ss[i2]).data).len()
            &&& (#[trigger] spec_records(ss[i2].data)[j2]).key == k
            &&& kd.contains_key(k)
            &&& kd[k].item == rec_entry(ss[i2].id, spec_records(ss[i2].data)[j2]).item
        }
}

/// Whether one of the first `upto_j` records of segment `i` carries the
/// keydir's locator for `k`.
spec fn matched_in_recs(
    kd: Map<Seq<u8>, EntrySpec>,
    ss: Seq<LogV>,
    i: int,
    upto_j: int,
    k: Seq<u8>,
) -> bool {
    exists|j2: int|
        {
            &&& 0 <= j2 < upto_j
            &&& j2 < spec_records(ss[i].data).len()
            &&& (#[trigger] spec_records(ss[i].data)[j2]).key == k
            &&& kd.contains_key(k)
            &&& kd[k].item == rec_entry(ss[i].id, spec_records(ss[i].data)[j2]).item
        }
}

/// Finishing one segment's scan folds its matches into the whole-prefix
/// matches.
proof fn lemma_matched_step(kd: Map<Seq<u8>, EntrySpec>, ss: Seq<LogV>, i: int)
    requires
        0 <= i < ss.len(),
    ensures
        forall|k: Seq<u8>| #[trigger]
            matched_in(kd, ss, i + 1, k) <==> (matched_in(kd, ss, i, k) || matched_in_recs(
                kd,
                ss,
                i,
                spec_records(ss[i].data).len() as int,
                k,
            )),
{
    assert forall|k: Seq<u8>| #[trigger]
        matched_in(kd, ss, i + 1, k) <==> (matched_in(kd, ss, i, k) || matched_in_recs(
            kd,
            ss,
            i,
            spec_records(ss[i].data).len() as int,
            k,
        )) by {
        if matched_in(kd, ss, i + 1, k) {
            let (i2, j2): (int, int) = choose|i2: int, j2: int|
                {
                    &&& 0 <= i2 < i + 1 <= ss.len()
                    &&& 0 <= j2 < spec_records((#[trigger] ss[i2]).data).len()
                    &&& (#[trigger] spec_records(ss[i2].data)[j2]).key == k
                    &&& kd.contains_key(k)
                    &&& kd[k].item == rec_entry(ss[i2].id, spec_records(ss[i2].data)[j2]).item
                };
            if i2 < i {
                assert(matched_in(kd, ss, i, k));
            } else {
                assert(matched_in_recs(kd, ss, i, spec_records(ss[i].data).len() as int, k));
            }
        }
        if matched_in(kd, ss, i, k) {
            let (i2, j2): (int, int) = choose|i2: int, j2: int|
                {
                    &&& 0 <= i2 < i <= ss.len()
                    &&& 0 <= j2 < spec_records((#[trigger] ss[i2]).data).len()
                    &&& (#[trigger] spec_records(ss[i2].data)[j2]).key == k
                    &&& kd.contains_key(k)
                    &&& kd[k].item == rec_entry(ss[i2].id, spec_records(ss[i2].data)[j2]).item
                };
            assert(matched_in(kd, ss, i + 1, k));
        }
        if matched_in_recs(kd, ss, i, spec_records(ss[i].data).len() as int, k) {
            let j2 = choose|j2: int|
                {
                    &&& 0 <= j2 < spec_records(ss[i].data).len()
                    &&& j2 < spec_records(ss[i].data).len()
                    &&& (#[trigger] spec_records(ss[i].data)[j2]).key == k
                    &&& kd.contains_key(k)
                    &&& kd[k].item == rec_entry(ss[i].id, spec_records(ss[i].data)[j2]).item
                };
            assert(matched_in(kd, ss, i + 1, k));
        }
    }
}

/// The record about to be retained is the first one to carry the keydir's
/// locator for its key: locators pin down their record uniquely.
proof fn lemma_merge_fresh(kd: Map<Seq<u8>, EntrySpec>, ss: Seq<LogV>, i: int, j: int, k: Seq<u8>)
    requires
        0 <= i < ss.len(),
        0 <= j < spec_records(ss[i].data).len(),
        spec_records(ss[i].data)[j].key == k,
        kd.contains_key(k),
        kd[k].item == rec_entry(ss[i].id, spec_records(ss[i].data)[j]).item,
        forall|a: int, b: int|
            0 <= a < b < ss.len() ==> (#[trigger] ss[a]).id != (#[trigger] ss[b]).id,
        forall|a: int| 0 <= a < ss.len() ==> (#[trigger] ss[a].data).len() <= usize::MAX,
    ensures
        !matched_in(kd, ss, i, k),
        !matched_in_recs(kd, ss, i, j, k),
{
    let r = spec_records(ss[i].data)[j];
    crate::record::lemma_records_ordered(ss[i].data, 0);
    lemma_records_within(ss[i].data, 0);
    if matched_in(kd, ss, i, k) {
        let (i2, j2): (int, int) = choose|i2: int, j2: int|
            {
                &&& 0 <= i2 < i <= ss.len()
                &&& 0 <= j2 < spec_records((#[trigger] ss[i2]).data).len()
                &&& (#[trigger] spec_records(ss[i2].data)[j2]).key == k
                &&& kd.contains_key(k)
                &&& kd[k].item == rec_entry(ss[i2].id, spec_records(ss[i2].data)[j2]).item
            };
        assert(ss[i2].id == ss[i].id);
        assert(false);
    }
    if matched_in_recs(kd, ss, i, j, k) {
        let j2 = choose|j2: int|
            {
                &&& 0 <= j2 < j
                &&& j2 < spec_records(ss[i].data).len()
                &&& (#[trigger] spec_records(ss[i].data)[j2]).key == k
                &&& kd.contains_key(k)
                &&& kd[k].item == rec_entry(ss[i].id, spec_records(ss[i].data)[j2]).item
            };
        let r2 = spec_records(ss[i].data)[j2];
        assert(0 <= r2.val_pos && r2.end() <= ss[i].data.len());
        assert(0 <= r.val_pos && r.end() <= ss[i].data.len());
        assert(r2.val_pos as u64 == r.val_pos as u64);
        assert(r2.val_pos == r.val_pos);
        assert(r2.val_pos < r.val_pos);
        assert(false);
    }
}

/// A record carrying the keydir's locator for its key carries the keydir's
/// value bytes for it too.
proof fn lemma_merge_val(kd: Map<Seq<u8>, EntrySpec>, logs: Seq<LogV>, i: int, j: int, k: Seq<u8>)
    requires
        kd == replay(logs),
        0 <= i < logs.len(),
        0 <= j < spec_records(logs[i].data).len(),
        spec_records(logs[i].data)[j].key == k,
        kd.contains_key(k),
        kd[k].item == rec_entry(logs[i].id, spec_records(logs[i].data)[j]).item,
        forall|a: int, b: int|
            0 <= a < b < logs.len() ==> (#[trigger] logs[a]).id != (#[trigger] logs[b]).id,
        forall|a: int| 0 <= a < logs.len() ==> (#[trigger] logs[a].data).len() <= usize::MAX,
    ensures
        kd[k].val == spec_records(logs[i].data)[j].val,
{
    let r = spec_records(logs[i].data)[j];
    lemma_replay_src_at(logs, k);
    let (i2, j2): (int, int) = choose|i2: int, j2: int|
        {
            &&& 0 <= i2 < logs.len()
            &&& 0 <= j2 < spec_records((#[trigger] logs[i2]).data).len()
            &&& logs[i2].id == kd[k].item.file_id
            &&& (#[trigger] spec_records(logs[i2].data)[j2]).key == k
            &&& rec_entry(logs[i2].id, spec_records(logs[i2].data)[j2]) == kd[k]
        };
    if i2 != i {
        assert(logs[i2].id == logs[i].id);
        assert(false);
    }
    let r2 = spec_records(logs[i].data)[j2];
    crate::record::lemma_records_ordered(logs[i].data, 0);
    lemma_records_within(logs[i].data, 0);
    assert(0 <= r2.val_pos && r2.end() <= logs[i].data.len());
    assert(0 <= r.val_pos && r.end() <= logs[i].data.len());
    assert(r2.val_pos as u64 == r.val_pos as u64);
    assert(r2.val_pos == r.val_pos);
    if j2 < j {
        assert(false);
    }
    if j < j2 {
        assert(false);
    }
    assert(kd[k].val == r2.val);
}

/// Append a retained record to the merge outputs: re-encode it into the
/// current output segment (opening a new one when it would not fit), append
/// its hint record to the paired hint image, and bind its key to the fresh
/// locator in the delta keydir.
fn merge_append(
    outputs: &mut Vec<Segment>,
    delta: &mut KeyDir,
    base_ts: u128,
    max: u64,
    entry: &LogEntry,
) -> (it: Item)
    requires
        old(delta).wf(),
        outputs_wf(old(outputs)@, base_ts),
    ensures
        final(delta).wf(),
        outputs_wf(final(outputs)@, base_ts),
        final(delta)@ == old(delta)@.insert(entry@.key, it),
        replay(segs_logs(final(outputs)@)) == replay(segs_logs(old(outputs)@)).insert(
            entry@.key,
            EntrySpec { item: it, val: entry@.val },
        ),
        records_count(segs_logs(final(outputs)@)) == records_count(segs_logs(old(outputs)@)) + 1,
        final(delta).data@.len() == old(delta).data@.len() + (if old(delta)@.contains_key(
            entry@.key,
        ) {
            0int
        } else {
            1
        }),
        it.ts == entry@.ts,
{
    let mut bytes = entry.serialize_with_crc();
    proof {
        lemma_record_len(entry@);
    }
    let need_new = if outputs.len() == 0 {
        true
    } else {
        let last = vstd::slice::slice_index_get(outputs.as_slice(), outputs.len() - 1);
        (last.data.len() as u128) + (bytes.len() as u128) > max as u128
    };
    let ghost out0 = outputs@;
    if need_new {
        let id = SegmentId { ts: base_ts, seq: (outputs.len() as u128) + 1 };
        outputs.push(
            Segment { id, data: Vec::new(), hint: Some(Vec::new()), writable: false },
        );
        proof {
            crate::record::lemma_records_empty();
        }
    }
    let ghost mid = outputs@;
    let mut out = outputs.pop().unwrap();
    let ghost d0 = out.data@;
    let ghost out_id = out.id;
    proof {
        assert(fully_valid(d0));
    }
    out.data.append(&mut bytes);
    let end = out.data.len();
    let val_sz = entry.val.len();
    let val_pos = (end - val_sz) as u64;
    let it = Item { file_id: out.id, val_sz, val_pos, ts: entry.ts };
    let mut hint_bytes = it.serialize_as_hint(entry.key.as_slice());
    let mut h = match out.hint {
        Some(h) => h,
        None => Vec::new(),
    };
    h.append(&mut hint_bytes);
    out.hint = Some(h);
    outputs.push(out);
    delta.set(slice_to_vec(entry.key.as_slice()), it);
    proof {
        let e = entry@;
        let rec = RecordV {
            key: e.key,
            val: e.val,
            ts: e.ts,
            val_pos: d0.len() + 36 + e.key.len() as int,
        };
        assert(it.val_pos == rec.val_pos);
        assert(EntrySpec { item: it, val: e.val } == rec_entry(out_id, rec));
        if need_new {
            assert(d0 =~= Seq::<u8>::empty());
            lemma_replay_push_seg(segs_logs(out0), out_id, e);
            assert(segs_logs(outputs@) =~= segs_logs(out0).push(
                LogV { id: out_id, data: spec_record_bytes(e) },
            ));
            lemma_records_count_push(
                segs_logs(out0),
                LogV { id: out_id, data: spec_record_bytes(e) },
            );
            assert(outputs_wf(outputs@, base_ts)) by {
                assert forall|idx: int| 0 <= idx < outputs@.len() implies {
                    let s = (#[trigger] outputs@[idx])@;
                    &&& s.id == SegmentId { ts: base_ts, seq: (idx + 1) as u128 }
                    &&& !s.writable
                    &&& s.hint is Some
                    &&& fully_valid(s.data)
                    &&& spec_records(s.data).len() >= 1
                } by {
                    if idx < out0.len() {
                        assert(outputs@[idx] == out0[idx]);
                    } else {
                        assert(outputs@[idx]@.data == spec_record_bytes(e));
                        assert(spec_records(spec_record_bytes(e)).len() == 1);
                    }
                }
            }
        } else {
            assert(segs_logs(out0).len() > 0);
            assert(segs_logs(out0).last() == (LogV { id: out_id, data: d0 }));
            lemma_replay_extend_last(segs_logs(out0), e);
            assert(segs_logs(outputs@) =~= segs_logs(out0).update(
                segs_logs(out0).len() - 1,
                LogV { id: out_id, data: d0 + spec_record_bytes(e) },
            ));
            lemma_records_count_update_last(
                segs_logs(out0),
                LogV { id: out_id, data: d0 + spec_record_bytes(e) },
            );
            assert(outputs_wf(outputs@, base_ts)) by {
                assert forall|idx: int| 0 <= idx < outputs@.len() implies {
                    let s = (#[trigger] outputs@[idx])@;
                    &&& s.id == SegmentId { ts: base_ts, seq: (idx + 1) as u128 }
                    &&& !s.writable
                    &&& s.hint is Some
                    &&& fully_valid(s.data)
                    &&& spec_records(s.data).len() >= 1
                } by {
                    if idx < out0.len() - 1 {
                        assert(outputs@[idx] == out0[idx]);
                    } else {
                        assert(out0[idx]@.id == SegmentId { ts: base_ts, seq: (idx + 1) as u128 });
                        assert(outputs@[idx]@.data == d0 + spec_record_bytes(e));
                        assert(spec_records(d0 + spec_record_bytes(e)) == spec_records(d0).push(
                            RecordV {
                                key: e.key,
                                val: e.val,
                                ts: e.ts,
                                val_pos: d0.len() + 36 + e.key.len() as int,
                            },
                        ));
                    }
                }
            }
        }
    }
    it
}

} // verus!

