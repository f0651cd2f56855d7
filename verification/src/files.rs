//! Segments and the segment registry. A segment is an append-only image of
//! one log file; the registry keeps them in file-name order and owns the
//! single active (writable) segment, rotating to a fresh one when a write
//! would overflow the configured size.

use vstd::prelude::*;

verus! {

use crate::config::StoreConfig;
use crate::keydir::{id_lt, Item, SegmentId};
use crate::record::{
    fully_valid, lemma_append_record, lemma_record_len, lemma_records_empty, spec_record_bytes,
    LogEntry,
};

/// One log segment, held as its full byte image. A closed segment may carry
/// the image of its paired hint file.
pub struct Segment {
    pub id: SegmentId,
    pub data: Vec<u8>,
    pub hint: Option<Vec<u8>>,
    pub writable: bool,
}

/// The mathematical content of a segment.
pub struct SegV {
    pub id: SegmentId,
    pub data: Seq<u8>,
    pub hint: Option<Seq<u8>>,
    pub writable: bool,
}

impl View for Segment {
    type V = SegV;

    open spec fn view(&self) -> SegV {
        SegV {
            id: self.id,
            data: self.data@,
            hint: match self.hint {
                Some(ref h) => Some(h@),
                None => None,
            },
            writable: self.writable,
        }
    }
}

impl Segment {
    /// A closed segment, as read back from the store directory.
    pub fn new(id: SegmentId, data: Vec<u8>, hint: Option<Vec<u8>>) -> (r: Segment)
        ensures
            r@.id == id,
            r@.data == data@,
            r@.hint == (match hint {
                Some(h) => Some(h@),
                None => None::<Seq<u8>>,
            }),
            !r@.writable,
    {
        Segment { id, data, hint, writable: false }
    }
}

/// What the record log of one segment looks like: its name and its bytes.
pub struct LogV {
    pub id: SegmentId,
    pub data: Seq<u8>,
}

/// The registry of segments, plus the clock that names new ones.
pub struct FileManager {
    pub config: StoreConfig,
    pub current: Option<SegmentId>,
    pub inner: Vec<Segment>,
    pub clock: u128,
}

impl FileManager {
    /// The segment logs, in registry order.
    pub open spec fn logs(&self) -> Seq<LogV> {
        self.inner@.map(|i: int, s: Segment| LogV { id: s.id, data: s.data@ })
    }

    /// The full segment images, hint files included.
    pub open spec fn disk(&self) -> Seq<SegV> {
        self.inner@.map(|i: int, s: Segment| s@)
    }

    /// The byte count of the active segment.
    pub open spec fn active_len(&self) -> int {
        self.inner@.last().data@.len() as int
    }

    /// Registry well-formedness: segments strictly ordered by name, at most
    /// one writable segment and it is the last, its image fully valid, every
    /// closed segment's name timestamp strictly below the active one's, and
    /// the clock at or above every name timestamp.
    pub open spec fn wf(&self) -> bool {
        &&& forall|i: int, j: int|
            0 <= i < j < self.inner@.len() ==> id_lt(
                #[trigger] self.inner@[i].id,
                #[trigger] self.inner@[j].id,
            )
        &&& forall|i: int| 0 <= i < self.inner@.len() ==> #[trigger] self.inner@[i].id.ts
            <= self.clock
        &&& match self.current {
            None => forall|i: int|
                0 <= i < self.inner@.len() ==> !(#[trigger] self.inner@[i].writable),
            Some(id) => {
                &&& self.inner@.len() > 0
                &&& self.inner@.last().id == id
                &&& self.inner@.last().writable
                &&& self.inner@.last().hint is None
                &&& fully_valid(self.inner@.last().data@)
                &&& forall|i: int|
                    0 <= i < self.inner@.len() - 1 ==> !(#[trigger] self.inner@[i].writable)
                &&& forall|i: int|
                    0 <= i < self.inner@.len() - 1 ==> #[trigger] self.inner@[i].id.ts < id.ts
            },
        }
    }

    /// What each position of `logs()` holds.
    pub proof fn lemma_logs_index(&self)
        ensures
            self.logs().len() == self.inner@.len(),
            forall|i: int|
                0 <= i < self.inner@.len() ==> (#[trigger] self.logs()[i]).id
                    == self.inner@[i].id && self.logs()[i].data == self.inner@[i].data@
                    && self.logs()[i].data.len() <= usize::MAX,
    {
        assert forall|i: int| 0 <= i < self.inner@.len() implies (#[trigger] self.logs()[i]).id
            == self.inner@[i].id && self.logs()[i].data == self.inner@[i].data@
            && self.logs()[i].data.len() <= usize::MAX by {
            assert(self.logs()[i] == (LogV { id: self.inner@[i].id, data: self.inner@[i].data@ }));
            assert(self.inner@[i].data.len() == self.inner@[i].data@.len());
        }
    }

    /// Two distinct registry positions never share a name.
    pub proof fn lemma_ids_unique(&self)
        requires
            self.wf(),
        ensures
            forall|i: int, j: int|
                0 <= i < self.inner@.len() && 0 <= j < self.inner@.len() && i != j
                    ==> #[trigger] self.inner@[i].id != #[trigger] self.inner@[j].id,
    {
        assert forall|i: int, j: int|
            0 <= i < self.inner@.len() && 0 <= j < self.inner@.len() && i != j implies #[trigger] self
            .inner@[i].id != #[trigger] self.inner@[j].id by {
            if i < j {
                assert(id_lt(self.inner@[i].id, self.inner@[j].id));
            } else {
                assert(id_lt(self.inner@[j].id, self.inner@[i].id));
            }
        }
    }

    /// An empty registry.
    pub fn new(config: StoreConfig) -> (r: FileManager)
        ensures
            r.wf(),
            r.logs() =~= Seq::<LogV>::empty(),
            r.disk() =~= Seq::<SegV>::empty(),
            r.current is None,
            r.config == config,
            r.clock == 0,
    {
        FileManager { config, current: None, inner: Vec::new(), clock: 0 }
    }

    /// Whether `line` still fits into the active segment.
    pub fn will_fit(&self, line: &[u8]) -> (r: bool)
        requires
            self.wf(),
            self.current is Some,
        ensures
            r == (self.active_len() + line@.len() <= self.config.max_log_file_size),
    {
        let n = self.inner.len();
        let seg = vstd::slice::slice_index_get(self.inner.as_slice(), n - 1);
        (seg.data.len() as u128) + (line.len() as u128) <= self.config.max_log_file_size as u128
    }

    /// Close the active segment, if any, and open a fresh empty one named
    /// after the bumped clock.
    pub fn rotate(&mut self)
        requires
            old(self).wf(),
            old(self).clock < u128::MAX,
        ensures
            final(self).wf(),
            final(self).config == old(self).config,
            final(self).clock == old(self).clock + 1,
            final(self).current == Some(
                SegmentId { ts: (old(self).clock + 1) as u128, seq: 0 },
            ),
            final(self).logs() =~= old(self).logs() + seq![
                LogV {
                    id: SegmentId { ts: (old(self).clock + 1) as u128, seq: 0 },
                    data: Seq::<u8>::empty(),
                },
            ],
            final(self).disk().len() == old(self).disk().len() + 1,
            forall|i: int|
                0 <= i < old(self).disk().len() ==> {
                    let s0 = #[trigger] old(self).disk()[i];
                    let s1 = final(self).disk()[i];
                    s1.id == s0.id && s1.data == s0.data && s1.hint == s0.hint
                },
    {
        if self.current.is_some() {
            let mut active = self.inner.pop().unwrap();
            active.writable = false;
            self.inner.push(active);
            proof {
                assert(self.inner@ =~= old(self).inner@.update(
                    old(self).inner@.len() - 1,
                    self.inner@.last(),
                ));
            }
        }
        let id = SegmentId { ts: self.clock + 1, seq: 0 };
        self.clock = self.clock + 1;
        self.inner.push(Segment { id, data: Vec::new(), hint: None, writable: true });
        self.current = Some(id);
        proof {
            lemma_records_empty();
            assert(final(self).logs() =~= old(self).logs() + seq![
                LogV { id, data: Seq::<u8>::empty() },
            ]);
        }
    }

    /// Serialize `entry`, append it to the active segment (rotating first if
    /// it would not fit or none is open), and return the locator of the
    /// value just written.
    pub fn set(&mut self, entry: &LogEntry) -> (r: Item)
        requires
            old(self).wf(),
            old(self).clock < u128::MAX,
            36 + entry@.key.len() + entry@.val.len() <= old(self).config.max_log_file_size,
        ensures
            final(self).wf(),
            final(self).config == old(self).config,
            final(self).current is Some,
            ({
                let bytes = spec_record_bytes(entry@);
                let fits = old(self).current is Some && old(self).active_len() + bytes.len()
                    <= old(self).config.max_log_file_size;
                let base = if fits {
                    old(self).active_len()
                } else {
                    0
                };
                &&& if fits {
                    &&& final(self).logs() =~= old(self).logs().update(
                        old(self).logs().len() - 1,
                        LogV {
                            id: old(self).current.unwrap(),
                            data: old(self).logs().last().data + bytes,
                        },
                    )
                    &&& final(self).clock == old(self).clock
                    &&& final(self).current == old(self).current
                } else {
                    &&& final(self).logs() =~= old(self).logs() + seq![
                        LogV {
                            id: SegmentId { ts: (old(self).clock + 1) as u128, seq: 0 },
                            data: bytes,
                        },
                    ]
                    &&& final(self).clock == old(self).clock + 1
                    &&& final(self).current == Some(
                        SegmentId { ts: (old(self).clock + 1) as u128, seq: 0 },
                    )
                }
                &&& r.file_id == final(self).current.unwrap()
                &&& r.val_sz == entry@.val.len()
                &&& r.ts == entry@.ts
                &&& r.val_pos == base + 36 + entry@.key.len()
                &&& fully_valid(final(self).logs().last().data)
                &&& final(self).logs().last().id == r.file_id
            }),
    {
        let mut bytes = entry.serialize_with_crc();
        proof {
            lemma_record_len(entry@);
        }
        let fits = match self.current {
            Some(_) => self.will_fit(bytes.as_slice()),
            None => false,
        };
        if !fits {
            self.rotate();
        }
        let ghost pre = *self;
        let mut active = self.inner.pop().unwrap();
        let ghost base = active.data@.len() as int;
        proof {
            assert(fully_valid(active.data@));
            lemma_append_record(active.data@, entry@);
        }
        active.data.append(&mut bytes);
        let end = active.data.len();
        let val_sz = entry.val.len();
        let id = active.id;
        self.inner.push(active);
        proof {
            assert(self.inner@ =~= pre.inner@.update(pre.inner@.len() - 1, self.inner@.last()));
            assert(self.logs() =~= pre.logs().update(
                pre.logs().len() - 1,
                LogV { id, data: pre.logs().last().data + spec_record_bytes(entry@) },
            ));
        }
        let val_pos = (end - val_sz) as u64;
        Item { file_id: id, val_sz, val_pos, ts: entry.ts }
    }

    /// Read the value bytes a locator points to: `val_sz` bytes at
    /// `val_pos` in the segment named `file_id`. `None` when no such
    /// segment is registered or the range lies outside its image.
    pub fn read_item(&self, item: &Item) -> (r: Option<Vec<u8>>)
        ensures
            match r {
                Some(v) => exists|i: int|
                    0 <= i < self.logs().len() && (#[trigger] self.logs()[i]).id == item.file_id
                        && item.val_pos + item.val_sz <= self.logs()[i].data.len() && v@
                        == self.logs()[i].data.subrange(
                        item.val_pos as int,
                        item.val_pos + item.val_sz,
                    ),
                None => forall|i: int|
                    0 <= i < self.logs().len() && (#[trigger] self.logs()[i]).id == item.file_id
                        ==> item.val_pos + item.val_sz > self.logs()[i].data.len(),
            },
    {
        let n = self.inner.len();
        let mut i: usize = 0;
        while i < n
            invariant
                n == self.inner@.len(),
                0 <= i <= n,
                forall|j: int|
                    0 <= j < i && (#[trigger] self.logs()[j]).id == item.file_id ==> item.val_pos
                        + item.val_sz > self.logs()[j].data.len(),
            decreases n - i,
        {
            let seg = vstd::slice::slice_index_get(self.inner.as_slice(), i);
            if seg.id == item.file_id {
                if (item.val_pos as u128) + (item.val_sz as u128) <= seg.data.len() as u128 {
                    let lo = item.val_pos as usize;
                    let hi = lo + item.val_sz;
                    let v = vstd::slice::slice_to_vec(
                        vstd::slice::slice_subrange(seg.data.as_slice(), lo, hi),
                    );
                    proof {
                        assert(self.logs()[i as int].id == item.file_id);
                    }
                    return Some(v);
                } else {
                    i += 1;
                }
            } else {
                i += 1;
            }
        }
        None
    }
}

} // verus!
