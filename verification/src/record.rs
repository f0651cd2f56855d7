//! The log record codec. A record is laid out as
//! `crc (4) | timestamp (16) | key_size (8) | value_size (8) | key | value`,
//! all integers little-endian, with the CRC computed over everything after
//! the CRC field itself. A scan of a segment parses records front to back
//! and stops at the first corrupt or truncated record.

use vstd::prelude::*;

verus! {

use crate::checksum::{crc32, crc32_of};
use crate::endian::{
    lemma_u128_le_bytes, spec_u128_from_le_bytes, spec_u128_to_le_bytes, u128_from_le_bytes,
    u128_to_le_bytes,
};
use vstd::bytes::{
    lemma_auto_spec_u32_to_from_le_bytes, lemma_auto_spec_u64_to_from_le_bytes,
    spec_u32_from_le_bytes, spec_u32_to_le_bytes, spec_u64_from_le_bytes, spec_u64_to_le_bytes,
    u32_from_le_bytes, u32_to_le_bytes, u64_from_le_bytes, u64_to_le_bytes,
};
use vstd::slice::{slice_subrange, slice_to_vec};

/// The number of bytes in a record header: crc, timestamp, key size, value
/// size.
pub const HEADER_SIZE: usize = 36;

/// One write of a key, before encoding.
pub struct LogEntry {
    pub key: Vec<u8>,
    pub val: Vec<u8>,
    pub ts: u128,
}

/// The mathematical content of a `LogEntry`.
pub struct EntryV {
    pub key: Seq<u8>,
    pub val: Seq<u8>,
    pub ts: u128,
}

impl View for LogEntry {
    type V = EntryV;

    open spec fn view(&self) -> EntryV {
        EntryV { key: self.key@, val: self.val@, ts: self.ts }
    }
}

/// The body of a record: everything the CRC covers.
pub open spec fn spec_entry_body(e: EntryV) -> Seq<u8> {
    spec_u128_to_le_bytes(e.ts) + spec_u64_to_le_bytes(e.key.len() as u64)
        + spec_u64_to_le_bytes(e.val.len() as u64) + e.key + e.val
}

/// The full encoding of a record, CRC field included.
pub open spec fn spec_record_bytes(e: EntryV) -> Seq<u8> {
    spec_u32_to_le_bytes(crc32_of(spec_entry_body(e))) + spec_entry_body(e)
}

/// A record as recovered from a byte sequence: its fields plus the absolute
/// offset of its value bytes.
pub struct RecordV {
    pub key: Seq<u8>,
    pub val: Seq<u8>,
    pub ts: u128,
    pub val_pos: int,
}

impl RecordV {
    /// The offset one past the record's last byte.
    pub open spec fn end(self) -> int {
        self.val_pos + self.val.len()
    }

    /// The offset of the record's first byte.
    pub open spec fn start(self) -> int {
        self.val_pos - self.key.len() - HEADER_SIZE
    }

    /// The entry this record carries.
    pub open spec fn entry(self) -> EntryV {
        EntryV { key: self.key, val: self.val, ts: self.ts }
    }
}

/// Parse one record at offset `pos`, checking bounds and CRC.
pub open spec fn spec_parse_record(d: Seq<u8>, pos: int) -> Option<RecordV> {
    if 0 <= pos && pos + 36 <= d.len() {
        let crc = spec_u32_from_le_bytes(d.subrange(pos, pos + 4));
        let ts = spec_u128_from_le_bytes(d.subrange(pos + 4, pos + 20));
        let ksz = spec_u64_from_le_bytes(d.subrange(pos + 20, pos + 28)) as int;
        let vsz = spec_u64_from_le_bytes(d.subrange(pos + 28, pos + 36)) as int;
        if pos + 36 + ksz + vsz <= d.len() && crc == crc32_of(
            d.subrange(pos + 4, pos + 36 + ksz + vsz),
        ) {
            Some(
                RecordV {
                    key: d.subrange(pos + 36, pos + 36 + ksz),
                    val: d.subrange(pos + 36 + ksz, pos + 36 + ksz + vsz),
                    ts,
                    val_pos: pos + 36 + ksz,
                },
            )
        } else {
            None
        }
    } else {
        None
    }
}

/// All records of the valid prefix starting at `pos`.
pub open spec fn spec_records_from(d: Seq<u8>, pos: int) -> Seq<RecordV>
    decreases d.len() - pos,
    when 0 <= pos <= d.len()
{
    match spec_parse_record(d, pos) {
        Option::None => Seq::empty(),
        Option::Some(r) => seq![r] + spec_records_from(d, r.end()),
    }
}

/// The offset at which parsing from `pos` stops: the end of the valid prefix.
pub open spec fn spec_records_end(d: Seq<u8>, pos: int) -> int
    decreases d.len() - pos,
    when 0 <= pos <= d.len()
{
    match spec_parse_record(d, pos) {
        Option::None => pos,
        Option::Some(r) => spec_records_end(d, r.end()),
    }
}

/// The records of a whole segment image.
pub open spec fn spec_records(d: Seq<u8>) -> Seq<RecordV> {
    spec_records_from(d, 0)
}

/// Whether a segment image consists of valid records and nothing else.
pub open spec fn fully_valid(d: Seq<u8>) -> bool {
    spec_records_end(d, 0) == d.len()
}

/// Basic bounds on every parsed record.
pub proof fn lemma_records_within(d: Seq<u8>, pos: int)
    requires
        0 <= pos <= d.len(),
    ensures
        forall|j: int|
            0 <= j < spec_records_from(d, pos).len() ==> {
                let r = #[trigger] spec_records_from(d, pos)[j];
                &&& pos <= r.start()
                &&& r.start() + 36 == r.val_pos - r.key.len()
                &&& 0 <= r.val_pos - r.key.len() - 36
                &&& r.end() <= d.len()
                &&& r.key == d.subrange(r.val_pos - r.key.len(), r.val_pos)
                &&& r.val == d.subrange(r.val_pos, r.end())
                &&& spec_parse_record(d, r.start()) == Some(r)
            },
    decreases d.len() - pos,
{
    match spec_parse_record(d, pos) {
        Option::None => {},
        Option::Some(r) => {
            assert(r.key == d.subrange(r.val_pos - r.key.len(), r.val_pos));
            lemma_records_within(d, r.end());
            assert forall|j: int| 0 <= j < spec_records_from(d, pos).len() implies {
                let rr = #[trigger] spec_records_from(d, pos)[j];
                &&& pos <= rr.start()
                &&& rr.start() + 36 == rr.val_pos - rr.key.len()
                &&& 0 <= rr.val_pos - rr.key.len() - 36
                &&& rr.end() <= d.len()
                &&& rr.key == d.subrange(rr.val_pos - rr.key.len(), rr.val_pos)
                &&& rr.val == d.subrange(rr.val_pos, rr.end())
                &&& spec_parse_record(d, rr.start()) == Some(rr)
            } by {
                if j == 0 {
                    assert(spec_records_from(d, pos)[0] == r);
                } else {
                    assert(spec_records_from(d, pos)[j] == spec_records_from(d, r.end())[j - 1]);
                }
            }
        },
    }
}

/// Records of one image sit at strictly increasing value offsets.
pub proof fn lemma_records_ordered(d: Seq<u8>, pos: int)
    requires
        0 <= pos <= d.len(),
    ensures
        forall|j1: int, j2: int|
            0 <= j1 < j2 < spec_records_from(d, pos).len() ==> (#[trigger] spec_records_from(
                d,
                pos,
            )[j1]).val_pos < (#[trigger] spec_records_from(d, pos)[j2]).val_pos,
    decreases d.len() - pos,
{
    match spec_parse_record(d, pos) {
        Option::None => {},
        Option::Some(r) => {
            lemma_records_ordered(d, r.end());
            lemma_records_within(d, r.end());
            assert forall|j1: int, j2: int|
                0 <= j1 < j2 < spec_records_from(d, pos).len() implies (
            #[trigger] spec_records_from(d, pos)[j1]).val_pos < (#[trigger] spec_records_from(
                d,
                pos,
            )[j2]).val_pos by {
                let rest = spec_records_from(d, r.end());
                let rr = rest[j2 - 1];
                assert(spec_records_from(d, pos)[j2] == rr);
                assert(r.end() <= rr.start());
                assert(rr.start() + 36 == rr.val_pos - rr.key.len());
                if j1 == 0 {
                    assert(spec_records_from(d, pos)[j1] == r);
                    assert(r.val_pos <= r.end());
                } else {
                    assert(spec_records_from(d, pos)[j1] == rest[j1 - 1]);
                }
            }
        },
    }
}

/// A successful parse is unaffected by bytes appended after the record.
pub proof fn lemma_parse_stable(d: Seq<u8>, ext: Seq<u8>, pos: int)
    requires
        spec_parse_record(d, pos) is Some,
    ensures
        spec_parse_record(d + ext, pos) == spec_parse_record(d, pos),
{
    let r = spec_parse_record(d, pos).unwrap();
    let all = d + ext;
    assert(all.subrange(pos, pos + 4) =~= d.subrange(pos, pos + 4));
    assert(all.subrange(pos + 4, pos + 20) =~= d.subrange(pos + 4, pos + 20));
    assert(all.subrange(pos + 20, pos + 28) =~= d.subrange(pos + 20, pos + 28));
    assert(all.subrange(pos + 28, pos + 36) =~= d.subrange(pos + 28, pos + 36));
    let ksz = spec_u64_from_le_bytes(d.subrange(pos + 20, pos + 28)) as int;
    let vsz = spec_u64_from_le_bytes(d.subrange(pos + 28, pos + 36)) as int;
    assert(all.subrange(pos + 4, pos + 36 + ksz + vsz) =~= d.subrange(
        pos + 4,
        pos + 36 + ksz + vsz,
    ));
    assert(all.subrange(pos + 36, pos + 36 + ksz) =~= d.subrange(pos + 36, pos + 36 + ksz));
    assert(all.subrange(pos + 36 + ksz, pos + 36 + ksz + vsz) =~= d.subrange(
        pos + 36 + ksz,
        pos + 36 + ksz + vsz,
    ));
}

/// Parsing an encoded record placed directly at `pos` recovers the entry.
pub proof fn lemma_parse_encoded(d: Seq<u8>, e: EntryV, tail: Seq<u8>)
    requires
        e.key.len() <= u64::MAX,
        e.val.len() <= u64::MAX,
    ensures
        ({
            let all = d + spec_record_bytes(e) + tail;
            spec_parse_record(all, d.len() as int) == Some(
                RecordV {
                    key: e.key,
                    val: e.val,
                    ts: e.ts,
                    val_pos: d.len() + 36 + e.key.len() as int,
                },
            )
        }),
{
    lemma_auto_spec_u32_to_from_le_bytes();
    lemma_auto_spec_u64_to_from_le_bytes();
    lemma_u128_le_bytes(e.ts);
    let body = spec_entry_body(e);
    let rec = spec_record_bytes(e);
    let all = d + rec + tail;
    let pos = d.len() as int;
    let k = e.key.len() as int;
    let v = e.val.len() as int;
    assert(rec.len() == 36 + k + v);
    assert(all.subrange(pos, pos + 4) =~= spec_u32_to_le_bytes(crc32_of(body)));
    assert(all.subrange(pos + 4, pos + 36 + k + v) =~= body);
    assert(all.subrange(pos + 4, pos + 20) =~= spec_u128_to_le_bytes(e.ts));
    assert(all.subrange(pos + 20, pos + 28) =~= spec_u64_to_le_bytes(e.key.len() as u64));
    assert(all.subrange(pos + 28, pos + 36) =~= spec_u64_to_le_bytes(e.val.len() as u64));
    assert(all.subrange(pos + 36, pos + 36 + k) =~= e.key);
    assert(all.subrange(pos + 36 + k, pos + 36 + k + v) =~= e.val);
}

/// Scanning extended data first yields the records of a fully valid prefix,
/// then whatever parses after it.
pub proof fn lemma_records_extend(d: Seq<u8>, ext: Seq<u8>, pos: int)
    requires
        0 <= pos <= d.len(),
        spec_records_end(d, pos) == d.len(),
    ensures
        spec_records_from(d + ext, pos) == spec_records_from(d, pos) + spec_records_from(
            d + ext,
            d.len() as int,
        ),
        spec_records_end(d + ext, pos) == spec_records_end(d + ext, d.len() as int),
    decreases d.len() - pos,
{
    match spec_parse_record(d, pos) {
        Option::None => {
            assert(spec_records_end(d, pos) == pos);
            assert(spec_records_from(d, pos) =~= Seq::<RecordV>::empty());
            assert(spec_records_from(d + ext, pos) =~= Seq::<RecordV>::empty()
                + spec_records_from(d + ext, pos));
        },
        Option::Some(r) => {
            lemma_parse_stable(d, ext, pos);
            lemma_records_extend(d, ext, r.end());
            assert(spec_records_from(d + ext, pos) =~= (seq![r] + spec_records_from(d, r.end()))
                + spec_records_from(d + ext, d.len() as int));
            assert(spec_records_from(d, pos) == seq![r] + spec_records_from(d, r.end()));
        },
    }
}

/// Appending one encoded record to a fully valid image appends exactly one
/// parsed record, and the image stays fully valid.
pub proof fn lemma_append_record(d: Seq<u8>, e: EntryV)
    requires
        fully_valid(d),
        e.key.len() <= u64::MAX,
        e.val.len() <= u64::MAX,
    ensures
        spec_records(d + spec_record_bytes(e)) == spec_records(d) + seq![
            RecordV { key: e.key, val: e.val, ts: e.ts, val_pos: d.len() + 36 + e.key.len() as int },
        ],
        fully_valid(d + spec_record_bytes(e)),
{
    let rec = spec_record_bytes(e);
    let all = d + rec;
    let pos = d.len() as int;
    lemma_u128_le_bytes(e.ts);
    lemma_auto_spec_u32_to_from_le_bytes();
    lemma_auto_spec_u64_to_from_le_bytes();
    assert(all =~= d + rec + Seq::<u8>::empty());
    lemma_parse_encoded(d, e, Seq::empty());
    let r = RecordV { key: e.key, val: e.val, ts: e.ts, val_pos: d.len() + 36 + e.key.len() as int };
    assert(spec_parse_record(all, pos) == Some(r));
    assert(r.end() == all.len());
    assert(spec_parse_record(all, r.end()) is None);
    assert(spec_records_from(all, r.end()) =~= Seq::<RecordV>::empty());
    assert(spec_records_end(all, r.end()) == r.end());
    assert(spec_records_from(all, pos) =~= seq![r] + spec_records_from(all, r.end()));
    assert(spec_records_from(all, pos) =~= seq![r]);
    assert(spec_records_end(all, pos) == spec_records_end(all, r.end()));
    assert(spec_records_end(all, pos) == all.len());
    lemma_records_extend(d, rec, 0);
}

/// Every record of a valid prefix satisfies its checksum: the CRC field at
/// the record's start equals the checksum of the body bytes that follow it.
pub proof fn lemma_valid_prefix_crc(d: Seq<u8>)
    ensures
        forall|j: int|
            0 <= j < spec_records(d).len() ==> {
                let r = #[trigger] spec_records(d)[j];
                spec_u32_from_le_bytes(d.subrange(r.start(), r.start() + 4)) == crc32_of(
                    d.subrange(r.start() + 4, r.end()),
                )
            },
{
    lemma_records_within(d, 0);
    assert forall|j: int| 0 <= j < spec_records(d).len() implies {
        let r = #[trigger] spec_records(d)[j];
        spec_u32_from_le_bytes(d.subrange(r.start(), r.start() + 4)) == crc32_of(
            d.subrange(r.start() + 4, r.end()),
        )
    } by {
        let r = spec_records(d)[j];
        assert(spec_parse_record(d, r.start()) == Some(r));
        let pos = r.start();
        let ksz = spec_u64_from_le_bytes(d.subrange(pos + 20, pos + 28)) as int;
        let vsz = spec_u64_from_le_bytes(d.subrange(pos + 28, pos + 36)) as int;
        assert(r.key == d.subrange(pos + 36, pos + 36 + ksz));
        assert(r.val == d.subrange(pos + 36 + ksz, pos + 36 + ksz + vsz));
        assert(r.key.len() == ksz && r.val.len() == vsz);
        assert(r.end() == pos + 36 + ksz + vsz);
    }
}

/// The size of an encoded record: the header plus the key and value bytes.
pub proof fn lemma_record_len(e: EntryV)
    ensures
        spec_entry_body(e).len() == 32 + e.key.len() + e.val.len(),
        spec_record_bytes(e).len() == 36 + e.key.len() + e.val.len(),
{
    lemma_auto_spec_u32_to_from_le_bytes();
    lemma_auto_spec_u64_to_from_le_bytes();
    lemma_u128_le_bytes(e.ts);
}

/// An empty image is fully valid and holds no records.
pub proof fn lemma_records_empty()
    ensures
        fully_valid(Seq::<u8>::empty()),
        spec_records(Seq::<u8>::empty()) == Seq::<RecordV>::empty(),
{
    assert(spec_parse_record(Seq::<u8>::empty(), 0) is None);
}

/// Relies on `std::time::SystemTime`: microseconds since the Unix epoch, or
/// `None` when the system clock reads earlier than the epoch. Nothing can be
/// promised about the value.
#[verifier::external_body]
pub(crate) fn now_micros() -> Option<u128> {
    std::time::SystemTime::now().duration_since(std::time::UNIX_EPOCH).ok().map(
        |d| d.as_micros(),
    )
}

impl LogEntry {
    /// Build the record for `set(key, val)`, stamped with the current wall
    /// clock. `None` when the system clock reads earlier than the Unix epoch.
    pub fn from_set(key: &[u8], val: &[u8]) -> (r: Option<LogEntry>)
        ensures
            r matches Some(e) ==> e@.key == key@ && e@.val == val@,
    {
        match now_micros() {
            Some(ts) => Some(LogEntry { key: slice_to_vec(key), val: slice_to_vec(val), ts }),
            None => None,
        }
    }

    /// The key length as stored in the header.
    pub fn key_sz(&self) -> (r: u64)
        ensures
            r == self@.key.len(),
    {
        self.key.len() as u64
    }

    /// The value length as stored in the header.
    pub fn val_sz(&self) -> (r: u64)
        ensures
            r == self@.val.len(),
    {
        self.val.len() as u64
    }

    /// Encode the record body: everything the CRC covers.
    pub fn serialize(&self) -> (r: Vec<u8>)
        ensures
            r@ == spec_entry_body(self@),
    {
        let mut r = u128_to_le_bytes(self.ts);
        let mut ks = u64_to_le_bytes(self.key.len() as u64);
        let mut vs = u64_to_le_bytes(self.val.len() as u64);
        r.append(&mut ks);
        r.append(&mut vs);
        let mut key = slice_to_vec(self.key.as_slice());
        let mut val = slice_to_vec(self.val.as_slice());
        r.append(&mut key);
        r.append(&mut val);
        r
    }

    /// The checksum of the record body.
    pub fn crc(&self) -> (r: u32)
        ensures
            r == crc32_of(spec_entry_body(self@)),
    {
        let body = self.serialize();
        crc32(body.as_slice())
    }

    /// Encode the full record, CRC field first.
    pub fn serialize_with_crc(&self) -> (r: Vec<u8>)
        ensures
            r@ == spec_record_bytes(self@),
    {
        let mut r = u32_to_le_bytes(self.crc());
        let mut body = self.serialize();
        r.append(&mut body);
        r
    }

    /// Encode the hint record for this entry, whose value starts at
    /// `val_pos` in its segment.
    pub fn serialize_hint(&self, val_pos: u64) -> (r: Vec<u8>)
        ensures
            r@ == crate::keydir::spec_hint_bytes(
                self@.key,
                self@.val.len() as u64,
                val_pos,
                self.ts,
            ),
    {
        let mut r = u128_to_le_bytes(self.ts);
        let mut ks = u64_to_le_bytes(self.key.len() as u64);
        let mut vs = u64_to_le_bytes(self.val.len() as u64);
        let mut vp = u64_to_le_bytes(val_pos);
        r.append(&mut ks);
        r.append(&mut vs);
        r.append(&mut vp);
        let mut key = slice_to_vec(self.key.as_slice());
        r.append(&mut key);
        r
    }
}

} // verus!
