//! A segment: part of a partition's log, with an index by offset and one by
//! time.
//!
//! A segment does not touch its files. It is opened on what they hold, and what
//! it returns from an append is to be written behind what they hold. The bytes
//! of its log are part of its mathematical value, and of nothing else.

use bytes::Bytes;
use vstd::prelude::*;
use vstd::string::StringExecFns;

use crate::buf;
use crate::buf::bytes_view;
use crate::protocol::primitive::{DecodeError, Modeled};
use crate::protocol::recordbatch::{frame_len, BatchModel, RecordBatch};
use crate::storage::index::{
    enc_offset_entry, enc_time_entry, law_offset_entry_written, law_time_entry_written,
    offset_after, offset_entries, position_before, splits_at, splits_times_at, time_entries,
    OffsetIndex, OffsetIndexEntry, TimeIndex, TimeIndexEntry,
};
use crate::storage::scan::{
    all_before, frame_base, frame_last, frames, last_batch_offset, last_offset_in,
    law_last_batch_is_read, law_search_may_skip, lemma_frames_concat, lemma_one_frame, selected,
    select_batches, whole,
};
use crate::text;

verus! {

/// Why something could not be appended to a log.
#[derive(Debug, Clone, Copy, PartialEq, Eq, Structural)]
pub enum StorageError {
    /// The segment takes no more.
    Closed,
    /// A batch or a segment would grow beyond what its fields can say.
    TooLarge,
    /// The offsets have come to their end.
    OffsetOverflow,
    /// The bytes are no batch.
    Decode(DecodeError),
}

/// What an append did.
#[derive(Debug, Clone, Copy, PartialEq, Eq, Structural)]
pub struct AppendResult {
    pub base_offset: i64,
    pub last_offset: i64,
    pub log_append_time_ms: i64,
    pub log_start_offset: i64,
}

/// What an append puts behind the files of a segment.
#[derive(Debug)]
pub struct SegmentWrite {
    /// The segment's first offset.
    pub segment: i64,
    pub log: Bytes,
    /// An entry of the offset index and one of the time index.
    pub entries: Option<(Bytes, Bytes)>,
}

/// The mathematical value of a write.
pub struct WriteModel {
    pub segment: i64,
    pub log: Seq<u8>,
    pub entries: Option<(Seq<u8>, Seq<u8>)>,
}

impl Modeled for SegmentWrite {
    type M = WriteModel;

    open spec fn model(&self) -> WriteModel {
        WriteModel {
            segment: self.segment,
            log: bytes_view(self.log),
            entries: self.entries.model(),
        }
    }
}

/// A segment.
pub struct LogSegment {
    /// The offset of the first record.
    pub base_offset: i64,
    pub index: OffsetIndex,
    pub time_index: TimeIndex,
    /// The bytes in the log, which is where the next batch begins.
    pub size_in_bytes: u64,
    /// The bytes known to be on disk.
    pub flushed: u64,
    /// The bytes written since the last index entry.
    pub bytes_since_last_index: u32,
    /// The offset of the last record.
    pub max_offset: i64,
    /// The timestamp of the first batch.
    pub first_timestamp: i64,
    /// Whether the segment takes no more.
    pub closed: bool,
    pub created_ms: i64,
    pub index_interval_bytes: i32,
    pub log_segment_bytes: i64,
    pub log_roll_ms: i64,
    /// The bytes of the log.
    pub log: Ghost<Seq<u8>>,
}

/// The mathematical value of a segment.
pub struct SegmentView {
    pub base_offset: i64,
    pub index: Seq<OffsetIndexEntry>,
    pub time_index: Seq<TimeIndexEntry>,
    pub size_in_bytes: u64,
    pub flushed: u64,
    pub bytes_since_last_index: u32,
    pub max_offset: i64,
    pub first_timestamp: i64,
    pub closed: bool,
    pub created_ms: i64,
    pub index_interval_bytes: i32,
    pub log_segment_bytes: i64,
    pub log_roll_ms: i64,
    pub log: Seq<u8>,
}

impl View for LogSegment {
    type V = SegmentView;

    open spec fn view(&self) -> SegmentView {
        SegmentView {
            base_offset: self.base_offset,
            index: self.index@,
            time_index: self.time_index@,
            size_in_bytes: self.size_in_bytes,
            flushed: self.flushed,
            bytes_since_last_index: self.bytes_since_last_index,
            max_offset: self.max_offset,
            first_timestamp: self.first_timestamp,
            closed: self.closed,
            created_ms: self.created_ms,
            index_interval_bytes: self.index_interval_bytes,
            log_segment_bytes: self.log_segment_bytes,
            log_roll_ms: self.log_roll_ms,
            log: self.log@,
        }
    }
}

/// Whether the size of a segment is that of its log.
pub open spec fn segment_wf(s: SegmentView) -> bool {
    s.size_in_bytes == s.log.len()
}

// ---------------------------------------------------------------------------
// What is done to a segment

/// The segment that files hold.
pub open spec fn opened(
    base_offset: i64,
    log: Seq<u8>,
    index: Seq<u8>,
    time_index: Seq<u8>,
    index_interval_bytes: i32,
    log_segment_bytes: i64,
    log_roll_ms: i64,
    now: i64,
) -> SegmentView {
    SegmentView {
        base_offset,
        index: offset_entries(index),
        time_index: time_entries(time_index),
        size_in_bytes: log.len() as u64,
        flushed: log.len() as u64,
        bytes_since_last_index: 0,
        max_offset: recovered_max(base_offset, log),
        first_timestamp: 0,
        closed: false,
        created_ms: now,
        index_interval_bytes,
        log_segment_bytes,
        log_roll_ms,
        log,
    }
}

/// The offset of the last record in a log, or the one before the first if there
/// is none.
pub open spec fn recovered_max(base_offset: i64, log: Seq<u8>) -> i64 {
    match last_offset_in(log) {
        Some(o) => o,
        None => (base_offset - 1) as i64,
    }
}

/// The offset of the last record of a batch.
pub open spec fn batch_last(b: BatchModel) -> i64 {
    (b.base_offset + b.last_offset_delta) as i64
}

/// Whether a batch gets an entry in the indices.
pub open spec fn gets_indexed(s: SegmentView, raw: Seq<u8>) -> bool {
    s.index.len() == 0 || s.bytes_since_last_index + (raw.len() as u32)
        >= s.index_interval_bytes as u32
}

/// The offset of a batch counted from the segment's first, cut off at 32 bits.
pub open spec fn relative(s: SegmentView, b: BatchModel) -> i32 {
    b.base_offset.wrapping_sub(s.base_offset) as i32
}

pub open spec fn offset_entry(s: SegmentView, b: BatchModel) -> OffsetIndexEntry {
    OffsetIndexEntry { relative_offset: relative(s, b), position: s.log.len() as u64 as u32 }
}

pub open spec fn time_entry(s: SegmentView, b: BatchModel) -> TimeIndexEntry {
    TimeIndexEntry { timestamp: b.base_timestamp, relative_offset: relative(s, b) }
}

/// The segment after a batch was appended.
pub open spec fn appended(s: SegmentView, b: BatchModel, raw: Seq<u8>) -> SegmentView {
    let indexed = gets_indexed(s, raw);
    SegmentView {
        log: s.log + raw,
        size_in_bytes: (s.size_in_bytes + raw.len()) as u64,
        max_offset: if batch_last(b) > s.max_offset {
            batch_last(b)
        } else {
            s.max_offset
        },
        first_timestamp: if s.first_timestamp == 0 {
            b.base_timestamp
        } else {
            s.first_timestamp
        },
        index: if indexed {
            s.index.push(offset_entry(s, b))
        } else {
            s.index
        },
        time_index: if indexed {
            s.time_index.push(time_entry(s, b))
        } else {
            s.time_index
        },
        bytes_since_last_index: if indexed {
            0
        } else {
            (s.bytes_since_last_index + (raw.len() as u32)) as u32
        },
        ..s
    }
}

/// What an append puts behind the files.
pub open spec fn written(s: SegmentView, b: BatchModel, raw: Seq<u8>) -> WriteModel {
    WriteModel {
        segment: s.base_offset,
        log: raw,
        entries: if gets_indexed(s, raw) {
            Some((enc_offset_entry(offset_entry(s, b)), enc_time_entry(time_entry(s, b))))
        } else {
            None
        },
    }
}

/// What an append returns.
pub open spec fn append_result(s: SegmentView, b: BatchModel, now: i64) -> AppendResult {
    AppendResult {
        base_offset: b.base_offset,
        last_offset: batch_last(b),
        log_append_time_ms: now,
        log_start_offset: s.base_offset,
    }
}

/// What a reader gets who asks for batches from `start` on, at most `max` bytes
/// of them.
pub open spec fn segment_read(s: SegmentView, start: i64, max: int) -> Seq<u8> {
    if start > s.max_offset {
        Seq::empty()
    } else {
        selected(s.log, start, max)
    }
}

/// Whether a position is the one that the index gives for an offset: that of the
/// last entry that is not behind it, or the beginning.
pub open spec fn indexed_at(s: SegmentView, start: i64, p: u64) -> bool {
    exists|n: int| #[trigger]
        splits_at(s.index, start.wrapping_sub(s.base_offset) as i32, n) && p
            == match position_before(s.index, n) {
            Some(q) => q as u64,
            None => 0,
        }
}

/// Whether a segment has come to its limit of size or age.
pub open spec fn due_to_roll(s: SegmentView, now: i64) -> bool {
    s.log.len() >= (s.log_segment_bytes as u64) || now - s.created_ms >= s.log_roll_ms
}

/// Whether a segment last modified then has come to the end of its time.
pub open spec fn outlived(modified: i64, now: i64, retention_hours: i64) -> bool {
    now - modified > retention_hours * 3_600_000
}

// ---------------------------------------------------------------------------
// What holds of a segment

/// Whether an index entry points to where batches end that all come before it.
pub open spec fn entry_sound(s: SegmentView, e: OffsetIndexEntry) -> bool {
    &&& e.position <= s.log.len()
    &&& whole(s.log.take(e.position as int))
    &&& all_before(frames(s.log.take(e.position as int)), s.base_offset + e.relative_offset)
}

/// Whether a segment's log is batches to its end, in the order of their
/// offsets, and its index points where it should.
pub open spec fn sound(s: SegmentView) -> bool {
    &&& s.base_offset > i64::MIN
    &&& whole(s.log)
    &&& s.max_offset == recovered_max(s.base_offset, s.log)
    &&& s.base_offset - 1 <= s.max_offset
    &&& all_before(frames(s.log), s.max_offset + 1)
    &&& forall|i: int| 0 <= i < s.index.len() ==> entry_sound(s, #[trigger] s.index[i])
}

/// Whether the offsets and positions in a segment fit its index.
pub open spec fn indexable(s: SegmentView) -> bool {
    s.max_offset - s.base_offset <= i32::MAX && s.log.len() <= u32::MAX
}

/// Whether a batch may follow what is in a segment.
pub open spec fn follows(s: SegmentView, b: BatchModel, raw: Seq<u8>) -> bool {
    &&& s.max_offset < b.base_offset
    &&& raw.len() >= 27
    &&& frame_len(raw) == Some(raw.len())
    &&& frame_base(raw) == b.base_offset
    &&& b.last_offset_delta >= 0
    &&& b.base_offset + b.last_offset_delta <= i64::MAX
    &&& frame_last(raw) == batch_last(b)
}

/// A new segment is sound.
pub proof fn law_new_segment_is_sound(
    base_offset: i64,
    interval: i32,
    size: i64,
    roll: i64,
    now: i64,
)
    requires
        base_offset > i64::MIN,
    ensures
        sound(
            opened(
                base_offset,
                Seq::empty(),
                Seq::empty(),
                Seq::empty(),
                interval,
                size,
                roll,
                now,
            ),
        ),
{
}

/// Appending batches in the order of their offsets keeps a segment sound, as
/// long as its index can hold the numbers.
pub proof fn law_append_keeps_sound(s: SegmentView, b: BatchModel, raw: Seq<u8>)
    requires
        sound(s),
        follows(s, b, raw),
        indexable(appended(s, b, raw)),
    ensures
        sound(appended(s, b, raw)),
{
    let t = appended(s, b, raw);
    lemma_frames_concat(s.log, raw);
    lemma_one_frame(raw);
    assert(frames(t.log).last() == raw);
    assert(all_before(frames(t.log), t.max_offset + 1)) by {
        assert forall|i: int| 0 <= i < frames(t.log).len() implies frame_base(
            #[trigger] frames(t.log)[i],
        ) < t.max_offset + 1 by {
            if i < frames(s.log).len() {
                assert(frames(t.log)[i] == frames(s.log)[i]);
            }
        }
    }
    assert forall|i: int| 0 <= i < t.index.len() implies entry_sound(t, #[trigger] t.index[i]) by {
        let e = t.index[i];
        if i < s.index.len() {
            assert(entry_sound(s, s.index[i]));
            assert(t.log.take(e.position as int) =~= s.log.take(e.position as int));
        } else {
            assert(t.log.take(s.log.len() as int) =~= s.log);
            assert(e.position == s.log.len());
            let base = b.base_offset;
            let first = s.base_offset;
            assert(base.wrapping_sub(first) == base - first);
            assert(e.relative_offset == base - first);
        }
    }
}

/// What was appended is read from its offset on, if it fits.
pub proof fn law_segment_reads_back(s: SegmentView, b: BatchModel, raw: Seq<u8>, max: int)
    requires
        sound(s),
        follows(s, b, raw),
        raw.len() <= max,
    ensures
        segment_read(appended(s, b, raw), b.base_offset, max) == raw,
{
    assert(all_before(frames(s.log), frame_base(raw) as int));
    law_last_batch_is_read(s.log, raw, max);
}

/// It does not change what is read that reading begins where the index says.
pub proof fn law_index_only_saves_time(s: SegmentView, start: i64, n: int, max: int)
    requires
        sound(s),
        indexable(s),
        s.base_offset <= start <= s.max_offset,
        splits_at(s.index, (start - s.base_offset) as i32, n),
    ensures
        ({
            let p = match position_before(s.index, n) {
                Some(p) => p as int,
                None => 0,
            };
            &&& 0 <= p <= s.log.len()
            &&& selected(s.log.skip(p), start, max) == segment_read(s, start, max)
        }),
{
    match position_before(s.index, n) {
        Some(p) => {
            let e = s.index[n - 1];
            assert(entry_sound(s, e));
            let before = frames(s.log.take(p as int));
            assert(all_before(before, start as int));
            law_search_may_skip(s.log, p as int, start, max);
        },
        None => {
            assert(s.log.skip(0) =~= s.log);
        },
    }
}

/// A segment opened again on its files has the offsets and indices it had, if
/// what appends returned was written.
pub proof fn law_reopened(
    s: SegmentView,
    b: BatchModel,
    raw: Seq<u8>,
    index: Seq<u8>,
    time_index: Seq<u8>,
    now: i64,
)
    requires
        sound(s),
        follows(s, b, raw),
        index.len() % 8 == 0,
        time_index.len() % 12 == 0,
        offset_entries(index) == s.index,
        time_entries(time_index) == s.time_index,
    ensures
        ({
            let t = appended(s, b, raw);
            let w = written(s, b, raw);
            let again = opened(
                s.base_offset,
                s.log + w.log,
                match w.entries {
                    Some(e) => index + e.0,
                    None => index,
                },
                match w.entries {
                    Some(e) => time_index + e.1,
                    None => time_index,
                },
                s.index_interval_bytes,
                s.log_segment_bytes,
                s.log_roll_ms,
                now,
            );
            &&& again.log == t.log
            &&& again.max_offset == t.max_offset
            &&& again.index == t.index
            &&& again.time_index == t.time_index
        }),
{
    lemma_frames_concat(s.log, raw);
    lemma_one_frame(raw);
    assert(frames(s.log + raw).last() == raw);
    if gets_indexed(s, raw) {
        law_offset_entry_written(index, offset_entry(s, b));
        law_time_entry_written(time_index, time_entry(s, b));
    }
}

// ---------------------------------------------------------------------------

impl LogSegment {
    /// Whether the size is that of the log.
    pub open spec fn wf(&self) -> bool {
        segment_wf(self@)
    }

    /// The segment that files hold, all of them empty for a new one.
    pub fn open(
        base_offset: i64,
        log: &[u8],
        index: &[u8],
        time_index: &[u8],
        index_interval_bytes: i32,
        log_segment_bytes: i64,
        log_roll_ms: i64,
        now: i64,
    ) -> (r: Self)
        requires
            base_offset > i64::MIN,
        ensures
            r.wf(),
            r@ == opened(
                base_offset,
                log@,
                index@,
                time_index@,
                index_interval_bytes,
                log_segment_bytes,
                log_roll_ms,
                now,
            ),
    {
        let max_offset = match last_batch_offset(log) {
            Some(o) => o,
            None => base_offset - 1,
        };
        let size: u64 = log.len() as u64;
        LogSegment {
            base_offset,
            index: OffsetIndex::open(index),
            time_index: TimeIndex::open(time_index),
            size_in_bytes: size,
            flushed: size,
            bytes_since_last_index: 0,
            max_offset,
            first_timestamp: 0,
            closed: false,
            created_ms: now,
            index_interval_bytes,
            log_segment_bytes,
            log_roll_ms,
            log: Ghost(log@),
        }
    }

    /// The name of the file that holds the log.
    pub fn log_name(&self) -> (r: String)
        ensures
            r@ == text::padded(self.base_offset as int) + ".log"@,
    {
        let mut s = text::pad(self.base_offset);
        s.append(".log");
        s
    }

    /// The name of the file that holds the offset index.
    pub fn index_name(&self) -> (r: String)
        ensures
            r@ == text::padded(self.base_offset as int) + ".index"@,
    {
        let mut s = text::pad(self.base_offset);
        s.append(".index");
        s
    }

    /// The name of the file that holds the time index.
    pub fn timeindex_name(&self) -> (r: String)
        ensures
            r@ == text::padded(self.base_offset as int) + ".timeindex"@,
    {
        let mut s = text::pad(self.base_offset);
        s.append(".timeindex");
        s
    }

    /// Appends a batch. What is returned beside the result is to be written.
    pub fn append(&mut self, batch: &RecordBatch, now: i64) -> (r: core::result::Result<
        (AppendResult, SegmentWrite),
        StorageError,
    >)
        requires
            old(self).wf(),
            i64::MIN <= batch.base_offset + batch.last_offset_delta <= i64::MAX,
        ensures
            final(self).wf(),
            match r {
                Ok((result, write)) => {
                    &&& !old(self).closed
                    &&& old(self)@.log.len() + bytes_view(batch.raw).len() <= u64::MAX
                    &&& final(self)@ == appended(
                        old(self)@,
                        batch.model(),
                        bytes_view(batch.raw),
                    )
                    &&& result == append_result(old(self)@, batch.model(), now)
                    &&& write.model() == written(
                        old(self)@,
                        batch.model(),
                        bytes_view(batch.raw),
                    )
                },
                Err(e) => {
                    &&& *final(self) == *old(self)
                    &&& e == if old(self).closed {
                        StorageError::Closed
                    } else {
                        StorageError::TooLarge
                    }
                    &&& old(self).closed || old(self)@.log.len() + bytes_view(batch.raw).len()
                        > u64::MAX
                },
            },
    {
        if self.closed {
            return Err(StorageError::Closed);
        }
        let position: u64 = self.size_in_bytes;
        let len: usize = buf::bytes_len(&batch.raw);
        let size: u64 = match position.checked_add(len as u64) {
            Some(size) => size,
            None => {
                return Err(StorageError::TooLarge);
            },
        };
        let ghost before = self@;
        let ghost b = batch.model();
        let ghost raw = bytes_view(batch.raw);
        let last_offset = batch.last_offset();
        let indexed = self.index.is_empty() || self.bytes_since_last_index as u64 + (
        len as u32) as u64 >= (self.index_interval_bytes as u32) as u64;
        let entries = if indexed {
            let rel = batch.base_offset.wrapping_sub(self.base_offset) as i32;
            let a = self.index.append(rel, position as u32);
            let t = self.time_index.append(batch.base_timestamp, rel);
            self.bytes_since_last_index = 0;
            Some((a, t))
        } else {
            self.bytes_since_last_index = self.bytes_since_last_index + (len as u32);
            None
        };
        self.size_in_bytes = size;
        self.log = Ghost(self.log@ + raw);
        if last_offset > self.max_offset {
            self.max_offset = last_offset;
        }
        if self.first_timestamp == 0 {
            self.first_timestamp = batch.base_timestamp;
        }
        let result = AppendResult {
            base_offset: batch.base_offset,
            last_offset,
            log_append_time_ms: now,
            log_start_offset: self.base_offset,
        };
        let write = SegmentWrite { segment: self.base_offset, log: batch.raw.clone(), entries };
        Ok((result, write))
    }

    /// Where in the log to begin to read for `start_offset`: nowhere if that is
    /// beyond the last record.
    pub fn read_position(&self, start_offset: i64) -> (r: Option<u64>)
        ensures
            r is None <==> start_offset > self.max_offset,
            r matches Some(p) ==> indexed_at(self@, start_offset, p),
            r matches Some(p) ==> (sound(self@) && indexable(self@) && self.base_offset
                <= start_offset ==> p <= self.log@.len() && forall|max: int| #[trigger]
                selected(self.log@.skip(p as int), start_offset, max) == segment_read(
                    self@,
                    start_offset,
                    max,
                )),
    {
        if start_offset > self.max_offset {
            return None;
        }
        let target = start_offset.wrapping_sub(self.base_offset) as i32;
        let found = self.index.lookup(target);
        let p: u64 = match found {
            Some(p) => p as u64,
            None => 0,
        };
        proof {
            let n = choose|n: int| #[trigger]
                splits_at(self.index@, target, n) && found == position_before(self.index@, n);
            assert(splits_at(
                self.index@,
                start_offset.wrapping_sub(self.base_offset) as i32,
                n,
            ) && p == match position_before(self.index@, n) {
                Some(q) => q as u64,
                None => 0,
            });
            if sound(self@) && indexable(self@) && self.base_offset <= start_offset {
                assert(target == start_offset - self.base_offset);
                law_index_only_saves_time(self@, start_offset, n, 0);
                assert forall|max: int| #[trigger]
                    selected(self.log@.skip(p as int), start_offset, max) == segment_read(
                        self@,
                        start_offset,
                        max,
                    ) by {
                    law_index_only_saves_time(self@, start_offset, n, max);
                }
            }
        }
        Some(p)
    }

    /// The batches from `start_offset` on, at most `max_bytes` of them, out of
    /// the log from the position on that [`LogSegment::read_position`] gave.
    pub fn read(&self, start_offset: i64, max_bytes: usize, tail: &[u8]) -> (r: Bytes)
        ensures
            bytes_view(r) == if start_offset > self.max_offset {
                Seq::empty()
            } else {
                selected(tail@, start_offset, max_bytes as int)
            },
    {
        if start_offset > self.max_offset {
            return buf::bytes_new();
        }
        select_batches(tail, start_offset, max_bytes)
    }

    /// The offset of the earliest indexed batch at or after a timestamp.
    pub fn offset_for_timestamp(&self, timestamp: i64) -> (r: Option<i64>)
        ensures
            exists|n: int| #[trigger]
                splits_times_at(self.time_index@, timestamp, n) && r == match offset_after(
                    self.time_index@,
                    n,
                ) {
                    Some(rel) => Some(self.base_offset.wrapping_add(rel as i64)),
                    None => None,
                },
    {
        match self.time_index.lookup(timestamp) {
            Some(rel) => Some(self.base_offset.wrapping_add(rel as i64)),
            None => None,
        }
    }

    /// Whether the segment has come to its limit of size or age.
    pub fn should_roll(&self, now: i64) -> (r: bool)
        requires
            self.wf(),
        ensures
            r == due_to_roll(self@, now),
    {
        self.size_in_bytes >= self.log_segment_bytes as u64 || now as i128
            - self.created_ms as i128 >= self.log_roll_ms as i128
    }

    /// Takes no more.
    pub fn close(&mut self)
        ensures
            final(self)@ == (SegmentView { closed: true, ..old(self)@ }),
            old(self).wf() ==> final(self).wf(),
    {
        self.closed = true;
    }

    /// Notes that all of the log is on disk.
    pub fn flush_log(&mut self)
        requires
            old(self).wf(),
        ensures
            final(self).wf(),
            final(self)@ == (SegmentView { flushed: old(self)@.log.len() as u64, ..old(self)@ }),
    {
        self.flushed = self.size_in_bytes;
    }

    /// Whether the segment, last modified then, has come to the end of its time.
    pub fn is_expired(&self, modified: i64, now: i64, retention_hours: i64) -> (r: bool)
        ensures
            r == outlived(modified, now, retention_hours),
    {
        now as i128 - modified as i128 > retention_hours as i128 * 3_600_000
    }
}

} // verus!
