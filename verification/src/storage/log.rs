//! The log of a partition: segments one after the other, of which the last one
//! takes what is appended.

use std::sync::Arc;

use bytes::Bytes;
use vstd::prelude::*;
use vstd::string::StrSliceExecFns;

use crate::buf;
use crate::buf::bytes_view;
use crate::clock;
use crate::config::BrokerConfig;
use crate::protocol::compression::compressed;
use crate::protocol::primitive::{DecodeError, Modeled};
use crate::protocol::recordbatch::{
    algorithm, batch_fits, batch_of, copy_record, enc_batch, enc_records, frame_len,
    law_first_batch, lemma_batch_frame, parsed, unsettled, BatchModel, Record, RecordBatch,
    RecordModel,
};
use crate::protocol::run::{all_read, one_batch, read_runs, BatchRun, RunModel};
use crate::storage::scan::{
    all_before, fitting, frame_base, frames, from_offset, lemma_frames_concat, lemma_passed_over,
    selected, whole,
};
use crate::storage::segment::{
    append_result, appended, due_to_roll, follows, indexable, indexed_at, law_append_keeps_sound,
    law_new_segment_is_sound, law_segment_reads_back, opened, outlived, segment_read, segment_wf,
    sound, written, LogSegment, SegmentView, SegmentWrite, WriteModel,
};
use crate::text;

pub use crate::storage::segment::{AppendResult, StorageError};

verus! {

/// What the files of a segment hold.
#[derive(Debug)]
pub struct SegmentFiles {
    pub base_offset: i64,
    pub log: Vec<u8>,
    pub index: Vec<u8>,
    pub time_index: Vec<u8>,
}

/// The mathematical value of a segment's files.
pub struct FilesModel {
    pub base_offset: i64,
    pub log: Seq<u8>,
    pub index: Seq<u8>,
    pub time_index: Seq<u8>,
}

impl Modeled for SegmentFiles {
    type M = FilesModel;

    open spec fn model(&self) -> FilesModel {
        FilesModel {
            base_offset: self.base_offset,
            log: self.log@,
            index: self.index@,
            time_index: self.time_index@,
        }
    }
}

/// The log of a partition.
pub struct PartitionLog {
    pub topic: String,
    pub partition: i32,
    /// The segments, by their first offsets.
    pub segments: Vec<LogSegment>,
    /// The offset after the last record.
    pub high_watermark: i64,
    /// The oldest offset that can be read.
    pub log_start_offset: i64,
    pub config: Arc<BrokerConfig>,
}

/// The limits of the segments of a log.
pub struct Limits {
    pub index_interval_bytes: i32,
    pub log_segment_bytes: i64,
    pub log_roll_ms: i64,
}

/// The mathematical value of a log.
pub struct LogView {
    pub segments: Seq<SegmentView>,
    pub high_watermark: i64,
    pub log_start_offset: i64,
    pub limits: Limits,
}

/// The values of segments.
pub open spec fn views(segments: Seq<LogSegment>) -> Seq<SegmentView> {
    Seq::new(segments.len(), |i: int| segments[i]@)
}

/// Whether segments stand in the order of their first offsets.
pub open spec fn ascending(segments: Seq<SegmentView>) -> bool {
    forall|i: int, j: int|
        0 <= i < j < segments.len() ==> (#[trigger] segments[i]).base_offset < (
        #[trigger] segments[j]).base_offset
}

/// Whether there are segments, in the order of their first offsets, every
/// segment knows its size, and the high watermark is the offset after the last
/// record.
pub open spec fn log_wf(l: LogView) -> bool {
    &&& l.segments.len() > 0
    &&& ascending(l.segments)
    &&& forall|i: int| 0 <= i < l.segments.len() ==> segment_wf(#[trigger] l.segments[i])
    &&& l.high_watermark == l.segments.last().max_offset + 1
}

/// The limits that a configuration sets.
pub open spec fn limits_of(config: Arc<BrokerConfig>) -> Limits {
    Limits {
        index_interval_bytes: config.index_interval_bytes,
        log_segment_bytes: config.log_segment_bytes,
        log_roll_ms: config.log_roll_ms,
    }
}

impl View for PartitionLog {
    type V = LogView;

    open spec fn view(&self) -> LogView {
        LogView {
            segments: views(self.segments@),
            high_watermark: self.high_watermark,
            log_start_offset: self.log_start_offset,
            limits: limits_of(self.config),
        }
    }
}

// ---------------------------------------------------------------------------
// The names of files

/// What is left of a name when `.log` is taken off its end for as long as it
/// stands there.
pub open spec fn stem(name: Seq<char>) -> Seq<char>
    decreases name.len(),
{
    if ends_in_log(name) {
        stem(name.take(name.len() - 4))
    } else {
        name
    }
}

pub open spec fn ends_in_log(name: Seq<char>) -> bool {
    name.len() >= 4 && name.subrange(name.len() - 4, name.len() as int) == seq!['.', 'l', 'o', 'g']
}

/// The first offset of the segment whose log has that name: zero where the name
/// has no number, and none where it is no log's.
pub open spec fn base_of_name(name: Seq<char>) -> Option<i64> {
    if ends_in_log(name) {
        match text::read_int(stem(name), i64::MIN as int, i64::MAX as int) {
            Some(n) => Some(n as i64),
            None => Some(0),
        }
    } else {
        None
    }
}

/// The name of a segment's log gives the segment's first offset.
pub proof fn law_log_name_round_trip(base_offset: i64)
    ensures
        base_of_name(text::padded(base_offset as int) + ".log"@) == Some(base_offset),
{
    let p = text::padded(base_offset as int);
    reveal_strlit(".log");
    let name = p + ".log"@;
    assert(".log"@ =~= seq!['.', 'l', 'o', 'g']);
    text::law_padded_round_trip(base_offset as int, i64::MIN as int, i64::MAX as int);
    assert(name.subrange(name.len() - 4, name.len() as int) =~= seq!['.', 'l', 'o', 'g']);
    assert(name.take(name.len() - 4) =~= p);
    assert(!ends_in_log(p)) by {
        if ends_in_log(p) {
            assert(p.subrange(p.len() - 4, p.len() as int)[3] == p.last());
        }
    }
    assert(stem(p) == p);
}

fn name_ends_in_log(name: &str, len: usize) -> (r: bool)
    requires
        len <= name@.len(),
    ensures
        r == ends_in_log(name@.take(len as int)),
{
    let ghost t = name@.take(len as int);
    if len < 4 {
        return false;
    }
    let r = name.get_char(len - 4) == '.' && name.get_char(len - 3) == 'l' && name.get_char(
        len - 2,
    ) == 'o' && name.get_char(len - 1) == 'g';
    proof {
        let end = t.subrange(t.len() - 4, t.len() as int);
        if r {
            assert(end =~= seq!['.', 'l', 'o', 'g']);
        } else {
            assert(end[0] == name@[len - 4]);
            assert(end[1] == name@[len - 3]);
            assert(end[2] == name@[len - 2]);
            assert(end[3] == name@[len - 1]);
        }
    }
    r
}

/// The first offset of the segment whose log has that name.
pub fn segment_base(name: &str) -> (r: Option<i64>)
    ensures
        r == base_of_name(name@),
{
    let len = name.unicode_len();
    assert(name@.take(len as int) =~= name@);
    if !name_ends_in_log(name, len) {
        return None;
    }
    let mut n: usize = len;
    loop
        invariant
            n <= name@.len(),
            stem(name@.take(n as int)) == stem(name@),
        ensures
            n <= name@.len(),
            stem(name@) == name@.take(n as int),
        decreases n,
    {
        if !name_ends_in_log(name, n) {
            break;
        }
        proof {
            assert(name@.take(n as int).take(n - 4) =~= name@.take(n - 4));
        }
        n = n - 4;
    }
    let stem_str = name.substring_char(0, n);
    assert(stem_str@ =~= name@.take(n as int));
    match text::parse_int(stem_str, i64::MIN, i64::MAX) {
        Some(b) => Some(b),
        None => Some(0),
    }
}

/// Whether each is greater than the one before it.
pub open spec fn increasing(s: Seq<i64>) -> bool {
    forall|i: int, j: int| 0 <= i < j < s.len() ==> #[trigger] s[i] < #[trigger] s[j]
}

/// Whether a segment with that first offset is among the files.
pub open spec fn named(names: Seq<Seq<char>>, base: i64) -> bool {
    exists|i: int| 0 <= i < names.len() && base_of_name(#[trigger] names[i]) == Some(base)
}

fn insert_base(v: &mut Vec<i64>, b: i64)
    requires
        increasing(old(v)@),
    ensures
        increasing(final(v)@),
        forall|x: i64| #[trigger] final(v)@.contains(x) <==> old(v)@.contains(x) || x == b,
{
    let mut i: usize = 0;
    while i < v.len() && v[i] < b
        invariant
            i <= v@.len(),
            v@ == old(v)@,
            forall|k: int| 0 <= k < i ==> v@[k] < b,
        decreases v@.len() - i,
    {
        i = i + 1;
    }
    if i < v.len() && v[i] == b {
        assert(v@.contains(b));
        return;
    }
    let ghost before = v@;
    v.insert(i, b);
    proof {
        assert forall|x: i64| #[trigger] v@.contains(x) <==> before.contains(x) || x == b by {
            if before.contains(x) {
                let k = choose|k: int| 0 <= k < before.len() && before[k] == x;
                if k < i {
                    assert(v@[k] == x);
                } else {
                    assert(v@[k + 1] == x);
                }
            }
            if x == b {
                assert(v@[i as int] == x);
            }
            if v@.contains(x) && x != b {
                let k = choose|k: int| 0 <= k < v@.len() && v@[k] == x;
                if k < i {
                    assert(before[k] == x);
                } else {
                    assert(before[k - 1] == x);
                }
            }
        }
    }
}

/// The first offsets of the segments whose logs are among the files, in order.
pub fn segment_bases(names: &Vec<String>) -> (r: Vec<i64>)
    ensures
        increasing(r@),
        forall|b: i64| #[trigger] r@.contains(b) <==> named(names.model(), b),
{
    let mut out: Vec<i64> = Vec::new();
    let mut i: usize = 0;
    let ghost all = names.model();
    while i < names.len()
        invariant
            i <= names@.len(),
            all == names.model(),
            increasing(out@),
            forall|b: i64| #[trigger] out@.contains(b) <==> named(all.take(i as int), b),
        decreases names@.len() - i,
    {
        let ghost before = out@;
        let base = segment_base(names[i].as_str());
        match base {
            Some(b) => insert_base(&mut out, b),
            None => {},
        }
        proof {
            let t = all.take(i as int);
            let u = all.take(i as int + 1);
            assert forall|b: i64| #[trigger] out@.contains(b) <==> named(u, b) by {
                if named(t, b) {
                    let k = choose|k: int| 0 <= k < t.len() && base_of_name(#[trigger] t[k])
                        == Some(b);
                    assert(u[k] == t[k]);
                }
                if named(u, b) {
                    let k = choose|k: int| 0 <= k < u.len() && base_of_name(#[trigger] u[k])
                        == Some(b);
                    if k < i {
                        assert(t[k] == u[k]);
                    }
                }
                if base == Some(b) {
                    assert(base_of_name(u[i as int]) == Some(b));
                }
                assert(before.contains(b) <==> named(t, b));
            }
        }
        i = i + 1;
    }
    assert(all.take(i as int) =~= all);
    out
}

// ---------------------------------------------------------------------------
// What is done to a log

/// A segment with nothing in it.
pub open spec fn new_segment(base_offset: i64, limits: Limits, now: i64) -> SegmentView {
    opened(
        base_offset,
        Seq::empty(),
        Seq::empty(),
        Seq::empty(),
        limits.index_interval_bytes,
        limits.log_segment_bytes,
        limits.log_roll_ms,
        now,
    )
}

/// Whether files stand in the order of their first offsets.
pub open spec fn files_in_order(files: Seq<FilesModel>) -> bool {
    forall|i: int, j: int|
        0 <= i < j < files.len() ==> (#[trigger] files[i]).base_offset < (
        #[trigger] files[j]).base_offset
}

/// The segments that files hold; one that is empty and begins at zero if there
/// are none.
pub open spec fn opened_segments(files: Seq<FilesModel>, limits: Limits, now: i64) -> Seq<
    SegmentView,
> {
    if files.len() == 0 {
        seq![new_segment(0, limits, now)]
    } else {
        Seq::new(
            files.len(),
            |i: int|
                opened(
                    files[i].base_offset,
                    files[i].log,
                    files[i].index,
                    files[i].time_index,
                    limits.index_interval_bytes,
                    limits.log_segment_bytes,
                    limits.log_roll_ms,
                    now,
                ),
        )
    }
}

/// The log that files hold.
pub open spec fn opened_log(files: Seq<FilesModel>, limits: Limits, now: i64) -> LogView {
    let segments = opened_segments(files, limits, now);
    LogView {
        segments,
        high_watermark: (segments.last().max_offset + 1) as i64,
        log_start_offset: if segments[0].base_offset == i64::MAX {
            0
        } else {
            segments[0].base_offset
        },
        limits,
    }
}

/// The records with their offsets counted anew from zero.
pub open spec fn renumbered(rs: Seq<RecordModel>) -> Seq<RecordModel> {
    Seq::new(rs.len(), |i: int| RecordModel { offset_delta: i as i32, ..rs[i] })
}

/// The batch moved to an offset.
pub open spec fn rebased(b: BatchModel, offset: i64) -> BatchModel {
    batch_of(
        offset,
        renumbered(b.records),
        algorithm(b.attributes),
        b.base_timestamp,
        b.producer_id,
        b.producer_epoch,
        b.base_sequence,
        b.partition_leader_epoch,
    )
}

/// The bytes of a batch moved to an offset.
pub open spec fn rebased_raw(b: BatchModel, offset: i64) -> Seq<u8> {
    let m = rebased(b, offset);
    enc_batch(m, compressed(algorithm(b.attributes), enc_records(m.records)))
}

/// Whether the last segment makes way for a new one. It does not if the new one
/// would begin where it begins itself.
pub open spec fn rolls(l: LogView, now: i64) -> bool {
    let a = l.segments.last();
    !a.closed && due_to_roll(a, now) && l.high_watermark > a.base_offset
}

/// The log once its last segment has made way if it has to.
pub open spec fn rolled(l: LogView, now: i64) -> LogView {
    if rolls(l, now) {
        let n = l.segments.len() - 1;
        LogView {
            segments: l.segments.update(
                n,
                SegmentView { closed: true, ..l.segments[n] },
            ).push(new_segment(l.high_watermark, l.limits, now)),
            ..l
        }
    } else {
        l
    }
}

/// What an append comes to: the log, what is returned and what is written.
pub type Appended = (LogView, AppendResult, WriteModel);

/// The log after a batch was appended.
#[verifier::opaque]
pub open spec fn log_append(l: LogView, b: BatchModel, now: i64) -> core::result::Result<
    Appended,
    StorageError,
> {
    let m = rebased(b, l.high_watermark);
    let raw = rebased_raw(b, l.high_watermark);
    let t = rolled(l, now);
    let a = t.segments.last();
    if !batch_fits(m, algorithm(b.attributes)) {
        Err(StorageError::TooLarge)
    } else if l.high_watermark + m.last_offset_delta >= i64::MAX {
        Err(StorageError::OffsetOverflow)
    } else if a.closed {
        Err(StorageError::Closed)
    } else if a.log.len() + raw.len() > u64::MAX {
        Err(StorageError::TooLarge)
    } else {
        let s = appended(a, m, raw);
        Ok(
            (
                LogView {
                    segments: t.segments.update(t.segments.len() - 1, s),
                    high_watermark: (s.max_offset + 1) as i64,
                    ..t
                },
                append_result(a, m, now),
                written(a, m, raw),
            ),
        )
    }
}

/// A log in the course of an append.
pub struct AppendState {
    pub log: LogView,
    pub results: Seq<AppendResult>,
    pub writes: Seq<WriteModel>,
    pub err: Option<StorageError>,
}

/// A log at the start of an append, and what is to be written already.
pub open spec fn append_start(log: LogView, writes: Seq<WriteModel>) -> AppendState {
    AppendState { log, results: Seq::empty(), writes, err: None }
}

/// One batch further.
pub open spec fn append_step(st: AppendState, b: BatchModel, now: i64) -> AppendState {
    match log_append(st.log, b, now) {
        Err(e) => AppendState { err: Some(e), ..st },
        Ok((log, result, write)) => AppendState {
            log,
            results: st.results.push(result),
            writes: st.writes.push(write),
            err: None,
        },
    }
}

/// Batches further, up to the first error.
pub open spec fn append_batches(st: AppendState, bs: Seq<BatchModel>, now: i64) -> AppendState
    decreases bs.len(),
{
    if st.err is Some || bs.len() == 0 {
        st
    } else {
        append_batches(append_step(st, bs[0], now), bs.skip(1), now)
    }
}

/// What was read of a run further, up to the first error.
pub open spec fn append_run(st: AppendState, run: RunModel, now: i64) -> AppendState {
    let t = append_batches(st, run.batches, now);
    match run.err {
        Some(e) if t.err is None => AppendState { err: Some(StorageError::Decode(e)), ..t },
        _ => t,
    }
}

/// What was read of several runs further, up to the first error.
pub open spec fn append_all(st: AppendState, runs: Seq<RunModel>, now: i64) -> AppendState
    decreases runs.len(),
{
    if st.err is Some || runs.len() == 0 {
        st
    } else {
        append_all(append_run(st, runs[0], now), runs.skip(1), now)
    }
}

/// The place of the last segment that begins at `offset` or before, or -1.
pub open spec fn segment_for(segments: Seq<SegmentView>, offset: i64) -> int
    decreases segments.len(),
{
    if segments.len() == 0 {
        -1
    } else if segments.last().base_offset <= offset {
        segments.len() - 1
    } else {
        segment_for(segments.drop_last(), offset)
    }
}

/// What a reader gets who asks for batches from `start` on, at most `max` bytes
/// of them.
pub open spec fn log_read(l: LogView, start: i64, max: int) -> Seq<u8> {
    let k = segment_for(l.segments, start);
    if start < l.log_start_offset || k < 0 {
        Seq::empty()
    } else {
        segment_read(l.segments[k], start, max)
    }
}

/// The bytes in segments.
pub open spec fn total_size(segments: Seq<SegmentView>) -> int
    decreases segments.len(),
{
    if segments.len() == 0 {
        0
    } else {
        total_size(segments.drop_last()) + segments.last().log.len()
    }
}

/// Whether a segment is given up that was last modified then.
pub open spec fn given_up(config: Arc<BrokerConfig>, total: int, modified: i64, now: i64) -> bool {
    outlived(modified, now, config.log_retention_hours) || (config.log_retention_bytes >= 0 && total
        > config.log_retention_bytes)
}

/// Those of the segments that are kept, the last one in any case.
pub open spec fn kept(
    segments: Seq<SegmentView>,
    modified: Seq<i64>,
    config: Arc<BrokerConfig>,
    total: int,
    now: i64,
) -> Seq<SegmentView>
    decreases segments.len(),
{
    if segments.len() <= 1 {
        segments
    } else {
        let rest = kept(segments.skip(1), modified.skip(1), config, total, now);
        if given_up(config, total, modified[0], now) {
            rest
        } else {
            seq![segments[0]] + rest
        }
    }
}

/// The log after old segments were given up.
pub open spec fn after_cleanup(
    l: LogView,
    modified: Seq<i64>,
    config: Arc<BrokerConfig>,
    now: i64,
) -> LogView {
    if config.cleanup_policy@ != "delete"@ {
        l
    } else {
        let segments = kept(l.segments, modified, config, total_size(l.segments), now);
        LogView {
            segments,
            log_start_offset: if segments.len() < l.segments.len() {
                segments[0].base_offset
            } else {
                l.log_start_offset
            },
            ..l
        }
    }
}

/// A run of one batch comes to what that batch comes to.
pub proof fn lemma_one_batch(st: AppendState, b: BatchModel, now: i64)
    requires
        st.err is None,
    ensures
        append_all(st, seq![one_batch(b)], now) == append_step(st, b, now),
{
    let next = append_step(st, b, now);
    let bs = one_batch(b).batches;
    assert(bs.skip(1) =~= Seq::empty());
    assert(append_batches(next, bs.skip(1), now) == next);
    assert(append_batches(st, bs, now) == next);
    assert(append_run(st, one_batch(b), now) == next);
    assert(seq![one_batch(b)].skip(1) =~= Seq::empty());
    assert(append_all(next, seq![one_batch(b)].skip(1), now) == next);
}

// ---------------------------------------------------------------------------
// Laws

/// Whether every segment is sound, and begins behind the one before it.
pub open spec fn log_sound(l: LogView) -> bool {
    &&& l.segments.len() > 0
    &&& forall|i: int| 0 <= i < l.segments.len() ==> sound(#[trigger] l.segments[i])
    &&& forall|i: int, j: int|
        0 <= i < j < l.segments.len() ==> (#[trigger] l.segments[i]).max_offset < (
        #[trigger] l.segments[j]).base_offset
    &&& l.high_watermark == l.segments.last().max_offset + 1
    &&& l.log_start_offset <= l.segments.last().base_offset
}

/// A log that was just made is sound.
pub proof fn law_new_log_is_sound(limits: Limits, now: i64)
    ensures
        log_sound(opened_log(Seq::empty(), limits, now)),
        opened_log(Seq::empty(), limits, now).high_watermark == 0,
        opened_log(Seq::empty(), limits, now).log_start_offset == 0,
{
    law_new_segment_is_sound(
        0,
        limits.index_interval_bytes,
        limits.log_segment_bytes,
        limits.log_roll_ms,
        now,
    );
}

pub proof fn lemma_rebased_follows(l: LogView, b: BatchModel, now: i64)
    requires
        log_sound(l),
        log_append(l, b, now) is Ok,
    ensures
        log_sound(rolled(l, now)),
        follows(
            rolled(l, now).segments.last(),
            rebased(b, l.high_watermark),
            rebased_raw(b, l.high_watermark),
        ),
{
    reveal(log_append);
    let m = rebased(b, l.high_watermark);
    let data = compressed(algorithm(b.attributes), enc_records(m.records));
    lemma_batch_frame(m, data);
    let t = rolled(l, now);
    let n = l.segments.len() - 1;
    assert(sound(l.segments[n]));
    law_new_segment_is_sound(
        l.high_watermark,
        l.limits.index_interval_bytes,
        l.limits.log_segment_bytes,
        l.limits.log_roll_ms,
        now,
    );
    assert forall|i: int| 0 <= i < t.segments.len() implies sound(#[trigger] t.segments[i]) by {
        if i <= n {
            assert(sound(l.segments[i]));
        }
    }
    assert forall|i: int, j: int| 0 <= i < j < t.segments.len() implies (
    #[trigger] t.segments[i]).max_offset < (#[trigger] t.segments[j]).base_offset by {
        if j <= n {
            assert(l.segments[i].max_offset < l.segments[j].base_offset);
        } else if i < n {
            assert(l.segments[i].max_offset < l.segments[n].base_offset);
        }
    }
}

/// Appending keeps a log sound, as long as the index of its last segment can
/// hold the numbers.
pub proof fn law_log_append_keeps_sound(l: LogView, b: BatchModel, now: i64)
    requires
        log_sound(l),
        log_append(l, b, now) is Ok,
        indexable(log_append(l, b, now)->Ok_0.0.segments.last()),
    ensures
        log_sound(log_append(l, b, now)->Ok_0.0),
{
    reveal(log_append);
    let t = rolled(l, now);
    let m = rebased(b, l.high_watermark);
    let raw = rebased_raw(b, l.high_watermark);
    let u = log_append(l, b, now)->Ok_0.0;
    let n = t.segments.len() - 1;
    lemma_rebased_follows(l, b, now);
    law_append_keeps_sound(t.segments[n], m, raw);
    assert forall|i: int| 0 <= i < u.segments.len() implies sound(#[trigger] u.segments[i]) by {
        if i < n {
            assert(sound(t.segments[i]));
        }
    }
    assert forall|i: int, j: int| 0 <= i < j < u.segments.len() implies (
    #[trigger] u.segments[i]).max_offset < (#[trigger] u.segments[j]).base_offset by {
        assert(t.segments[i].max_offset < t.segments[j].base_offset);
    }
}

/// Offsets are given out without gaps: a batch begins where the last one ended,
/// and the next will begin where it ends.
pub proof fn law_offsets_are_consecutive(l: LogView, b: BatchModel, now: i64)
    requires
        log_sound(l),
        log_append(l, b, now) is Ok,
    ensures
        ({
            let (u, r, w) = log_append(l, b, now)->Ok_0;
            &&& r.base_offset == l.high_watermark
            &&& r.last_offset == l.high_watermark + rebased(
                b,
                l.high_watermark,
            ).last_offset_delta
            &&& u.high_watermark == r.last_offset + 1
            &&& b.records.len() > 0 ==> u.high_watermark == l.high_watermark + b.records.len()
        }),
{
    reveal(log_append);
    lemma_rebased_follows(l, b, now);
}

/// What was appended is what is read from its offset on, if it fits.
pub proof fn law_read_gives_back_append(l: LogView, b: BatchModel, now: i64, max: int)
    requires
        log_sound(l),
        log_append(l, b, now) is Ok,
        rebased_raw(b, l.high_watermark).len() <= max,
    ensures
        ({
            let (u, r, w) = log_append(l, b, now)->Ok_0;
            &&& log_read(u, r.base_offset, max) == rebased_raw(b, l.high_watermark)
            &&& w.log == rebased_raw(b, l.high_watermark)
        }),
{
    reveal(log_append);
    let t = rolled(l, now);
    let a = t.segments.last();
    let m = rebased(b, l.high_watermark);
    let raw = rebased_raw(b, l.high_watermark);
    lemma_rebased_follows(l, b, now);
    law_segment_reads_back(a, m, raw, max);
    let u = log_append(l, b, now)->Ok_0.0;
    assert(sound(a));
    assert(u.segments.last() == appended(a, m, raw));
}

/// What was appended lies between the oldest and the last offset that can be
/// read.
pub proof fn law_appended_is_in_reach(l: LogView, b: BatchModel, now: i64)
    requires
        log_sound(l),
        log_append(l, b, now) is Ok,
    ensures
        ({
            let (u, r, w) = log_append(l, b, now)->Ok_0;
            let k = segment_for(u.segments, r.base_offset);
            &&& u.log_start_offset <= r.base_offset
            &&& 0 <= k < u.segments.len()
            &&& r.base_offset <= u.segments[k].max_offset
            &&& r.base_offset < u.high_watermark
        }),
{
    reveal(log_append);
    let t = rolled(l, now);
    lemma_rebased_follows(l, b, now);
    let u = log_append(l, b, now)->Ok_0.0;
    assert(sound(t.segments.last()));
    assert(u.segments.last() == appended(
        t.segments.last(),
        rebased(b, l.high_watermark),
        rebased_raw(b, l.high_watermark),
    ));
}

/// Whether a segment of a log has a batch at a position, where a reader who asks
/// for its offset finds it.
pub open spec fn held_at(l: LogView, f: Seq<u8>, i: int, position: int) -> bool {
    let s = l.segments[i];
    &&& 0 <= i < l.segments.len()
    &&& f.len() > 0
    &&& frame_len(f) == Some(f.len())
    &&& 0 <= position
    &&& position + f.len() <= s.log.len()
    &&& s.log.subrange(position, position + f.len()) == f
    &&& whole(s.log.take(position))
    &&& all_before(frames(s.log.take(position)), frame_base(f) as int)
    &&& s.base_offset <= frame_base(f) <= s.max_offset
    &&& l.log_start_offset <= frame_base(f) < l.high_watermark
    &&& forall|j: int|
        i < j < l.segments.len() ==> (#[trigger] l.segments[j]).base_offset > frame_base(f)
}

/// The log after a batch was appended, or as it was if the batch was refused.
pub open spec fn with_batch(l: LogView, b: BatchModel, now: i64) -> LogView {
    match log_append(l, b, now) {
        Ok((u, _, _)) => u,
        Err(_) => l,
    }
}

/// The log after batches were appended, each at its time.
pub open spec fn with_batches(l: LogView, bs: Seq<(BatchModel, i64)>) -> LogView
    decreases bs.len(),
{
    if bs.len() == 0 {
        l
    } else {
        with_batch(with_batches(l, bs.drop_last()), bs.last().0, bs.last().1)
    }
}

/// Appending keeps a log in order.
pub proof fn law_append_keeps_order(l: LogView, b: BatchModel, now: i64)
    requires
        log_wf(l),
    ensures
        log_wf(with_batch(l, b, now)),
        with_batch(l, b, now).high_watermark >= l.high_watermark,
{
    reveal(log_append);
    if log_append(l, b, now) is Ok {
        let t = rolled(l, now);
        let u = with_batch(l, b, now);
        let n = l.segments.len() - 1;
        assert forall|i: int| 0 <= i < u.segments.len() implies segment_wf(
            #[trigger] u.segments[i],
        ) by {
            if i <= n {
                assert(segment_wf(l.segments[i]));
            }
        }
    }
}

/// A batch that was appended is where a reader finds it.
pub proof fn law_appended_is_held(l: LogView, b: BatchModel, now: i64)
    requires
        log_sound(l),
        log_append(l, b, now) is Ok,
    ensures
        ({
            let t = rolled(l, now);
            held_at(
                with_batch(l, b, now),
                rebased_raw(b, l.high_watermark),
                t.segments.len() - 1,
                t.segments.last().log.len() as int,
            )
        }),
{
    reveal(log_append);
    let t = rolled(l, now);
    let a = t.segments.last();
    let raw = rebased_raw(b, l.high_watermark);
    lemma_rebased_follows(l, b, now);
    assert(sound(a));
    let u = with_batch(l, b, now);
    let n = a.log.len() as int;
    let s = u.segments.last();
    assert(s.log.subrange(n, n + raw.len()) =~= raw);
    assert(s.log.take(n) =~= a.log);
}

/// A batch stays where it is, whatever is appended behind it.
pub proof fn law_held_stays(
    l: LogView,
    f: Seq<u8>,
    i: int,
    position: int,
    b: BatchModel,
    now: i64,
)
    requires
        log_wf(l),
        held_at(l, f, i, position),
    ensures
        held_at(with_batch(l, b, now), f, i, position),
{
    reveal(log_append);
    law_append_keeps_order(l, b, now);
    if log_append(l, b, now) is Ok {
        let t = rolled(l, now);
        let u = with_batch(l, b, now);
        let s = l.segments[i];
        let v = u.segments[i];
        assert(s.log.is_prefix_of(v.log));
        assert(v.log.subrange(position, position + f.len()) =~= s.log.subrange(
            position,
            position + f.len(),
        ));
        assert(v.log.take(position) =~= s.log.take(position));
        assert forall|j: int| i < j < u.segments.len() implies (
        #[trigger] u.segments[j]).base_offset > frame_base(f) by {
            if j < l.segments.len() {
                assert(l.segments[j].base_offset > frame_base(f));
            }
        }
    }
}

proof fn lemma_segment_found(segments: Seq<SegmentView>, offset: i64, i: int)
    requires
        0 <= i < segments.len(),
        segments[i].base_offset <= offset,
        forall|j: int|
            i < j < segments.len() ==> (#[trigger] segments[j]).base_offset > offset,
    ensures
        segment_for(segments, offset) == i,
    decreases segments.len(),
{
    if i < segments.len() - 1 {
        let front = segments.drop_last();
        assert(segments[segments.len() - 1].base_offset > offset);
        assert(forall|j: int| 0 <= j < front.len() ==> #[trigger] front[j] == segments[j]);
        lemma_segment_found(front, offset, i);
    }
}

/// The segment that a reader is led to is the one that has the batch.
pub proof fn lemma_held_is_found(l: LogView, f: Seq<u8>, i: int, position: int)
    requires
        held_at(l, f, i, position),
    ensures
        segment_for(l.segments, frame_base(f)) == i,
{
    lemma_segment_found(l.segments, frame_base(f), i);
}

/// A reader who asks for the offset of a batch that is in the log gets that batch
/// first, if it fits.
pub proof fn law_held_is_read(l: LogView, f: Seq<u8>, i: int, position: int, max: int)
    requires
        held_at(l, f, i, position),
        f.len() <= max,
    ensures
        f.is_prefix_of(log_read(l, frame_base(f), max)),
{
    let s = l.segments[i];
    let start = frame_base(f);
    lemma_segment_found(l.segments, start, i);
    let front = s.log.take(position);
    let back = s.log.skip(position);
    let rest = s.log.skip(position + f.len());
    assert(s.log =~= front + back);
    assert(back =~= f + rest);
    law_first_batch(f, rest);
    lemma_frames_concat(front, back);
    lemma_passed_over(frames(front), frames(back), start);
    let fs = frames(back);
    assert(back.take(f.len() as int) =~= f);
    assert(fs[0] == f);
    assert(from_offset(fs, start) == fs);
    assert(fitting(fs, max) == f + fitting(fs.skip(1), max - f.len()));
    assert(f.is_prefix_of(f + fitting(fs.skip(1), max - f.len())));
}

/// Nothing that was appended is lost: whatever follows, a reader who asks for the
/// offset that a batch got is given that batch first, if it fits.
pub proof fn law_appended_stays_readable(
    l: LogView,
    b: BatchModel,
    now: i64,
    later: Seq<(BatchModel, i64)>,
    max: int,
)
    requires
        log_wf(l),
        log_sound(l),
        log_append(l, b, now) is Ok,
        rebased_raw(b, l.high_watermark).len() <= max,
    ensures
        rebased_raw(b, l.high_watermark).is_prefix_of(
            log_read(with_batches(with_batch(l, b, now), later), l.high_watermark, max),
        ),
{
    let raw = rebased_raw(b, l.high_watermark);
    let t = rolled(l, now);
    let i = t.segments.len() - 1;
    let position = t.segments.last().log.len() as int;
    law_appended_is_held(l, b, now);
    law_append_keeps_order(l, b, now);
    lemma_held_through(with_batch(l, b, now), raw, i, position, later);
    lemma_rebased_follows(l, b, now);
    law_held_is_read(with_batches(with_batch(l, b, now), later), raw, i, position, max);
}

proof fn lemma_held_through(
    l: LogView,
    f: Seq<u8>,
    i: int,
    position: int,
    bs: Seq<(BatchModel, i64)>,
)
    requires
        log_wf(l),
        held_at(l, f, i, position),
    ensures
        log_wf(with_batches(l, bs)),
        held_at(with_batches(l, bs), f, i, position),
    decreases bs.len(),
{
    if bs.len() > 0 {
        lemma_held_through(l, f, i, position, bs.drop_last());
        let u = with_batches(l, bs.drop_last());
        law_held_stays(u, f, i, position, bs.last().0, bs.last().1);
        law_append_keeps_order(u, bs.last().0, bs.last().1);
    }
}

/// What is in a log stays: a segment's log only grows at its end.
pub proof fn law_appends_overwrite_nothing(l: LogView, b: BatchModel, now: i64, i: int)
    requires
        l.segments.len() > 0,
        log_append(l, b, now) is Ok,
        0 <= i < l.segments.len(),
    ensures
        ({
            let u = log_append(l, b, now)->Ok_0.0;
            &&& u.segments.len() >= l.segments.len()
            &&& u.segments[i].base_offset == l.segments[i].base_offset
            &&& l.segments[i].log.is_prefix_of(u.segments[i].log)
            &&& u.log_start_offset == l.log_start_offset
        }),
{
    reveal(log_append);
}

/// The segment that is written to survives a cleanup, and with it the offset of
/// the next record.
pub proof fn law_cleanup_keeps_the_last(
    l: LogView,
    modified: Seq<i64>,
    config: Arc<BrokerConfig>,
    now: i64,
)
    requires
        l.segments.len() > 0,
    ensures
        after_cleanup(l, modified, config, now).segments.len() > 0,
        after_cleanup(l, modified, config, now).segments.last() == l.segments.last(),
        after_cleanup(l, modified, config, now).high_watermark == l.high_watermark,
{
    lemma_kept_last(l.segments, modified, config, total_size(l.segments), now);
}

proof fn lemma_kept_last(
    segments: Seq<SegmentView>,
    modified: Seq<i64>,
    config: Arc<BrokerConfig>,
    total: int,
    now: i64,
)
    requires
        segments.len() > 0,
    ensures
        0 < kept(segments, modified, config, total, now).len() <= segments.len(),
        kept(segments, modified, config, total, now).last() == segments.last(),
    decreases segments.len(),
{
    if segments.len() > 1 {
        lemma_kept_last(segments.skip(1), modified.skip(1), config, total, now);
    }
}

// ---------------------------------------------------------------------------

fn renumber(records: &Vec<Record>) -> (r: Vec<Record>)
    ensures
        r.model() == renumbered(records.model()),
{
    let mut out: Vec<Record> = Vec::new();
    let mut i: usize = 0;
    let ghost all = renumbered(records.model());
    while i < records.len()
        invariant
            i <= records@.len(),
            all == renumbered(records.model()),
            out.model() =~= all.take(i as int),
        decreases records@.len() - i,
    {
        let ghost before = out.model();
        let mut c = copy_record(&records[i]);
        c.offset_delta = i as i32;
        out.push(c);
        assert(out.model() =~= before.push(all[i as int]));
        i = i + 1;
    }
    assert(all.take(i as int) =~= all);
    out
}

/// The batch moved to an offset, if the sizes fit their fields.
pub fn rebase_batch(batch: &RecordBatch, new_base_offset: i64) -> (r: Option<RecordBatch>)
    ensures
        match r {
            Some(m) => {
                &&& batch_fits(
                    rebased(batch.model(), new_base_offset),
                    algorithm(batch.attributes),
                )
                &&& m.model() == rebased(batch.model(), new_base_offset)
                &&& bytes_view(m.raw) == rebased_raw(batch.model(), new_base_offset)
                &&& parsed(bytes_view(m.raw)) == Ok::<BatchModel, DecodeError>(m.model())
                &&& !unsettled(bytes_view(m.raw))
            },
            None => !batch_fits(
                rebased(batch.model(), new_base_offset),
                algorithm(batch.attributes),
            ),
        },
{
    let records = renumber(&batch.records);
    let compression = batch.compression();
    let raw = RecordBatch::try_serialize(
        new_base_offset,
        &records,
        compression,
        batch.base_timestamp,
        batch.producer_id,
        batch.producer_epoch,
        batch.base_sequence,
        batch.partition_leader_epoch,
    );
    match raw {
        Some(raw) => match RecordBatch::parse(raw) {
            Ok(m) => Some(m),
            Err(_) => None,
        },
        None => None,
    }
}

impl PartitionLog {
    /// Whether the segments are in order and know their sizes, and the high
    /// watermark is the offset after the last record.
    pub open spec fn wf(&self) -> bool {
        log_wf(self@)
    }

    /// The log that files hold, given in the order of their first offsets.
    pub fn open(
        topic: &str,
        partition: i32,
        files: &Vec<SegmentFiles>,
        config: Arc<BrokerConfig>,
        now: i64,
    ) -> (r: core::result::Result<Self, StorageError>)
        requires
            files_in_order(files.model()),
        ensures
            ({
                let l = opened_log(files.model(), limits_of(config), now);
                let max = l.segments.last().max_offset;
                match r {
                    Ok(log) => {
                        &&& log.wf()
                        &&& log@ == l
                        &&& log.topic@ == topic@
                        &&& log.partition == partition
                        &&& log.config == config
                        &&& max < i64::MAX
                        &&& forall|i: int|
                            0 <= i < files@.len() ==> (#[trigger] files@[i]).base_offset > i64::MIN
                    },
                    Err(e) => {
                        &&& e == StorageError::OffsetOverflow
                        &&& max == i64::MAX || exists|i: int|
                            0 <= i < files@.len() && (#[trigger] files@[i]).base_offset == i64::MIN
                    },
                }
            }),
    {
        let mut segments: Vec<LogSegment> = Vec::new();
        let ghost want = opened_segments(files.model(), limits_of(config), now);
        let mut i: usize = 0;
        while i < files.len()
            invariant
                i <= files@.len(),
                want == opened_segments(files.model(), limits_of(config), now),
                segments@.len() == i,
                files@.len() > 0 ==> views(segments@) =~= want.take(i as int),
                forall|j: int| 0 <= j < i ==> (#[trigger] segments@[j]).wf(),
                forall|j: int| 0 <= j < i ==> (#[trigger] files@[j]).base_offset > i64::MIN,
            decreases files@.len() - i,
        {
            let f = &files[i];
            if f.base_offset == i64::MIN {
                return Err(StorageError::OffsetOverflow);
            }
            let ghost before = views(segments@);
            let seg = LogSegment::open(
                f.base_offset,
                f.log.as_slice(),
                f.index.as_slice(),
                f.time_index.as_slice(),
                config.index_interval_bytes,
                config.log_segment_bytes,
                config.log_roll_ms,
                now,
            );
            segments.push(seg);
            proof {
                assert(files.model()[i as int] == f.model());
                assert(views(segments@) =~= before.push(want[i as int]));
            }
            i = i + 1;
        }
        if segments.len() == 0 {
            let none: Vec<u8> = Vec::new();
            let seg = LogSegment::open(
                0,
                none.as_slice(),
                none.as_slice(),
                none.as_slice(),
                config.index_interval_bytes,
                config.log_segment_bytes,
                config.log_roll_ms,
                now,
            );
            segments.push(seg);
            proof {
                assert(none@ =~= Seq::empty());
                assert(views(segments@) =~= want);
            }
        } else {
            assert(want.take(i as int) =~= want);
        }
        let n = segments.len();
        assert(views(segments@)[n - 1] == segments@[n - 1]@);
        assert(views(segments@)[0] == segments@[0]@);
        let max = segments[n - 1].max_offset;
        if max == i64::MAX {
            return Err(StorageError::OffsetOverflow);
        }
        let first = segments[0].base_offset;
        let log_start_offset: i64 = if first == i64::MAX { 0 } else { first };
        Ok(
            PartitionLog {
                topic: topic.to_string(),
                partition,
                segments,
                high_watermark: max + 1,
                log_start_offset,
                config,
            },
        )
    }

    /// Appends the batches in runs of bytes, each at the offset that is next.
    /// What is added to `writes` is to be written, in that order, even when an
    /// error ends the append early.
    pub fn append(&mut self, batches: &Vec<Bytes>, writes: &mut Vec<SegmentWrite>) -> (r:
        core::result::Result<Vec<AppendResult>, StorageError>)
        requires
            old(self).wf(),
        ensures
            final(self).wf(),
            exists|read: Seq<RunModel>, now: i64|
                all_read(batches.model(), read) && append_says(
                    #[trigger] append_all(
                        append_start(old(self)@, old(writes).model()),
                        read,
                        now,
                    ),
                    *final(self),
                    *final(writes),
                    r,
                ),
            final(self).topic == old(self).topic,
            final(self).partition == old(self).partition,
            final(self).config == old(self).config,
    {
        let now = clock::now_ms();
        self.append_at(batches, now, writes)
    }

    /// Appends the batches in runs of bytes at a given time.
    pub fn append_at(
        &mut self,
        batches: &Vec<Bytes>,
        now: i64,
        writes: &mut Vec<SegmentWrite>,
    ) -> (r: core::result::Result<Vec<AppendResult>, StorageError>)
        requires
            old(self).wf(),
        ensures
            final(self).wf(),
            exists|read: Seq<RunModel>|
                all_read(batches.model(), read) && append_says(
                    #[trigger] append_all(
                        append_start(old(self)@, old(writes).model()),
                        read,
                        now,
                    ),
                    *final(self),
                    *final(writes),
                    r,
                ),
            final(self).topic == old(self).topic,
            final(self).partition == old(self).partition,
            final(self).config == old(self).config,
    {
        let runs = read_runs(batches);
        self.append_read(&runs, now, writes)
    }

    /// Appends what was read of runs at a given time.
    pub fn append_read(
        &mut self,
        runs: &Vec<BatchRun>,
        now: i64,
        writes: &mut Vec<SegmentWrite>,
    ) -> (r: core::result::Result<Vec<AppendResult>, StorageError>)
        requires
            old(self).wf(),
        ensures
            final(self).wf(),
            append_says(
                append_all(
                    append_start(old(self)@, old(writes).model()),
                    runs.model(),
                    now,
                ),
                *final(self),
                *final(writes),
                r,
            ),
            final(self).topic == old(self).topic,
            final(self).partition == old(self).partition,
            final(self).config == old(self).config,
    {
        let mut results: Vec<AppendResult> = Vec::new();
        let ghost read = runs.model();
        let ghost last = append_all(append_start(self@, writes.model()), read, now);
        let mut i: usize = 0;
        assert(read.skip(0) =~= read);
        assert(results@ =~= Seq::empty());
        while i < runs.len()
            invariant
                i <= runs@.len(),
                read == runs.model(),
                self.wf(),
                self.topic == old(self).topic,
                self.partition == old(self).partition,
                self.config == old(self).config,
                last == append_all(
                    AppendState {
                        log: self@,
                        results: results@,
                        writes: writes.model(),
                        err: None,
                    },
                    read.skip(i as int),
                    now,
                ),
                last == append_all(
                    append_start(old(self)@, old(writes).model()),
                    read,
                    now,
                ),
            decreases runs@.len() - i,
        {
            assert(read.skip(i as int)[0] == read[i as int]);
            assert(read.skip(i as int).skip(1) =~= read.skip(i as int + 1));
            match self.append_one_run(&runs[i], now, &mut results, writes) {
                Ok(()) => {},
                Err(e) => {
                    proof {
                        reveal_with_fuel(append_all, 2);
                    }
                    return Err(e);
                },
            }
            i = i + 1;
        }
        Ok(results)
    }

    fn append_one_run(
        &mut self,
        run: &BatchRun,
        now: i64,
        results: &mut Vec<AppendResult>,
        writes: &mut Vec<SegmentWrite>,
    ) -> (r: core::result::Result<(), StorageError>)
        requires
            old(self).wf(),
        ensures
            final(self).wf(),
            final(self).topic == old(self).topic,
            final(self).partition == old(self).partition,
            final(self).config == old(self).config,
            ({
                let st = append_run(
                    AppendState {
                        log: old(self)@,
                        results: old(results)@,
                        writes: old(writes).model(),
                        err: None,
                    },
                    run.model(),
                    now,
                );
                &&& final(self)@ == st.log
                &&& final(results)@ == st.results
                &&& final(writes).model() == st.writes
                &&& match r {
                    Ok(()) => st.err is None,
                    Err(e) => st.err == Some(e),
                }
            }),
    {
        let ghost bs = run.batches.model();
        let ghost last = append_batches(
            AppendState {
                log: self@,
                results: results@,
                writes: writes.model(),
                err: None,
            },
            bs,
            now,
        );
        let mut i: usize = 0;
        assert(bs.skip(0) =~= bs);
        while i < run.batches.len()
            invariant
                i <= run.batches@.len(),
                bs == run.batches.model(),
                self.wf(),
                self.topic == old(self).topic,
                self.partition == old(self).partition,
                self.config == old(self).config,
                last == append_batches(
                    AppendState {
                        log: self@,
                        results: results@,
                        writes: writes.model(),
                        err: None,
                    },
                    bs.skip(i as int),
                    now,
                ),
                last == append_batches(
                    AppendState {
                        log: old(self)@,
                        results: old(results)@,
                        writes: old(writes).model(),
                        err: None,
                    },
                    bs,
                    now,
                ),
            decreases run.batches@.len() - i,
        {
            assert(bs.skip(i as int)[0] == bs[i as int]);
            assert(bs.skip(i as int).skip(1) =~= bs.skip(i as int + 1));
            match self.append_batch(&run.batches[i], now) {
                Ok((result, write)) => {
                    let ghost before = writes.model();
                    results.push(result);
                    writes.push(write);
                    assert(writes.model() =~= before.push(write.model()));
                },
                Err(e) => {
                    proof {
                        reveal_with_fuel(append_batches, 2);
                    }
                    return Err(e);
                },
            }
            i = i + 1;
        }
        match run.err {
            Some(e) => Err(StorageError::Decode(e)),
            None => Ok(()),
        }
    }

    /// Appends a batch at the offset that is next.
    #[verifier::spinoff_prover]
    #[verifier::rlimit(40)]
    pub fn append_batch(&mut self, batch: &RecordBatch, now: i64) -> (r: core::result::Result<
        (AppendResult, SegmentWrite),
        StorageError,
    >)
        requires
            old(self).wf(),
        ensures
            final(self).wf(),
            final(self).topic == old(self).topic,
            final(self).partition == old(self).partition,
            final(self).config == old(self).config,
            match r {
                Ok((result, write)) => {
                    &&& log_append(old(self)@, batch.model(), now) == Ok::<Appended, StorageError>(
                        (final(self)@, result, write.model()),
                    )
                    &&& parsed(bytes_view(write.log)) == Ok::<BatchModel, DecodeError>(
                        rebased(batch.model(), old(self).high_watermark),
                    )
                    &&& !unsettled(bytes_view(write.log))
                },
                Err(e) => {
                    &&& log_append(old(self)@, batch.model(), now) == Err::<
                        Appended,
                        StorageError,
                    >(e)
                    &&& final(self)@ == old(self)@
                },
            },
    {
        proof {
            reveal(log_append);
        }
        let offset = self.high_watermark;
        let rebased_batch = match rebase_batch(batch, offset) {
            Some(b) => b,
            None => {
                return Err(StorageError::TooLarge);
            },
        };
        let last: i128 = offset as i128 + rebased_batch.last_offset_delta as i128;
        if last >= i64::MAX as i128 {
            return Err(StorageError::OffsetOverflow);
        }
        let ghost l = self@;
        let ghost m = rebased(batch.model(), offset);
        let ghost raw = rebased_raw(batch.model(), offset);
        proof {
            let data = compressed(algorithm(batch.attributes), enc_records(m.records));
            lemma_batch_frame(m, data);
            assert(l.segments.last() == self.segments@.last()@);
        }
        self.roll(now);
        let mut active = match self.segments.pop() {
            Some(s) => s,
            None => {
                return Err(StorageError::Closed);
            },
        };
        let ghost t = rolled(l, now);
        let ghost front = views(self.segments@);
        assert(active@ == t.segments.last());
        assert(front =~= t.segments.drop_last());
        let r = active.append(&rebased_batch, now);
        self.high_watermark = active.max_offset + 1;
        self.segments.push(active);
        proof {
            assert(views(self.segments@) =~= front.push(active@));
            if r is Ok {
                assert(views(self.segments@) =~= t.segments.update(
                    t.segments.len() - 1,
                    appended(t.segments.last(), m, raw),
                ));
            } else {
                assert(!rolls(l, now));
                assert(views(self.segments@) =~= l.segments);
            }
        }
        r
    }

    /// Makes the last segment make way if it has to.
    fn roll(&mut self, now: i64)
        requires
            old(self).wf(),
        ensures
            final(self).wf(),
            final(self)@ == rolled(old(self)@, now),
            final(self).topic == old(self).topic,
            final(self).partition == old(self).partition,
            final(self).config == old(self).config,
    {
        let n = self.segments.len() - 1;
        let offset = self.high_watermark;
        let ghost l = self@;
        assert(l.segments.last() == self.segments@[n as int]@);
        if self.segments[n].closed || !self.segments[n].should_roll(now) || offset
            <= self.segments[n].base_offset {
            return;
        }
        let mut active = match self.segments.pop() {
            Some(s) => s,
            None => {
                return;
            },
        };
        let ghost front = views(self.segments@);
        assert(front =~= l.segments.drop_last());
        active.close();
        self.segments.push(active);
        assert(views(self.segments@) =~= l.segments.update(n as int, active@));
        let none: Vec<u8> = Vec::new();
        let fresh = LogSegment::open(
            offset,
            none.as_slice(),
            none.as_slice(),
            none.as_slice(),
            self.config.index_interval_bytes,
            self.config.log_segment_bytes,
            self.config.log_roll_ms,
            now,
        );
        assert(none@ =~= Seq::empty());
        self.segments.push(fresh);
        assert(views(self.segments@) =~= rolled(l, now).segments);
    }

    /// The place of the last segment that begins at an offset or before.
    fn find_segment(&self, offset: i64) -> (r: Option<usize>)
        ensures
            match r {
                Some(k) => k < self.segments@.len() && segment_for(
                    views(self.segments@),
                    offset,
                ) == k,
                None => segment_for(views(self.segments@), offset) == -1,
            },
    {
        let ghost all = views(self.segments@);
        let mut i: usize = self.segments.len();
        assert(all.take(i as int) =~= all);
        while i > 0
            invariant
                i <= self.segments@.len(),
                all == views(self.segments@),
                segment_for(all, offset) == segment_for(all.take(i as int), offset),
            decreases i,
        {
            assert(all.take(i as int).last() == self.segments@[i - 1]@);
            assert(all.take(i as int).drop_last() =~= all.take(i - 1));
            if self.segments[i - 1].base_offset <= offset {
                return Some(i - 1);
            }
            i = i - 1;
        }
        None
    }

    /// Where to begin to read for an offset: the first offset of a segment and a
    /// position in its log; nowhere if there is nothing to read.
    pub fn read_position(&self, start_offset: i64) -> (r: Option<(i64, u64)>)
        ensures
            ({
                let k = segment_for(self@.segments, start_offset);
                match r {
                    Some((base, p)) => {
                        &&& start_offset >= self.log_start_offset
                        &&& 0 <= k < self.segments@.len()
                        &&& start_offset <= self@.segments[k].max_offset
                        &&& base == self@.segments[k].base_offset
                        &&& indexed_at(self@.segments[k], start_offset, p)
                        &&& sound(self@.segments[k]) && indexable(self@.segments[k]) ==> {
                            &&& p <= self@.segments[k].log.len()
                            &&& forall|max: int| #[trigger]
                                selected(
                                    self@.segments[k].log.skip(p as int),
                                    start_offset,
                                    max,
                                ) == log_read(self@, start_offset, max)
                        }
                    },
                    None => start_offset < self.log_start_offset || k < 0 || start_offset
                        > self@.segments[k].max_offset,
                }
            }),
    {
        if start_offset < self.log_start_offset {
            return None;
        }
        match self.find_segment(start_offset) {
            Some(k) => {
                let seg = &self.segments[k];
                assert(self@.segments[k as int] == seg@);
                proof {
                    lemma_segment_for(self@.segments, start_offset);
                }
                match seg.read_position(start_offset) {
                    Some(p) => {
                        proof {
                            if sound(seg@) && indexable(seg@) {
                                assert forall|max: int| #[trigger]
                                    selected(seg@.log.skip(p as int), start_offset, max)
                                        == log_read(self@, start_offset, max) by {
                                    assert(selected(
                                        seg.log@.skip(p as int),
                                        start_offset,
                                        max,
                                    ) == segment_read(seg@, start_offset, max));
                                }
                            }
                        }
                        Some((seg.base_offset, p))
                    },
                    None => None,
                }
            },
            None => None,
        }
    }

    /// The batches from an offset on, at most `max_bytes` of them, out of the
    /// log of the segment from the position on that
    /// [`PartitionLog::read_position`] gave.
    pub fn read(&self, start_offset: i64, max_bytes: usize, tail: &[u8]) -> (r: Bytes)
        ensures
            ({
                let k = segment_for(self@.segments, start_offset);
                bytes_view(r) == if start_offset < self.log_start_offset || k < 0 || start_offset
                    > self@.segments[k].max_offset {
                    Seq::empty()
                } else {
                    selected(tail@, start_offset, max_bytes as int)
                }
            }),
    {
        if start_offset < self.log_start_offset {
            return buf::bytes_new();
        }
        match self.find_segment(start_offset) {
            Some(k) => {
                assert(self@.segments[k as int] == self.segments@[k as int]@);
                self.segments[k].read(start_offset, max_bytes, tail)
            },
            None => buf::bytes_new(),
        }
    }

    /// The offset after the last record.
    pub fn next_offset(&self) -> (r: i64)
        ensures
            r == self@.high_watermark,
    {
        self.high_watermark
    }

    /// The offset after the last record.
    pub fn leo(&self) -> (r: i64)
        ensures
            r == self@.high_watermark,
    {
        self.high_watermark
    }

    /// The oldest offset that can be read.
    pub fn log_start(&self) -> (r: i64)
        ensures
            r == self@.log_start_offset,
    {
        self.log_start_offset
    }

    /// The offset after the last record, and the oldest one.
    pub fn bounds(&self) -> (r: (i64, i64))
        ensures
            r == (self@.high_watermark, self@.log_start_offset),
    {
        (self.high_watermark, self.log_start_offset)
    }

    /// The offset after the last record that a consumer sees.
    pub fn high_watermark(&self) -> (r: i64)
        ensures
            r == self@.high_watermark,
    {
        self.high_watermark
    }

    /// Notes that the logs of all segments are on disk.
    pub fn flush(&mut self)
        requires
            old(self).wf(),
        ensures
            final(self).wf(),
            final(self)@ == (LogView {
                segments: Seq::new(
                    old(self)@.segments.len(),
                    |i: int|
                        SegmentView {
                            flushed: old(self)@.segments[i].log.len() as u64,
                            ..old(self)@.segments[i]
                        },
                ),
                ..old(self)@
            }),
            final(self).topic == old(self).topic,
            final(self).partition == old(self).partition,
            final(self).config == old(self).config,
    {
        let mut i: usize = 0;
        let ghost want = Seq::new(
            old(self)@.segments.len(),
            |i: int|
                SegmentView {
                    flushed: old(self)@.segments[i].log.len() as u64,
                    ..old(self)@.segments[i]
                },
        );
        let n = self.segments.len();
        assert forall|j: int| 0 <= j < n implies (#[trigger] self.segments@[j]).wf() by {
            assert(segment_wf(self@.segments[j]));
        }
        while i < n
            invariant
                i <= n,
                n == self.segments@.len(),
                n == old(self).segments@.len(),
                n > 0,
                want == Seq::new(
                    old(self)@.segments.len(),
                    |i: int|
                        SegmentView {
                            flushed: old(self)@.segments[i].log.len() as u64,
                            ..old(self)@.segments[i]
                        },
                ),
                forall|j: int| 0 <= j < n ==> (#[trigger] self.segments@[j]).wf(),
                forall|j: int| 0 <= j < i ==> (#[trigger] self.segments@[j])@ == want[j],
                forall|j: int|
                    i <= j < n ==> #[trigger] self.segments@[j] == old(self).segments@[j],
                self.topic == old(self).topic,
                self.partition == old(self).partition,
                self.config == old(self).config,
                self.high_watermark == old(self).high_watermark,
                self.log_start_offset == old(self).log_start_offset,
            decreases n - i,
        {
            let seg = &mut self.segments[i];
            seg.flush_log();
            i = i + 1;
        }
        assert(views(self.segments@) =~= want);
        assert(self.segments@[n - 1]@ == want[n - 1]);
    }

    /// Gives up the segments that have come to the end of their time, or all
    /// but the last if the log is too large. `modified` says when each segment's
    /// log was last modified. What is returned are the first offsets of the
    /// segments whose files are to be deleted.
    pub fn cleanup_retention(&mut self, modified: &Vec<i64>, now: i64) -> (r: Vec<i64>)
        requires
            old(self).wf(),
            modified@.len() == old(self).segments@.len(),
        ensures
            final(self).wf(),
            final(self)@ == after_cleanup(old(self)@, modified@, old(self).config, now),
            r@ == bases_given_up(old(self)@, modified@, old(self).config, now),
            final(self).topic == old(self).topic,
            final(self).partition == old(self).partition,
            final(self).config == old(self).config,
    {
        let mut out: Vec<i64> = Vec::new();
        let delete = "delete".to_string();
        if self.config.cleanup_policy != delete {
            assert(out@ =~= Seq::empty());
            return out;
        }
        let total = self.total_bytes();
        let hours = self.config.log_retention_hours;
        let bytes = self.config.log_retention_bytes;
        let oversize = bytes >= 0 && total > bytes as u128;
        let mut i: usize = 0;
        let mut j: usize = 0;
        let n = self.segments.len();
        let ghost segs = old(self)@.segments;
        let ghost config = old(self).config;
        let ghost mut before: Seq<SegmentView> = Seq::empty();
        assert(segs.skip(0) =~= segs);
        assert(modified@.skip(0) =~= modified@);
        assert(before + kept(segs, modified@, config, total as int, now) =~= kept(
            segs,
            modified@,
            config,
            total as int,
            now,
        ));
        assert(out@ + given_up_bases(segs, modified@, config, total as int, now) =~= given_up_bases(
            segs,
            modified@,
            config,
            total as int,
            now,
        ));
        assert(before + segs =~= segs);
        assert(self@.segments =~= segs);
        while i + 1 < n
            invariant
                j <= i < n,
                n == modified@.len(),
                n == segs.len(),
                segs == old(self)@.segments,
                config == old(self).config,
                config == self.config,
                hours == config.log_retention_hours,
                bytes == config.log_retention_bytes,
                total == total_size(segs),
                oversize == (bytes >= 0 && total > bytes),
                before.len() == j,
                self@.segments == before + segs.skip(i as int),
                kept(segs, modified@, config, total as int, now) == before + kept(
                    segs.skip(i as int),
                    modified@.skip(i as int),
                    config,
                    total as int,
                    now,
                ),
                given_up_bases(segs, modified@, config, total as int, now) == out@
                    + given_up_bases(
                    segs.skip(i as int),
                    modified@.skip(i as int),
                    config,
                    total as int,
                    now,
                ),
                self.wf(),
                self.topic == old(self).topic,
                self.partition == old(self).partition,
                self.config == old(self).config,
                self.high_watermark == old(self).high_watermark,
                j < i ==> self.log_start_offset == self@.segments[0].base_offset,
                j == i ==> self.log_start_offset == old(self).log_start_offset && before
                    == segs.take(i as int),
            decreases n - i,
        {
            let ghost rest = segs.skip(i as int);
            assert(self@.segments.len() == j + (n - i));
            assert(self@.segments[j as int] == segs[i as int]);
            assert(self.segments@[j as int]@ == self@.segments[j as int]);
            assert(self@.segments.last() == segs.last());
            assert(self.segments@.last()@ == self@.segments.last());
            proof {
                assert(rest[0] == segs[i as int]);
                assert(rest.skip(1) =~= segs.skip(i as int + 1));
                assert(modified@.skip(i as int)[0] == modified@[i as int]);
                assert(modified@.skip(i as int).skip(1) =~= modified@.skip(i as int + 1));
            }
            let expired = self.segments[j].is_expired(modified[i], now, hours);
            if expired || oversize {
                let ghost old_segments = self.segments@;
                let gone = self.segments.remove(j);
                out.push(gone.base_offset);
                proof {
                    assert(views(self.segments@) =~= views(old_segments).remove(j as int));
                    assert(self@.segments =~= before + segs.skip(i as int + 1));
                    assert(self.segments@.last() == old_segments.last());
                    assert(self.segments@[0]@ == self@.segments[0]);
                }
                self.log_start_offset = self.segments[0].base_offset;
                assert(out@ + given_up_bases(
                    segs.skip(i as int + 1),
                    modified@.skip(i as int + 1),
                    config,
                    total as int,
                    now,
                ) =~= given_up_bases(segs, modified@, config, total as int, now));
            } else {
                proof {
                    let k = kept(
                        segs.skip(i as int + 1),
                        modified@.skip(i as int + 1),
                        config,
                        total as int,
                        now,
                    );
                    assert(before + (seq![segs[i as int]] + k) =~= before.push(segs[i as int])
                        + k);
                    assert(before + rest =~= before.push(segs[i as int]) + segs.skip(
                        i as int + 1,
                    ));
                    assert(self@.segments[0] == before.push(segs[i as int])[0]);
                    before = before.push(segs[i as int]);
                    if j == i {
                        assert(before =~= segs.take(i as int + 1));
                    }
                }
                j = j + 1;
            }
            i = i + 1;
        }
        proof {
            let last = segs.skip(i as int);
            assert(last.len() == 1);
            assert(self@.segments == kept(segs, modified@, config, total as int, now));
            assert(out@ + Seq::<i64>::empty() =~= out@);
        }
        out
    }

    /// The bytes in all segments.
    fn total_bytes(&self) -> (r: u128)
        requires
            self.wf(),
        ensures
            r == total_size(self@.segments),
    {
        let mut total: u128 = 0;
        let mut i: usize = 0;
        let n = self.segments.len();
        let ghost all = self@.segments;
        while i < n
            invariant
                self.wf(),
                n == self.segments@.len(),
                i <= n,
                all == self@.segments,
                total == total_size(all.take(i as int)),
                total <= i * u64::MAX,
            decreases n - i,
        {
            proof {
                assert(all.take(i as int + 1).drop_last() =~= all.take(i as int));
                assert(all.take(i as int + 1).last() == self.segments@[i as int]@);
                assert(self.segments@[i as int].wf());
                assert(i * u64::MAX + u64::MAX == (i + 1) * u64::MAX) by (nonlinear_arith);
                assert((i + 1) * u64::MAX <= 0xffff_ffff_ffff_ffff * u64::MAX) by (nonlinear_arith)
                    requires
                        i + 1 <= 0xffff_ffff_ffff_ffff,
                ;
            }
            total = total + self.segments[i].size_in_bytes as u128;
            i = i + 1;
        }
        assert(all.take(i as int) =~= all);
        total
    }

    /// The number of segments.
    pub fn segment_count(&self) -> (r: usize)
        ensures
            r == self@.segments.len(),
    {
        self.segments.len()
    }
}

/// What an append returns and leaves behind, held against what it should.
pub open spec fn append_says(
    st: AppendState,
    log: PartitionLog,
    writes: Vec<SegmentWrite>,
    r: core::result::Result<Vec<AppendResult>, StorageError>,
) -> bool {
    &&& log@ == st.log
    &&& writes.model() == st.writes
    &&& match r {
        Ok(v) => st.err is None && v@ == st.results,
        Err(e) => st.err == Some(e),
    }
}

/// The first offsets of those of the segments that are given up.
pub open spec fn given_up_bases(
    segments: Seq<SegmentView>,
    modified: Seq<i64>,
    config: Arc<BrokerConfig>,
    total: int,
    now: i64,
) -> Seq<i64>
    decreases segments.len(),
{
    if segments.len() <= 1 {
        Seq::empty()
    } else {
        let rest = given_up_bases(segments.skip(1), modified.skip(1), config, total, now);
        if given_up(config, total, modified[0], now) {
            seq![segments[0].base_offset] + rest
        } else {
            rest
        }
    }
}

/// The first offsets of the segments that a cleanup gives up.
pub open spec fn bases_given_up(
    l: LogView,
    modified: Seq<i64>,
    config: Arc<BrokerConfig>,
    now: i64,
) -> Seq<i64> {
    if config.cleanup_policy@ != "delete"@ {
        Seq::empty()
    } else {
        given_up_bases(l.segments, modified, config, total_size(l.segments), now)
    }
}

proof fn lemma_segment_for(segments: Seq<SegmentView>, offset: i64)
    ensures
        -1 <= segment_for(segments, offset) < segments.len(),
        segment_for(segments, offset) >= 0 ==> segments[segment_for(
            segments,
            offset,
        )].base_offset <= offset,
    decreases segments.len(),
{
    if segments.len() > 0 && segments.last().base_offset > offset {
        lemma_segment_for(segments.drop_last(), offset);
    }
}

} // verus!
