//! What holds of a partition's log, whatever is done to it.

use std::sync::Arc;

use vstd::prelude::*;

use crate::config::BrokerConfig;
use crate::protocol::compression::{
    compressed, decompressed, snappy_fits, unsettled_data, Compression,
};
use crate::protocol::laws::law_layout_of_a_batch;
use crate::protocol::primitive::DecodeError;
use crate::protocol::recordbatch::{
    algorithm, batch_fits, enc_batch, enc_records, frame_len, latest, lemma_batch_round_trip,
    parsed, unsettled, BatchModel, RecordModel,
};
use crate::protocol::run::{joined, RunModel};
use crate::protocol::wire::lemma_int_round_trip;
use crate::storage::compaction::{
    compacted, is_latest, keyless, latest_of_keys, law_latest_survives, records_in_order,
    records_of, without_key,
};
use crate::storage::index::{
    offset_after, offsets_sorted, position_before, splits_at, splits_times_at, times_sorted,
    OffsetIndexEntry, TimeIndexEntry,
};
use crate::storage::log::{
    after_cleanup, append_all, append_batches, append_run, append_step, ascending, base_of_name,
    bases_given_up, files_in_order, given_up_bases, kept, law_read_gives_back_append,
    lemma_rebased_follows, limits_of, log_append, log_read, log_sound, log_wf, opened_log, rebased,
    rebased_raw, rolled, segment_for, total_size, AppendState, FilesModel, Limits, LogView,
};
use crate::storage::scan::{
    fitting, frame_base, frame_last, frames, from_offset, last_offset_in, selected, whole,
};
use crate::storage::segment::{appended, opened, written, SegmentView, StorageError};
use crate::text;

verus! {

// ---------------------------------------------------------------------------
// What is stored

/// Whether decompressing gives back what an algorithm compressed, on all that the
/// algorithm takes.
pub open spec fn gives_back(c: Compression) -> bool {
    forall|d: Seq<u8>|
        (c == Compression::Snappy ==> snappy_fits(d.len())) ==> decompressed(
            c,
            #[trigger] compressed(c, d),
        ) == Some(d) && !unsettled_data(c, compressed(c, d))
}

/// Whether a batch holds the records of another, under an offset of its own: each
/// has the attributes, the time, the key, the value and the headers that it had,
/// and is counted from zero.
pub open spec fn same_records(stored: BatchModel, b: BatchModel) -> bool {
    &&& stored.records.len() == b.records.len()
    &&& forall|i: int|
        0 <= i < b.records.len() ==> {
            &&& (#[trigger] stored.records[i]).attributes == b.records[i].attributes
            &&& stored.records[i].timestamp_delta == b.records[i].timestamp_delta
            &&& stored.records[i].offset_delta == i
            &&& stored.records[i].key == b.records[i].key
            &&& stored.records[i].value == b.records[i].value
            &&& stored.records[i].headers == b.records[i].headers
        }
}

/// A batch with new offsets reads back as itself.
pub proof fn lemma_stored(b: BatchModel, offset: i64)
    requires
        batch_fits(rebased(b, offset), algorithm(b.attributes)),
        algorithm(b.attributes) == Compression::Plain || gives_back(algorithm(b.attributes)),
    ensures
        parsed(rebased_raw(b, offset)) == Ok::<BatchModel, DecodeError>(rebased(b, offset)),
        !unsettled(rebased_raw(b, offset)),
        same_records(rebased(b, offset), b),
        rebased(b, offset).base_offset == offset,
        rebased(b, offset).base_timestamp == b.base_timestamp,
        rebased(b, offset).producer_id == b.producer_id,
        rebased(b, offset).producer_epoch == b.producer_epoch,
        rebased(b, offset).base_sequence == b.base_sequence,
        rebased(b, offset).partition_leader_epoch == b.partition_leader_epoch,
        b.records.len() > 0 ==> rebased(b, offset).last_offset_delta == b.records.len() - 1,
{
    let c = algorithm(b.attributes);
    let m = rebased(b, offset);
    let plain = enc_records(m.records);
    assert(decompressed(c, compressed(c, plain)) == Some(plain));
    lemma_batch_round_trip(m, c, compressed(c, plain));
}

/// What is appended is stored with its records intact: the batch that is read back
/// from the offset that it got has as many records, each with the attributes, the
/// time, the key, the value and the headers that it was brought with. Nor does the
/// batch change in what it says of its producer and its time.
pub proof fn law_stored_records_are_intact(l: LogView, b: BatchModel, now: i64, max: int)
    requires
        log_sound(l),
        log_append(l, b, now) is Ok,
        log_append(l, b, now)->Ok_0.2.log.len() <= max,
        algorithm(b.attributes) == Compression::Plain || gives_back(algorithm(b.attributes)),
    ensures
        ({
            let (u, r, w) = log_append(l, b, now)->Ok_0;
            let read = log_read(u, r.base_offset, max);
            &&& read == w.log
            &&& parsed(read) matches Ok(m) && {
                &&& m.base_offset == r.base_offset
                &&& m.records.len() == b.records.len()
                &&& forall|i: int|
                    0 <= i < b.records.len() ==> {
                        &&& (#[trigger] m.records[i]).attributes == b.records[i].attributes
                        &&& m.records[i].timestamp_delta == b.records[i].timestamp_delta
                        &&& m.records[i].offset_delta == i
                        &&& m.records[i].key == b.records[i].key
                        &&& m.records[i].value == b.records[i].value
                        &&& m.records[i].headers == b.records[i].headers
                    }
                &&& m.base_timestamp == b.base_timestamp
                &&& m.producer_id == b.producer_id
                &&& m.producer_epoch == b.producer_epoch
                &&& m.base_sequence == b.base_sequence
                &&& m.partition_leader_epoch == b.partition_leader_epoch
                &&& b.records.len() > 0 ==> m.last_offset_delta == b.records.len() - 1
            }
            &&& !unsettled(read)
        }),
{
    reveal(log_append);
    lemma_rebased_follows(l, b, now);
    lemma_stored(b, l.high_watermark);
    law_read_gives_back_append(l, b, now, max);
}

/// The latest time that a batch gives is that of one of its records or its own,
/// and none of them is later.
pub proof fn law_latest_time(base: i64, rs: Seq<RecordModel>)
    ensures
        latest(base, rs) >= base,
        forall|i: int|
            0 <= i < rs.len() ==> base.wrapping_add((#[trigger] rs[i]).timestamp_delta) <= latest(
                base,
                rs,
            ),
        latest(base, rs) == base || exists|i: int|
            0 <= i < rs.len() && base.wrapping_add((#[trigger] rs[i]).timestamp_delta) == latest(
                base,
                rs,
            ),
    decreases rs.len(),
{
    if rs.len() > 0 {
        let front = rs.drop_last();
        law_latest_time(base, front);
        assert(rs[rs.len() - 1] == rs.last());
        assert forall|i: int| 0 <= i < rs.len() implies base.wrapping_add(
            (#[trigger] rs[i]).timestamp_delta,
        ) <= latest(base, rs) by {
            if i < front.len() {
                assert(front[i] == rs[i]);
            }
        }
        if latest(base, rs) == latest(base, front) && latest(base, front) != base {
            let i = choose|i: int|
                0 <= i < front.len() && base.wrapping_add((#[trigger] front[i]).timestamp_delta)
                    == latest(base, front);
            assert(rs[i] == front[i]);
        }
    }
}

/// When an append is refused, and why: the batch or the segment would grow beyond
/// its fields, the offsets are used up, or the segment takes no more. Nothing else
/// is refused.
pub proof fn law_when_an_append_is_refused(l: LogView, b: BatchModel, now: i64)
    requires
        log_wf(l),
        batch_fits(rebased(b, l.high_watermark), algorithm(b.attributes)),
    ensures
        l.high_watermark + b.records.len() < i64::MAX && !l.segments.last().closed
            && l.segments.last().log.len() + rebased_raw(b, l.high_watermark).len() <= u64::MAX
            ==> log_append(l, b, now) is Ok,
        l.segments.last().closed ==> log_append(l, b, now) is Err,
        log_append(l, b, now) matches Err(e) ==> e == StorageError::OffsetOverflow || e
            == StorageError::Closed || e == StorageError::TooLarge,
        b.records.len() > 0 && l.high_watermark + b.records.len() - 1 >= i64::MAX ==> log_append(
            l,
            b,
            now,
        ) is Err,
{
    reveal(log_append);
}

/// Batches that cannot be written so that they are read back are refused.
pub proof fn law_unreadable_is_refused(l: LogView, b: BatchModel, now: i64)
    requires
        !batch_fits(rebased(b, l.high_watermark), algorithm(b.attributes)),
    ensures
        log_append(l, b, now) matches Err(e) && e == StorageError::TooLarge,
{
    reveal(log_append);
}

/// A segment that has come to its limit of size or of age makes way: the batch
/// goes to a new one, which begins with it, and the old one takes no more. A
/// segment that has not, or that holds nothing yet, takes the batch.
pub proof fn law_when_a_segment_makes_way(l: LogView, b: BatchModel, now: i64)
    requires
        log_wf(l),
        l.segments.last().log_segment_bytes >= 0,
        log_append(l, b, now) is Ok,
    ensures
        ({
            let (u, r, w) = log_append(l, b, now)->Ok_0;
            let a = l.segments.last();
            let n = l.segments.len();
            let full = a.log.len() >= a.log_segment_bytes || now - a.created_ms >= a.log_roll_ms;
            if full && !a.closed && l.high_watermark > a.base_offset {
                &&& u.segments.len() == n + 1
                &&& u.segments[n - 1] == (SegmentView { closed: true, ..a })
                &&& u.segments[n as int].base_offset == l.high_watermark
                &&& u.segments[n as int].log == w.log
                &&& u.segments[n as int].created_ms == now
                &&& !u.segments[n as int].closed
                &&& w.segment == l.high_watermark
                &&& w.entries is Some
            } else {
                &&& u.segments.len() == n
                &&& u.segments[n - 1].log == a.log + w.log
                &&& u.segments[n - 1].created_ms == a.created_ms
                &&& !u.segments[n - 1].closed
                &&& w.segment == a.base_offset
            }
        }),
        ({
            let (u, r, w) = log_append(l, b, now)->Ok_0;
            &&& forall|i: int|
                0 <= i < l.segments.len() - 1 ==> #[trigger] u.segments[i] == l.segments[i]
            &&& r.base_offset == l.high_watermark
            &&& r.log_append_time_ms == now
            &&& r.log_start_offset == u.segments.last().base_offset
            &&& u.limits == l.limits
        }),
{
    reveal(log_append);
}

/// A new segment has the limits of its log, and nothing in it but what is
/// appended.
pub proof fn law_new_segment_has_the_limits(l: LogView, now: i64)
    requires
        l.segments.len() > 0,
    ensures
        rolled(l, now).segments.len() > l.segments.len() ==> {
            let s = rolled(l, now).segments.last();
            &&& s.log_segment_bytes == l.limits.log_segment_bytes
            &&& s.log_roll_ms == l.limits.log_roll_ms
            &&& s.index_interval_bytes == l.limits.index_interval_bytes
            &&& s.log.len() == 0
            &&& s.max_offset == s.base_offset - 1
        },
{
}

/// What an append does to a segment: the bytes go behind what it holds, its last
/// offset does not fall, and its first time stays. A batch is indexed if none is,
/// or as many bytes as the interval says came since the last that was.
pub proof fn law_segment_takes_a_batch(s: SegmentView, b: BatchModel, raw: Seq<u8>)
    requires
        s.index_interval_bytes >= 0,
        raw.len() <= u32::MAX,
        s.size_in_bytes == s.log.len(),
        s.log.len() + raw.len() <= u64::MAX,
        i64::MIN <= b.base_offset + b.last_offset_delta <= i64::MAX,
    ensures
        ({
            let t = appended(s, b, raw);
            let w = written(s, b, raw);
            let due = s.index.len() == 0 || s.bytes_since_last_index + raw.len()
                >= s.index_interval_bytes;
            &&& t.log == s.log + raw
            &&& w.log == raw
            &&& w.segment == s.base_offset
            &&& t.size_in_bytes == t.log.len()
            &&& t.max_offset >= s.max_offset
            &&& t.max_offset >= b.base_offset + b.last_offset_delta
            &&& t.max_offset == s.max_offset || t.max_offset == b.base_offset + b.last_offset_delta
            &&& s.first_timestamp != 0 ==> t.first_timestamp == s.first_timestamp
            &&& s.first_timestamp == 0 ==> t.first_timestamp == b.base_timestamp
            &&& w.entries is Some <==> due
            &&& due ==> {
                &&& t.index.len() == s.index.len() + 1
                &&& t.time_index.len() == s.time_index.len() + 1
                &&& t.time_index.last().timestamp == b.base_timestamp
                &&& t.time_index.last().relative_offset == t.index.last().relative_offset
                &&& t.bytes_since_last_index == 0
                &&& s.log.len() <= u32::MAX ==> t.index.last().position == s.log.len()
                &&& s.base_offset <= b.base_offset <= s.base_offset + i32::MAX
                    ==> t.index.last().relative_offset == b.base_offset - s.base_offset
            }
            &&& !due ==> {
                &&& t.index == s.index
                &&& t.time_index == s.time_index
                &&& t.bytes_since_last_index == s.bytes_since_last_index + raw.len()
            }
            &&& t.base_offset == s.base_offset && t.closed == s.closed
            &&& t.created_ms == s.created_ms
        }),
{
    let x = s.index_interval_bytes;
    assert(x >= 0 ==> x as u32 == x) by (bit_vector);
    if s.base_offset <= b.base_offset <= s.base_offset + i32::MAX {
        let base = b.base_offset;
        let first = s.base_offset;
        assert(base.wrapping_sub(first) == base - first);
    }
}

/// Batches are appended one after the other: what several come to is what the
/// first come to, with the others behind.
pub proof fn law_appended_in_turn(
    st: AppendState,
    a: Seq<BatchModel>,
    b: Seq<BatchModel>,
    now: i64,
)
    ensures
        append_batches(st, a + b, now) == append_batches(append_batches(st, a, now), b, now),
    decreases a.len(),
{
    if st.err is Some {
        reveal_with_fuel(append_batches, 2);
    } else if a.len() == 0 {
        assert(a + b =~= b);
    } else {
        assert((a + b)[0] == a[0]);
        assert((a + b).skip(1) =~= a.skip(1) + b);
        law_appended_in_turn(append_step(st, a[0], now), a.skip(1), b, now);
    }
}

/// What one batch comes to: one result and one write more, or an error that leaves
/// all as it was.
pub proof fn law_one_batch_appended(st: AppendState, b: BatchModel, now: i64)
    requires
        st.err is None,
    ensures
        append_batches(st, seq![b], now) == append_step(st, b, now),
        log_append(st.log, b, now) matches Ok(out) ==> {
            let t = append_step(st, b, now);
            &&& t.log == out.0
            &&& t.results == st.results.push(out.1)
            &&& t.writes == st.writes.push(out.2)
            &&& t.err is None
        },
        log_append(st.log, b, now) matches Err(e) ==> {
            let t = append_step(st, b, now);
            &&& t.log == st.log
            &&& t.results == st.results
            &&& t.writes == st.writes
            &&& t.err == Some(e)
        },
{
    let next = append_step(st, b, now);
    assert(seq![b].skip(1) =~= Seq::<BatchModel>::empty());
    assert(append_batches(next, seq![b].skip(1), now) == next);
}

/// Nothing is appended behind an error, and a run with a batch that was refused is
/// one.
pub proof fn law_nothing_behind_an_error(
    st: AppendState,
    bs: Seq<BatchModel>,
    run: RunModel,
    runs: Seq<RunModel>,
    now: i64,
)
    ensures
        st.err is Some ==> append_batches(st, bs, now) == st,
        st.err is Some ==> append_all(st, runs, now) == st,
        run.err is None ==> append_run(st, run, now) == append_batches(st, run.batches, now),
        run.err matches Some(e) ==> (append_batches(st, run.batches, now).err is None
            ==> append_run(st, run, now).err == Some(StorageError::Decode(e))),
        append_run(st, run, now).log == append_batches(st, run.batches, now).log,
        append_run(st, run, now).writes == append_batches(st, run.batches, now).writes,
        st.err is None && runs.len() > 0 ==> append_all(st, runs, now) == append_all(
            append_run(st, runs[0], now),
            runs.skip(1),
            now,
        ),
{
}

/// A log has the limits that its configuration sets.
pub proof fn law_limits_are_configured(config: Arc<BrokerConfig>)
    ensures
        limits_of(config).index_interval_bytes == config.index_interval_bytes,
        limits_of(config).log_segment_bytes == config.log_segment_bytes,
        limits_of(config).log_roll_ms == config.log_roll_ms,
{
}

/// A log that is opened on files has a segment for each, with what it holds, and
/// goes on behind the last record in the last of them. Without files it is empty
/// and begins at zero.
pub proof fn law_opened_on_files(files: Seq<FilesModel>, limits: Limits, now: i64, i: int)
    requires
        files_in_order(files),
        0 <= i < files.len(),
        last_offset_in(files.last().log) matches Some(o) ==> o < i64::MAX,
        files.last().base_offset > i64::MIN,
        files[0].base_offset < i64::MAX,
    ensures
        ({
            let l = opened_log(files, limits, now);
            &&& l.segments.len() == files.len()
            &&& l.segments[i].base_offset == files[i].base_offset
            &&& l.segments[i].log == files[i].log
            &&& l.segments[i].size_in_bytes == files[i].log.len() as u64
            &&& !l.segments[i].closed
            &&& l.log_start_offset == files[0].base_offset
            &&& last_offset_in(files.last().log) matches Some(o) ==> l.high_watermark == o + 1
            &&& last_offset_in(files.last().log) is None ==> l.high_watermark
                == files.last().base_offset
            &&& l.limits == limits
        }),
        opened_log(Seq::empty(), limits, now).high_watermark == 0,
        opened_log(Seq::empty(), limits, now).segments.len() == 1,
{
}

/// A segment that is opened on files holds what they hold, all of it on disk, takes
/// records, and counts the bytes to the next index entry from zero.
pub proof fn law_opened_segment(f: FilesModel, limits: Limits, now: i64)
    requires
        f.log.len() <= u64::MAX,
    ensures
        ({
            let s = opened(
                f.base_offset,
                f.log,
                f.index,
                f.time_index,
                limits.index_interval_bytes,
                limits.log_segment_bytes,
                limits.log_roll_ms,
                now,
            );
            &&& s.base_offset == f.base_offset
            &&& s.log == f.log
            &&& s.size_in_bytes == f.log.len()
            &&& s.flushed == f.log.len()
            &&& s.index.len() == f.index.len() / 8
            &&& s.time_index.len() == f.time_index.len() / 12
            &&& s.bytes_since_last_index == 0
            &&& s.first_timestamp == 0
            &&& s.created_ms == now
            &&& !s.closed
        }),
{
}

/// Only what ends in `.log` is the log of a segment.
pub proof fn law_other_files_are_no_logs(name: Seq<char>)
    ensures
        base_of_name(name) is Some <==> {
            let n = name.len();
            n >= 4 && name[n - 4] == '.' && name[n - 3] == 'l' && name[n - 2] == 'o' && name[n - 1]
                == 'g'
        },
{
    let n = name.len();
    if n >= 4 {
        let end = name.subrange(n - 4, n as int);
        assert(end[0] == name[n - 4] && end[1] == name[n - 3]);
        assert(end[2] == name[n - 2] && end[3] == name[n - 1]);
        if end[0] == '.' && end[1] == 'l' && end[2] == 'o' && end[3] == 'g' {
            assert(end =~= seq!['.', 'l', 'o', 'g']);
        }
    }
}

/// A name that ends in `.log` more than once is read like one that does so once. What
/// stands before it is a number, or else counts as zero.
pub proof fn law_endings_are_cut_off(name: Seq<char>, front: Seq<char>)
    requires
        base_of_name(name) is Some,
        base_of_name(front) is None,
    ensures
        base_of_name(name + seq!['.', 'l', 'o', 'g']) == base_of_name(name),
        text::read_int(front, i64::MIN as int, i64::MAX as int) matches Some(n) ==> base_of_name(
            front + seq!['.', 'l', 'o', 'g'],
        ) == Some(n as i64),
        text::read_int(front, i64::MIN as int, i64::MAX as int) is None ==> base_of_name(
            front + seq!['.', 'l', 'o', 'g'],
        ) == Some(0i64),
{
    let end = seq!['.', 'l', 'o', 'g'];
    let a = name + end;
    assert(a.take(a.len() - 4) =~= name);
    assert(a.subrange(a.len() - 4, a.len() as int) =~= end);
    let b = front + end;
    assert(b.take(b.len() - 4) =~= front);
    assert(b.subrange(b.len() - 4, b.len() as int) =~= end);
}

/// A log begins where its first segment does; where that has no room for a record,
/// at zero.
pub proof fn law_log_begins_with_its_files(files: Seq<FilesModel>, limits: Limits, now: i64)
    requires
        files.len() > 0,
    ensures
        files[0].base_offset < i64::MAX ==> opened_log(files, limits, now).log_start_offset
            == files[0].base_offset,
        files[0].base_offset == i64::MAX ==> opened_log(files, limits, now).log_start_offset == 0,
{
}

/// The offsets of a batch stand in it: the first in front, and how many more there
/// are behind it from byte 23 on. One that is too short for that holds one.
pub proof fn law_offsets_stand_in_a_batch(f: Seq<u8>, b: BatchModel, data: Seq<u8>)
    requires
        49 + data.len() <= i32::MAX,
    ensures
        8 <= f.len() < 27 ==> frame_last(f) == frame_base(f),
        frame_base(enc_batch(b, data)) == b.base_offset,
        i64::MIN <= b.base_offset + b.last_offset_delta <= i64::MAX ==> frame_last(
            enc_batch(b, data),
        ) == b.base_offset + b.last_offset_delta,
        b.base_offset + b.last_offset_delta > i64::MAX ==> frame_last(enc_batch(b, data))
            == i64::MAX,
        b.base_offset + b.last_offset_delta < i64::MIN ==> frame_last(enc_batch(b, data))
            == i64::MIN,
{
    law_layout_of_a_batch(b, data);
    lemma_int_round_trip(0, 0, b.last_offset_delta, b.base_offset);
}

// ---------------------------------------------------------------------------
// What is read

/// The segment that is read from for an offset begins there or before it, and the
/// one behind it after it. There is none only if every segment begins after it.
pub proof fn law_segment_of_an_offset(segments: Seq<SegmentView>, offset: i64)
    requires
        ascending(segments),
    ensures
        ({
            let k = segment_for(segments, offset);
            &&& -1 <= k < segments.len()
            &&& k >= 0 ==> segments[k].base_offset <= offset
            &&& forall|i: int|
                k < i < segments.len() ==> (#[trigger] segments[i]).base_offset > offset
        }),
    decreases segments.len(),
{
    if segments.len() > 0 && segments.last().base_offset > offset {
        let front = segments.drop_last();
        assert(ascending(front)) by {
            assert forall|i: int, j: int| 0 <= i < j < front.len() implies (
            #[trigger] front[i]).base_offset < (#[trigger] front[j]).base_offset by {
                assert(segments[i].base_offset < segments[j].base_offset);
            }
        }
        law_segment_of_an_offset(front, offset);
        let k = segment_for(segments, offset);
        assert forall|i: int| k < i < segments.len() implies (#[trigger] segments[i]).base_offset
            > offset by {
            if i < front.len() {
                assert(front[i] == segments[i]);
            }
        }
    }
}

/// Nothing is read below the oldest offset, or behind the last one.
pub proof fn law_nothing_outside_is_read(l: LogView, start: i64, max: int)
    requires
        log_wf(l),
    ensures
        start < l.log_start_offset ==> log_read(l, start, max).len() == 0,
        start > l.segments.last().max_offset && start >= l.segments.last().base_offset ==> log_read(
            l,
            start,
            max,
        ).len() == 0,
{
}

/// Bytes that are batches to their end are those batches, joined.
pub proof fn law_batches_joined(s: Seq<u8>)
    requires
        whole(s),
    ensures
        joined(frames(s)) == s,
    decreases s.len(),
{
    if s.len() > 0 {
        let n = frame_len(s)->Some_0 as int;
        law_batches_joined(s.skip(n));
        assert(frames(s)[0] == s.take(n));
        assert(frames(s).skip(1) =~= frames(s.skip(n)));
        assert(s.take(n) + s.skip(n) =~= s);
    } else {
        assert(joined(frames(s)) =~= s);
    }
}

/// A reader is given the batches from the first on that begins at the offset or
/// after it: all that stand before it begin before the offset.
pub proof fn law_read_begins_at_the_offset(fs: Seq<Seq<u8>>, start: i64)
    ensures
        exists|k: int|
            {
                &&& 0 <= k <= fs.len()
                &&& from_offset(fs, start) == #[trigger] fs.skip(k)
                &&& forall|i: int| 0 <= i < k ==> frame_base(#[trigger] fs[i]) < start
                &&& k < fs.len() ==> frame_base(fs[k]) >= start
            },
    decreases fs.len(),
{
    if fs.len() == 0 || frame_base(fs[0]) >= start {
        assert(fs.skip(0) =~= fs);
    } else {
        let rest = fs.skip(1);
        law_read_begins_at_the_offset(rest, start);
        let k = choose|k: int|
            {
                &&& 0 <= k <= rest.len()
                &&& from_offset(rest, start) == #[trigger] rest.skip(k)
                &&& forall|i: int| 0 <= i < k ==> frame_base(#[trigger] rest[i]) < start
                &&& k < rest.len() ==> frame_base(rest[k]) >= start
            };
        assert(rest.skip(k) =~= fs.skip(k + 1));
        assert forall|i: int| 0 <= i < k + 1 implies frame_base(#[trigger] fs[i]) < start by {
            if i > 0 {
                assert(rest[i - 1] == fs[i]);
            }
        }
    }
}

/// A reader is given as many batches as fit, in their order: one more would not.
pub proof fn law_as_much_as_fits_is_read(fs: Seq<Seq<u8>>, max: int)
    requires
        max >= 0,
    ensures
        exists|n: int|
            {
                &&& 0 <= n <= fs.len()
                &&& fitting(fs, max) == joined(#[trigger] fs.take(n))
                &&& joined(fs.take(n)).len() <= max
                &&& n < fs.len() ==> joined(fs.take(n)).len() + fs[n].len() > max
            },
    decreases fs.len(),
{
    if fs.len() == 0 || fs[0].len() > max {
        assert(fs.take(0) =~= Seq::empty());
        assert(joined(fs.take(0)) =~= Seq::empty());
        assert(fitting(fs, max) =~= joined(fs.take(0)));
    } else {
        let rest = fs.skip(1);
        let left = max - fs[0].len();
        law_as_much_as_fits_is_read(rest, left);
        let n = choose|n: int|
            {
                &&& 0 <= n <= rest.len()
                &&& fitting(rest, left) == joined(#[trigger] rest.take(n))
                &&& joined(rest.take(n)).len() <= left
                &&& n < rest.len() ==> joined(rest.take(n)).len() + rest[n].len() > left
            };
        assert(fs.take(n + 1).skip(1) =~= rest.take(n));
        assert(fs.take(n + 1)[0] == fs[0]);
        assert(joined(fs.take(n + 1)) == fs[0] + joined(rest.take(n)));
        if n < rest.len() {
            assert(rest[n] == fs[n + 1]);
        }
    }
}

/// What a log is read from is the segment of the offset, as far as it is in reach.
pub proof fn law_read_is_of_one_segment(l: LogView, start: i64, max: int, k: int)
    requires
        log_wf(l),
        0 <= k < l.segments.len(),
        l.log_start_offset <= start,
        l.segments[k].base_offset <= start <= l.segments[k].max_offset,
        k + 1 < l.segments.len() ==> start < l.segments[k + 1].base_offset,
    ensures
        log_read(l, start, max) == selected(l.segments[k].log, start, max),
{
    law_segment_of_an_offset(l.segments, start);
    let j = segment_for(l.segments, start);
    if j < k {
        assert(l.segments[k].base_offset > start);
    }
    if j > k {
        assert(l.segments[k + 1].base_offset <= l.segments[j].base_offset);
    }
}

/// What an index of sorted offsets is asked for is found: the position of the last
/// entry at or below the offset, and none only if all entries are above it.
pub proof fn law_position_is_found(es: Seq<OffsetIndexEntry>, target: i32, n: int)
    requires
        offsets_sorted(es),
        splits_at(es, target, n),
    ensures
        match position_before(es, n) {
            Some(p) => exists|i: int|
                {
                    &&& 0 <= i < es.len()
                    &&& (#[trigger] es[i]).relative_offset <= target
                    &&& es[i].position == p
                    &&& forall|j: int|
                        i < j < es.len() ==> (#[trigger] es[j]).relative_offset > target
                },
            None => forall|j: int|
                0 <= j < es.len() ==> (#[trigger] es[j]).relative_offset > target,
        },
{
    if n > 0 {
        assert(es[n - 1].relative_offset <= target);
    }
}

/// What an index of sorted times is asked for is found: the offset of the first
/// entry at or after the time, and none only if all entries are before it.
pub proof fn law_time_is_found(es: Seq<TimeIndexEntry>, target: i64, n: int)
    requires
        times_sorted(es),
        splits_times_at(es, target, n),
    ensures
        match offset_after(es, n) {
            Some(o) => exists|i: int|
                {
                    &&& 0 <= i < es.len()
                    &&& (#[trigger] es[i]).timestamp >= target
                    &&& es[i].relative_offset == o
                    &&& forall|j: int| 0 <= j < i ==> (#[trigger] es[j]).timestamp < target
                },
            None => forall|j: int| 0 <= j < es.len() ==> (#[trigger] es[j]).timestamp < target,
        },
{
    if n < es.len() {
        assert(es[n].timestamp >= target);
    }
}

// ---------------------------------------------------------------------------
// Retention

/// The bytes that segments hold, added up.
pub open spec fn bytes_held(segments: Seq<SegmentView>) -> int {
    segments.fold_left(0int, |n: int, s: SegmentView| n + s.log.len())
}

/// The size of a log is what its segments hold, added up: one segment counts what
/// it holds, and two parts count together what they count alone.
pub proof fn law_sizes_add_up(a: Seq<SegmentView>, b: Seq<SegmentView>, s: SegmentView)
    ensures
        total_size(a) == bytes_held(a),
        total_size(a + b) == total_size(a) + total_size(b),
        total_size(seq![s]) == s.log.len(),
        total_size(Seq::empty()) == 0,
{
    lemma_size_is_sum(a);
    lemma_sizes_joined(a, b);
    assert(seq![s].drop_last() =~= Seq::<SegmentView>::empty());
    assert(total_size(seq![s].drop_last()) == 0);
}

proof fn lemma_size_is_sum(segments: Seq<SegmentView>)
    ensures
        total_size(segments) == bytes_held(segments),
    decreases segments.len(),
{
    reveal(Seq::fold_left);
    if segments.len() > 0 {
        lemma_size_is_sum(segments.drop_last());
    }
}

proof fn lemma_sizes_joined(a: Seq<SegmentView>, b: Seq<SegmentView>)
    ensures
        total_size(a + b) == total_size(a) + total_size(b),
    decreases b.len(),
{
    if b.len() == 0 {
        assert(a + b =~= a);
    } else {
        assert((a + b).drop_last() =~= a + b.drop_last());
        assert((a + b).last() == b.last());
        lemma_sizes_joined(a, b.drop_last());
    }
}

/// A log that holds more bytes than it may is left with its last segment. What is
/// given up are all the others, and the oldest offset is where the last begins.
pub proof fn law_too_large_a_log_is_cut(
    l: LogView,
    modified: Seq<i64>,
    config: Arc<BrokerConfig>,
    now: i64,
)
    requires
        l.segments.len() > 0,
        config.cleanup_policy@ == "delete"@,
        config.log_retention_bytes >= 0,
        l.segments.fold_left(0int, |n: int, s: SegmentView| n + s.log.len())
            > config.log_retention_bytes,
    ensures
        after_cleanup(l, modified, config, now).segments == seq![l.segments.last()],
        l.segments.len() > 1 ==> after_cleanup(l, modified, config, now).log_start_offset
            == l.segments.last().base_offset,
        bases_given_up(l, modified, config, now).len() == l.segments.len() - 1,
        forall|i: int|
            0 <= i < l.segments.len() - 1 ==> #[trigger] bases_given_up(l, modified, config, now)[i]
                == l.segments[i].base_offset,
{
    lemma_size_is_sum(l.segments);
    lemma_all_given_up(l.segments, modified, config, total_size(l.segments), now);
}

proof fn lemma_all_given_up(
    segments: Seq<SegmentView>,
    modified: Seq<i64>,
    config: Arc<BrokerConfig>,
    total: int,
    now: i64,
)
    requires
        segments.len() > 0,
        config.log_retention_bytes >= 0,
        total > config.log_retention_bytes,
    ensures
        kept(segments, modified, config, total, now) == seq![segments.last()],
        given_up_bases(segments, modified, config, total, now).len() == segments.len() - 1,
        forall|i: int|
            0 <= i < segments.len() - 1 ==> #[trigger] given_up_bases(
                segments,
                modified,
                config,
                total,
                now,
            )[i] == segments[i].base_offset,
    decreases segments.len(),
{
    if segments.len() == 1 {
        assert(segments =~= seq![segments.last()]);
    } else {
        let rest = segments.skip(1);
        lemma_all_given_up(rest, modified.skip(1), config, total, now);
        let bases = given_up_bases(rest, modified.skip(1), config, total, now);
        assert forall|i: int| 0 <= i < segments.len() - 1 implies #[trigger] given_up_bases(
            segments,
            modified,
            config,
            total,
            now,
        )[i] == segments[i].base_offset by {
            if i > 0 {
                assert(bases[i - 1] == rest[i - 1].base_offset);
            }
        }
    }
}

/// Whether a segment of a log stays that is within its size: it is the last, or
/// was modified within the hours that the configuration gives.
pub open spec fn stays(
    l: LogView,
    modified: Seq<i64>,
    config: Arc<BrokerConfig>,
    now: i64,
    i: int,
) -> bool {
    i == l.segments.len() - 1 || now - modified[i] <= config.log_retention_hours * 3_600_000
}

/// Of a log that does not hold more than it may, those segments stay that were
/// modified within the time, and the last one; no others. They are as they were.
pub proof fn law_old_segments_are_given_up(
    l: LogView,
    modified: Seq<i64>,
    config: Arc<BrokerConfig>,
    now: i64,
)
    requires
        l.segments.len() > 0,
        modified.len() == l.segments.len(),
        config.cleanup_policy@ == "delete"@,
        config.log_retention_bytes < 0 || l.segments.fold_left(
            0int,
            |n: int, s: SegmentView| n + s.log.len(),
        ) <= config.log_retention_bytes,
    ensures
        forall|s: SegmentView| #[trigger]
            after_cleanup(l, modified, config, now).segments.contains(s) <==> exists|i: int|
                0 <= i < l.segments.len() && #[trigger] l.segments[i] == s && stays(
                    l,
                    modified,
                    config,
                    now,
                    i,
                ),
        forall|b: i64| #[trigger]
            bases_given_up(l, modified, config, now).contains(b) <==> exists|i: int|
                0 <= i < l.segments.len() && (#[trigger] l.segments[i]).base_offset == b && !stays(
                    l,
                    modified,
                    config,
                    now,
                    i,
                ),
        (forall|i: int| 0 <= i < l.segments.len() - 1 ==> stays(l, modified, config, now, i))
            ==> after_cleanup(l, modified, config, now) == l && bases_given_up(
            l,
            modified,
            config,
            now,
        ).len() == 0,
{
    let total = total_size(l.segments);
    lemma_size_is_sum(l.segments);
    lemma_kept(l.segments, modified, config, total, now);
    let a = after_cleanup(l, modified, config, now).segments;
    let hours = config.log_retention_hours;
    let n = l.segments.len() - 1;
    assert forall|s: SegmentView| #[trigger] a.contains(s) <==> exists|i: int|
        0 <= i < l.segments.len() && #[trigger] l.segments[i] == s && stays(
            l,
            modified,
            config,
            now,
            i,
        ) by {
        if a.contains(s) {
            let i = choose|i: int|
                0 <= i < l.segments.len() && #[trigger] l.segments[i] == s && (i == n || now
                    - modified[i] <= hours * 3_600_000);
            assert(stays(l, modified, config, now, i));
        }
    }
    assert forall|b: i64| #[trigger]
        bases_given_up(l, modified, config, now).contains(b) <==> exists|i: int|
            0 <= i < l.segments.len() && (#[trigger] l.segments[i]).base_offset == b && !stays(
                l,
                modified,
                config,
                now,
                i,
            ) by {
        if bases_given_up(l, modified, config, now).contains(b) {
            let i = choose|i: int|
                0 <= i < l.segments.len() && (#[trigger] l.segments[i]).base_offset == b && !(i == n
                    || now - modified[i] <= hours * 3_600_000);
            assert(!stays(l, modified, config, now, i));
        }
    }
    if forall|i: int| 0 <= i < l.segments.len() - 1 ==> stays(l, modified, config, now, i) {
        assert forall|i: int| 0 <= i < l.segments.len() - 1 implies now - #[trigger] modified[i]
            <= hours * 3_600_000 by {
            assert(stays(l, modified, config, now, i));
        }
        lemma_none_given_up(l.segments, modified, config, total, now);
    }
}

proof fn lemma_kept(
    segments: Seq<SegmentView>,
    modified: Seq<i64>,
    config: Arc<BrokerConfig>,
    total: int,
    now: i64,
)
    requires
        segments.len() > 0,
        modified.len() == segments.len(),
        config.log_retention_bytes < 0 || total <= config.log_retention_bytes,
    ensures
        forall|s: SegmentView| #[trigger]
            kept(segments, modified, config, total, now).contains(s) <==> exists|i: int|
                0 <= i < segments.len() && #[trigger] segments[i] == s && (i == segments.len() - 1
                    || now - modified[i] <= config.log_retention_hours * 3_600_000),
        forall|b: i64| #[trigger]
            given_up_bases(segments, modified, config, total, now).contains(b) <==> exists|i: int|
                0 <= i < segments.len() && (#[trigger] segments[i]).base_offset == b && !(i
                    == segments.len() - 1 || now - modified[i] <= config.log_retention_hours
                    * 3_600_000),
    decreases segments.len(),
{
    let hours = config.log_retention_hours;
    let a = kept(segments, modified, config, total, now);
    let g = given_up_bases(segments, modified, config, total, now);
    if segments.len() == 1 {
        assert forall|s: SegmentView| #[trigger] a.contains(s) <==> exists|i: int|
            0 <= i < segments.len() && #[trigger] segments[i] == s && (i == segments.len() - 1
                || now - modified[i] <= hours * 3_600_000) by {
            if a.contains(s) {
                assert(segments[0] == s);
            }
        }
    } else {
        let ss = segments.skip(1);
        let ms = modified.skip(1);
        let ra = kept(ss, ms, config, total, now);
        let rg = given_up_bases(ss, ms, config, total, now);
        lemma_kept(ss, ms, config, total, now);
        let out = now - modified[0] > hours * 3_600_000;
        assert forall|s: SegmentView| #[trigger] a.contains(s) <==> exists|i: int|
            0 <= i < segments.len() && #[trigger] segments[i] == s && (i == segments.len() - 1
                || now - modified[i] <= hours * 3_600_000) by {
            if ra.contains(s) {
                let i = choose|i: int|
                    0 <= i < ss.len() && #[trigger] ss[i] == s && (i == ss.len() - 1 || now - ms[i]
                        <= hours * 3_600_000);
                assert(segments[i + 1] == s);
                let k = choose|k: int| 0 <= k < ra.len() && ra[k] == s;
                assert(a[if out { k } else { k + 1 }] == s);
            }
            if !out {
                assert(a[0] == segments[0]);
            }
            if a.contains(s) {
                let k = choose|k: int| 0 <= k < a.len() && a[k] == s;
                if !out && k == 0 {
                    assert(segments[0] == s);
                } else {
                    assert(ra[if out { k } else { k - 1 }] == s);
                    assert(ra.contains(s));
                }
            }
            if exists|i: int|
                0 <= i < segments.len() && #[trigger] segments[i] == s && (i == segments.len() - 1
                    || now - modified[i] <= hours * 3_600_000) {
                let i = choose|i: int|
                    0 <= i < segments.len() && #[trigger] segments[i] == s && (i == segments.len()
                        - 1 || now - modified[i] <= hours * 3_600_000);
                if i > 0 {
                    assert(ss[i - 1] == s);
                    assert(ms[i - 1] == modified[i]);
                    assert(ra.contains(s));
                }
            }
        }
        assert forall|b: i64| #[trigger] g.contains(b) <==> exists|i: int|
            0 <= i < segments.len() && (#[trigger] segments[i]).base_offset == b && !(i
                == segments.len() - 1 || now - modified[i] <= hours * 3_600_000) by {
            if rg.contains(b) {
                let i = choose|i: int|
                    0 <= i < ss.len() && (#[trigger] ss[i]).base_offset == b && !(i == ss.len() - 1
                        || now - ms[i] <= hours * 3_600_000);
                assert(segments[i + 1].base_offset == b);
                let k = choose|k: int| 0 <= k < rg.len() && rg[k] == b;
                assert(g[if out { k + 1 } else { k }] == b);
            }
            if out {
                assert(g[0] == segments[0].base_offset);
            }
            if g.contains(b) {
                let k = choose|k: int| 0 <= k < g.len() && g[k] == b;
                if out && k == 0 {
                    assert(segments[0].base_offset == b);
                } else {
                    assert(rg[if out { k - 1 } else { k }] == b);
                    assert(rg.contains(b));
                }
            }
            if exists|i: int|
                0 <= i < segments.len() && (#[trigger] segments[i]).base_offset == b && !(i
                    == segments.len() - 1 || now - modified[i] <= hours * 3_600_000) {
                let i = choose|i: int|
                    0 <= i < segments.len() && (#[trigger] segments[i]).base_offset == b && !(i
                        == segments.len() - 1 || now - modified[i] <= hours * 3_600_000);
                if i > 0 {
                    assert(ss[i - 1].base_offset == b);
                    assert(ms[i - 1] == modified[i]);
                    assert(rg.contains(b));
                }
            }
        }
    }
}

proof fn lemma_none_given_up(
    segments: Seq<SegmentView>,
    modified: Seq<i64>,
    config: Arc<BrokerConfig>,
    total: int,
    now: i64,
)
    requires
        segments.len() > 0,
        modified.len() == segments.len(),
        config.log_retention_bytes < 0 || total <= config.log_retention_bytes,
        forall|i: int|
            0 <= i < segments.len() - 1 ==> now - #[trigger] modified[i]
                <= config.log_retention_hours * 3_600_000,
    ensures
        kept(segments, modified, config, total, now) == segments,
        given_up_bases(segments, modified, config, total, now).len() == 0,
    decreases segments.len(),
{
    if segments.len() > 1 {
        let ms = modified.skip(1);
        assert forall|i: int| 0 <= i < segments.len() - 2 implies now - #[trigger] ms[i]
            <= config.log_retention_hours * 3_600_000 by {
            assert(ms[i] == modified[i + 1]);
        }
        lemma_none_given_up(segments.skip(1), ms, config, total, now);
        assert(seq![segments[0]] + segments.skip(1) =~= segments);
    }
}

/// What a cleanup leaves stands in its order, and nothing is given up unless the
/// policy is to delete.
pub proof fn law_cleanup_keeps_the_order(
    l: LogView,
    modified: Seq<i64>,
    config: Arc<BrokerConfig>,
    now: i64,
)
    requires
        log_wf(l),
        modified.len() == l.segments.len(),
    ensures
        ascending(after_cleanup(l, modified, config, now).segments),
        config.cleanup_policy@ != "delete"@ ==> after_cleanup(l, modified, config, now) == l
            && bases_given_up(l, modified, config, now).len() == 0,
        after_cleanup(l, modified, config, now).segments.len() < l.segments.len()
            ==> after_cleanup(l, modified, config, now).log_start_offset == after_cleanup(
            l,
            modified,
            config,
            now,
        ).segments[0].base_offset,
        after_cleanup(l, modified, config, now).segments.len() == l.segments.len()
            ==> after_cleanup(l, modified, config, now).log_start_offset == l.log_start_offset,
{
    lemma_kept_ascending(l.segments, modified, config, total_size(l.segments), now);
}

proof fn lemma_kept_ascending(
    segments: Seq<SegmentView>,
    modified: Seq<i64>,
    config: Arc<BrokerConfig>,
    total: int,
    now: i64,
)
    requires
        ascending(segments),
    ensures
        ascending(kept(segments, modified, config, total, now)),
        forall|i: int|
            0 <= i < kept(segments, modified, config, total, now).len() ==> segments.contains(
                #[trigger] kept(segments, modified, config, total, now)[i],
            ),
    decreases segments.len(),
{
    let a = kept(segments, modified, config, total, now);
    if segments.len() > 1 {
        let ss = segments.skip(1);
        let ra = kept(ss, modified.skip(1), config, total, now);
        assert(ascending(ss)) by {
            assert forall|i: int, j: int| 0 <= i < j < ss.len() implies (
            #[trigger] ss[i]).base_offset < (#[trigger] ss[j]).base_offset by {
                assert(segments[i + 1].base_offset < segments[j + 1].base_offset);
            }
        }
        lemma_kept_ascending(ss, modified.skip(1), config, total, now);
        assert forall|i: int| 0 <= i < ra.len() implies segments.contains(#[trigger] ra[i])
            && segments[0].base_offset < ra[i].base_offset by {
            let k = choose|k: int| 0 <= k < ss.len() && ss[k] == ra[i];
            assert(segments[k + 1] == ra[i]);
        }
        assert forall|i: int| 0 <= i < a.len() implies segments.contains(#[trigger] a[i]) by {
            if a.len() == ra.len() {
                assert(a[i] == ra[i]);
            } else if i > 0 {
                assert(a[i] == ra[i - 1]);
            } else {
                assert(segments[0] == a[0]);
            }
        }
        assert forall|i: int, j: int| 0 <= i < j < a.len() implies (#[trigger] a[i]).base_offset < (
        #[trigger] a[j]).base_offset by {
            if a.len() == ra.len() {
                assert(a[i] == ra[i] && a[j] == ra[j]);
            } else {
                assert(a[j] == ra[j - 1]);
                if i > 0 {
                    assert(a[i] == ra[i - 1]);
                }
            }
        }
    } else {
        assert forall|i: int| 0 <= i < a.len() implies segments.contains(#[trigger] a[i]) by {
            assert(segments[i] == a[i]);
        }
    }
}

// ---------------------------------------------------------------------------
// Compaction

/// What cannot be read is not compacted: the error is handed on.
pub proof fn law_unreadable_is_not_compacted(run: RunModel)
    ensures
        records_of(run) is Ok <==> run.err is None,
        run.err matches Some(e) ==> records_of(run) matches Err(f) && f == e,
        records_of(run) matches Ok(rs) ==> rs == records_in_order(run.batches),
{
}

/// Records come in the order of their batches.
pub proof fn law_records_in_order(a: Seq<BatchModel>, b: BatchModel)
    ensures
        records_in_order(Seq::empty()) == Seq::<RecordModel>::empty(),
        records_in_order(a.push(b)) == records_in_order(a) + b.records,
{
    assert(a.push(b).drop_last() =~= a);
}

/// The records without a key survive as they are and in their order, and no other
/// is taken for one.
pub proof fn law_keyless_are_kept(rs: Seq<RecordModel>)
    ensures
        keyless(rs) == rs.filter(|r: RecordModel| r.key is None),
    decreases rs.len(),
{
    reveal(Seq::filter);
    if rs.len() > 0 {
        law_keyless_are_kept(rs.drop_last());
    }
}

/// What survives: of every key the last record that has it, and what has no key.
/// Nothing else does, and nothing is changed.
pub proof fn law_what_survives(rs: Seq<RecordModel>, x: RecordModel)
    ensures
        compacted(rs).contains(x) <==> (x.key is None && rs.contains(x)) || exists|i: int|
            #![trigger rs[i]]
            {
                &&& 0 <= i < rs.len()
                &&& rs[i] == x
                &&& x.key is Some
                &&& forall|j: int| i < j < rs.len() ==> (#[trigger] rs[j]).key != x.key
            },
{
    law_latest_survives(rs, x);
    lemma_keyless_contains(rs, x);
    let a = latest_of_keys(rs);
    let b = keyless(rs);
    let c = compacted(rs);
    assert(c.contains(x) <==> a.contains(x) || b.contains(x)) by {
        if a.contains(x) {
            let i = choose|i: int| 0 <= i < a.len() && a[i] == x;
            assert(c[i] == x);
        }
        if b.contains(x) {
            let i = choose|i: int| 0 <= i < b.len() && b[i] == x;
            assert(c[a.len() + i] == x);
        }
        if c.contains(x) {
            let i = choose|i: int| 0 <= i < c.len() && c[i] == x;
            if i < a.len() {
                assert(a[i] == x);
            } else {
                assert(b[i - a.len()] == x);
            }
        }
    }
    if a.contains(x) {
        let i = choose|i: int| #[trigger] is_latest(rs, i) && rs[i] == x;
        assert(rs[i] == x);
    }
    if exists|i: int|
        #![trigger rs[i]]
        {
            &&& 0 <= i < rs.len()
            &&& rs[i] == x
            &&& x.key is Some
            &&& forall|j: int| i < j < rs.len() ==> (#[trigger] rs[j]).key != x.key
        } {
        let i = choose|i: int|
            #![trigger rs[i]]
            {
                &&& 0 <= i < rs.len()
                &&& rs[i] == x
                &&& x.key is Some
                &&& forall|j: int| i < j < rs.len() ==> (#[trigger] rs[j]).key != x.key
            };
        assert(is_latest(rs, i));
    }
}

proof fn lemma_keyless_contains(rs: Seq<RecordModel>, x: RecordModel)
    ensures
        keyless(rs).contains(x) <==> x.key is None && rs.contains(x),
    decreases rs.len(),
{
    if rs.len() > 0 {
        let front = rs.drop_last();
        let before = keyless(front);
        let all = keyless(rs);
        lemma_keyless_contains(front, x);
        assert(rs[rs.len() - 1] == rs.last());
        assert(rs.contains(x) <==> front.contains(x) || x == rs.last()) by {
            if front.contains(x) {
                let i = choose|i: int| 0 <= i < front.len() && front[i] == x;
                assert(rs[i] == x);
            }
            if rs.contains(x) && x != rs.last() {
                let i = choose|i: int| 0 <= i < rs.len() && rs[i] == x;
                assert(front[i] == x);
            }
        }
        if rs.last().key is None {
            assert(all[before.len() as int] == rs.last());
            if before.contains(x) {
                let i = choose|i: int| 0 <= i < before.len() && before[i] == x;
                assert(all[i] == x);
            }
            if all.contains(x) && x != rs.last() {
                let i = choose|i: int| 0 <= i < all.len() && all[i] == x;
                assert(before[i] == x);
            }
        }
    }
}

/// Compacting what was compacted changes nothing: records of different keys, and
/// none without a key behind them, stay as they are.
pub proof fn law_compacted_twice(rs: Seq<RecordModel>)
    requires
        forall|i: int| 0 <= i < rs.len() ==> (#[trigger] rs[i]).key is Some,
        forall|i: int, j: int|
            0 <= i < j < rs.len() ==> (#[trigger] rs[i]).key != (#[trigger] rs[j]).key,
    ensures
        compacted(rs) == rs,
{
    lemma_distinct_stay(rs);
    assert(compacted(rs) =~= rs);
}

proof fn lemma_distinct_stay(rs: Seq<RecordModel>)
    requires
        forall|i: int| 0 <= i < rs.len() ==> (#[trigger] rs[i]).key is Some,
        forall|i: int, j: int|
            0 <= i < j < rs.len() ==> (#[trigger] rs[i]).key != (#[trigger] rs[j]).key,
    ensures
        latest_of_keys(rs) == rs,
        keyless(rs).len() == 0,
    decreases rs.len(),
{
    if rs.len() == 0 {
        assert(latest_of_keys(rs) =~= rs);
    } else {
        let front = rs.drop_last();
        assert forall|i: int| 0 <= i < front.len() implies (#[trigger] front[i]).key is Some by {
            assert(rs[i].key is Some);
        }
        assert forall|i: int, j: int| 0 <= i < j < front.len() implies (#[trigger] front[i]).key != (
        #[trigger] front[j]).key by {
            assert(rs[i].key != rs[j].key);
        }
        lemma_distinct_stay(front);
        assert(rs[rs.len() - 1] == rs.last());
        assert forall|i: int| 0 <= i < front.len() implies (#[trigger] front[i]).key
            != rs.last().key by {
            assert(rs[i].key != rs[rs.len() - 1].key);
        }
        lemma_nothing_taken_out(front, rs.last().key);
        assert(front.push(rs.last()) =~= rs);
    }
}

proof fn lemma_nothing_taken_out(rs: Seq<RecordModel>, key: Option<Seq<u8>>)
    requires
        forall|i: int| 0 <= i < rs.len() ==> (#[trigger] rs[i]).key != key,
    ensures
        without_key(rs, key) == rs,
    decreases rs.len(),
{
    if rs.len() > 0 {
        let front = rs.drop_last();
        assert forall|i: int| 0 <= i < front.len() implies (#[trigger] front[i]).key != key by {
            assert(rs[i].key != key);
        }
        lemma_nothing_taken_out(front, key);
        assert(rs[rs.len() - 1].key != key);
        assert(front.push(rs.last()) =~= rs);
    } else {
        assert(without_key(rs, key) =~= rs);
    }
}

} // verus!
