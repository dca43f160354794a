//! What the files of a log hold after its appends were written to them, and what
//! a broker finds that opens them again.

use vstd::prelude::*;

use crate::protocol::recordbatch::BatchModel;
use crate::storage::index::{
    law_offset_entry_written, law_time_entry_written, offset_entries, time_entries,
};
use crate::storage::log::{
    files_in_order, law_append_keeps_order, law_log_append_keeps_sound, law_new_log_is_sound,
    log_append, log_read, log_sound, log_wf, opened_log, rolled, segment_for, FilesModel, Limits,
    LogView,
};
use crate::storage::segment::{entry_sound, indexable, sound, SegmentView, WriteModel};

verus! {

/// Whether the files of a segment hold what is in it.
pub open spec fn holds(f: FilesModel, s: SegmentView) -> bool {
    &&& f.base_offset == s.base_offset
    &&& f.log == s.log
    &&& f.index.len() % 8 == 0
    &&& offset_entries(f.index) == s.index
    &&& f.time_index.len() % 12 == 0
    &&& time_entries(f.time_index) == s.time_index
}

/// Whether files hold a log: those of each of its segments, or none at all if
/// nothing was ever written.
pub open spec fn stored(files: Seq<FilesModel>, l: LogView) -> bool {
    &&& l.log_start_offset == l.segments[0].base_offset
    &&& l.segments[0].base_offset < i64::MAX
    &&& if files.len() == 0 {
        &&& l.segments.len() == 1
        &&& l.segments[0].base_offset == 0
        &&& l.high_watermark == 0
        &&& holds(no_files(0), l.segments[0])
    } else {
        &&& files.len() == l.segments.len()
        &&& forall|i: int| 0 <= i < files.len() ==> holds(#[trigger] files[i], l.segments[i])
    }
}

/// Files of a segment with nothing in them.
pub open spec fn no_files(base_offset: i64) -> FilesModel {
    FilesModel { base_offset, log: Seq::empty(), index: Seq::empty(), time_index: Seq::empty() }
}

/// The files of a segment with what an append wrote behind them.
pub open spec fn extended(f: FilesModel, w: WriteModel) -> FilesModel {
    FilesModel {
        base_offset: f.base_offset,
        log: f.log + w.log,
        index: match w.entries {
            Some(e) => f.index + e.0,
            None => f.index,
        },
        time_index: match w.entries {
            Some(e) => f.time_index + e.1,
            None => f.time_index,
        },
    }
}

/// The files of a log with what an append wrote behind those of its segment,
/// which are made if the segment is new.
pub open spec fn after_write(files: Seq<FilesModel>, w: WriteModel) -> Seq<FilesModel> {
    if files.len() > 0 && files.last().base_offset == w.segment {
        files.update(files.len() - 1, extended(files.last(), w))
    } else {
        files.push(extended(no_files(w.segment), w))
    }
}

/// A log and its files.
pub struct Kept {
    pub log: LogView,
    pub files: Seq<FilesModel>,
}

/// A log that was just made, which has no files.
pub open spec fn kept_new(limits: Limits, now: i64) -> Kept {
    Kept { log: opened_log(Seq::empty(), limits, now), files: Seq::empty() }
}

/// The log and its files after a batch was appended and written. One that is
/// refused changes neither.
pub open spec fn kept_batch(k: Kept, b: BatchModel, now: i64) -> Kept {
    match log_append(k.log, b, now) {
        Ok((log, _, w)) => Kept { log, files: after_write(k.files, w) },
        Err(_) => k,
    }
}

/// The log and its files after batches were appended, each at its time.
pub open spec fn kept_batches(k: Kept, bs: Seq<(BatchModel, i64)>) -> Kept
    decreases bs.len(),
{
    if bs.len() == 0 {
        k
    } else {
        kept_batch(kept_batches(k, bs.drop_last()), bs.last().0, bs.last().1)
    }
}

/// Whether the offsets and positions fitted the index in every log on the way.
pub open spec fn indexable_throughout(k: Kept, bs: Seq<(BatchModel, i64)>) -> bool {
    forall|n: int|
        0 <= n <= bs.len() ==> indexable(
            (#[trigger] kept_batches(k, bs.take(n))).log.segments.last(),
        )
}

/// The files of a log hold it after every append, once what the append returned
/// to be written was written.
pub proof fn law_files_follow(l: LogView, files: Seq<FilesModel>, b: BatchModel, now: i64)
    requires
        l.segments.len() > 0,
        stored(files, l),
        log_append(l, b, now) is Ok,
    ensures
        ({
            let (u, r, w) = log_append(l, b, now)->Ok_0;
            stored(after_write(files, w), u)
        }),
{
    reveal(log_append);
    let (u, r, w) = log_append(l, b, now)->Ok_0;
    let t = rolled(l, now);
    let n = t.segments.len() - 1;
    let a = t.segments[n];
    let after = after_write(files, w);
    let f = if files.len() > 0 && files.last().base_offset == w.segment {
        files.last()
    } else {
        no_files(w.segment)
    };
    assert(offset_entries(Seq::<u8>::empty()) =~= Seq::empty());
    assert(time_entries(Seq::<u8>::empty()) =~= Seq::empty());
    assert(w.segment == a.base_offset);
    assert(holds(f, a));
    assert(holds(extended(f, w), u.segments[n])) by {
        if w.entries is Some {
            law_offset_entry_written(f.index, u.segments[n].index.last());
            law_time_entry_written(f.time_index, u.segments[n].time_index.last());
        }
    }
    assert(after.len() == u.segments.len());
    assert forall|i: int| 0 <= i < after.len() implies holds(
        #[trigger] after[i],
        u.segments[i],
    ) by {
        if i < n {
            assert(holds(files[i], l.segments[i]));
        }
    }
}

/// A log opened again on its files has the offsets and the records that it had,
/// and is sound.
pub proof fn law_recovered(l: LogView, files: Seq<FilesModel>, now: i64)
    requires
        log_wf(l),
        log_sound(l),
        stored(files, l),
    ensures
        files_in_order(files),
        ({
            let o = opened_log(files, l.limits, now);
            &&& log_sound(o)
            &&& o.high_watermark == l.high_watermark
            &&& o.log_start_offset == l.log_start_offset
            &&& forall|start: i64, max: int| #[trigger]
                log_read(o, start, max) == log_read(l, start, max)
        }),
{
    let o = opened_log(files, l.limits, now);
    assert(offset_entries(Seq::<u8>::empty()) =~= Seq::empty());
    assert forall|i: int| 0 <= i < l.segments.len() implies {
        &&& sound(#[trigger] o.segments[i])
        &&& o.segments[i].base_offset == l.segments[i].base_offset
        &&& o.segments[i].max_offset == l.segments[i].max_offset
        &&& o.segments[i].log == l.segments[i].log
    } by {
        let s = l.segments[i];
        let p = o.segments[i];
        assert(sound(s));
        if files.len() > 0 {
            assert(holds(files[i], s));
        }
        assert(p.index == s.index);
        assert forall|k: int| 0 <= k < p.index.len() implies entry_sound(
            p,
            #[trigger] p.index[k],
        ) by {
            assert(entry_sound(s, s.index[k]));
        }
    }
    assert forall|i: int, j: int| 0 <= i < j < files.len() implies (
    #[trigger] files[i]).base_offset < (#[trigger] files[j]).base_offset by {
        assert(holds(files[i], l.segments[i]) && holds(files[j], l.segments[j]));
    }
    assert forall|start: i64, max: int| #[trigger] log_read(o, start, max) == log_read(
        l,
        start,
        max,
    ) by {
        lemma_same_segment(o.segments, l.segments, start);
    }
}

proof fn lemma_same_segment(a: Seq<SegmentView>, b: Seq<SegmentView>, start: i64)
    requires
        a.len() == b.len(),
        forall|i: int|
            0 <= i < a.len() ==> (#[trigger] a[i]).base_offset == (#[trigger] b[i]).base_offset,
    ensures
        segment_for(a, start) == segment_for(b, start),
        segment_for(a, start) < a.len(),
    decreases a.len(),
{
    if a.len() > 0 {
        lemma_same_segment(a.drop_last(), b.drop_last(), start);
    }
}

/// A restart loses nothing: whatever was appended to a log and written, the log
/// that its files hold gives the same offsets and the same records.
pub proof fn law_restart_keeps_records(
    limits: Limits,
    made: i64,
    bs: Seq<(BatchModel, i64)>,
    now: i64,
)
    requires
        indexable_throughout(kept_new(limits, made), bs),
    ensures
        ({
            let k = kept_batches(kept_new(limits, made), bs);
            let o = opened_log(k.files, limits, now);
            &&& files_in_order(k.files)
            &&& log_sound(o)
            &&& o.high_watermark == k.log.high_watermark
            &&& o.log_start_offset == k.log.log_start_offset
            &&& forall|start: i64, max: int| #[trigger]
                log_read(o, start, max) == log_read(k.log, start, max)
        }),
{
    lemma_kept(limits, made, bs);
    let k = kept_batches(kept_new(limits, made), bs);
    law_recovered(k.log, k.files, now);
}

proof fn lemma_kept(limits: Limits, made: i64, bs: Seq<(BatchModel, i64)>)
    requires
        indexable_throughout(kept_new(limits, made), bs),
    ensures
        ({
            let k = kept_batches(kept_new(limits, made), bs);
            &&& log_wf(k.log)
            &&& log_sound(k.log)
            &&& stored(k.files, k.log)
            &&& k.log.limits == limits
        }),
    decreases bs.len(),
{
    let k0 = kept_new(limits, made);
    if bs.len() == 0 {
        law_new_log_is_sound(limits, made);
    } else {
        let front = bs.drop_last();
        assert forall|n: int| 0 <= n <= front.len() implies indexable(
            (#[trigger] kept_batches(k0, front.take(n))).log.segments.last(),
        ) by {
            assert(front.take(n) =~= bs.take(n));
        }
        lemma_kept(limits, made, front);
        let k = kept_batches(k0, front);
        let (b, now) = bs.last();
        if log_append(k.log, b, now) is Ok {
            law_files_follow(k.log, k.files, b, now);
            assert(bs.take(bs.len() as int) =~= bs);
            assert(indexable(kept_batches(k0, bs.take(bs.len() as int)).log.segments.last()));
            law_log_append_keeps_sound(k.log, b, now);
            law_append_keeps_order(k.log, b, now);
            reveal(log_append);
        }
    }
}

} // verus!
