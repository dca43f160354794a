//! The offsets that appends give out.

use vstd::prelude::*;

use crate::protocol::recordbatch::BatchModel;
use crate::protocol::run::RunModel;
use crate::storage::log::{
    append_all, append_batches, append_run, append_start, append_step, law_append_keeps_order,
    log_append, log_wf, opened_log, rebased, rolled, with_batch, AppendResult, AppendState, Limits,
    LogView,
};
use crate::storage::segment::WriteModel;

verus! {

/// A log after calls of append, each with what was read of runs and at its time.
pub struct GivenOut {
    pub log: LogView,
    /// What the calls returned, in their order.
    pub results: Seq<AppendResult>,
    pub writes: Seq<WriteModel>,
    /// Whether none of them failed.
    pub ok: bool,
}

/// What calls of append come to.
pub open spec fn after_calls(
    log: LogView,
    writes: Seq<WriteModel>,
    calls: Seq<(Seq<RunModel>, i64)>,
) -> GivenOut
    decreases calls.len(),
{
    if calls.len() == 0 {
        GivenOut { log, results: Seq::empty(), writes, ok: true }
    } else {
        let g = after_calls(log, writes, calls.drop_last());
        let (runs, now) = calls.last();
        let st = append_all(append_start(g.log, g.writes), runs, now);
        GivenOut {
            log: st.log,
            results: g.results + st.results,
            writes: st.writes,
            ok: g.ok && st.err is None,
        }
    }
}

/// The batches of runs, one after the other.
pub open spec fn batches_of(runs: Seq<RunModel>) -> Seq<BatchModel>
    decreases runs.len(),
{
    if runs.len() == 0 {
        Seq::empty()
    } else {
        runs[0].batches + batches_of(runs.skip(1))
    }
}

/// The batches of calls, one after the other.
pub open spec fn batches_of_calls(calls: Seq<(Seq<RunModel>, i64)>) -> Seq<BatchModel>
    decreases calls.len(),
{
    if calls.len() == 0 {
        Seq::empty()
    } else {
        batches_of_calls(calls.drop_last()) + batches_of(calls.last().0)
    }
}

/// The number of records in batches.
pub open spec fn record_count(bs: Seq<BatchModel>) -> nat
    decreases bs.len(),
{
    if bs.len() == 0 {
        0
    } else {
        record_count(bs.drop_last()) + bs.last().records.len()
    }
}

/// Whether no batch is empty.
pub open spec fn none_empty(bs: Seq<BatchModel>) -> bool {
    forall|i: int| 0 <= i < bs.len() ==> (#[trigger] bs[i]).records.len() > 0
}

/// Whether results give the batches, one for one and in their order, offsets that
/// go from one end to the other: each begins where the one before it ended, and
/// is as long as its batch has records.
pub open spec fn tiles(rs: Seq<AppendResult>, bs: Seq<BatchModel>, from: int, to: int) -> bool {
    &&& rs.len() == bs.len()
    &&& forall|i: int|
        0 <= i < rs.len() ==> {
            &&& (#[trigger] rs[i]).base_offset == from + record_count(bs.take(i))
            &&& rs[i].last_offset == rs[i].base_offset + bs[i].records.len() - 1
        }
    &&& to == from + record_count(bs)
}

proof fn lemma_count_joined(a: Seq<BatchModel>, b: Seq<BatchModel>)
    ensures
        record_count(a + b) == record_count(a) + record_count(b),
    decreases b.len(),
{
    if b.len() == 0 {
        assert(a + b =~= a);
    } else {
        lemma_count_joined(a, b.drop_last());
        assert((a + b).drop_last() =~= a + b.drop_last());
    }
}

proof fn lemma_tiles_joined(
    r1: Seq<AppendResult>,
    b1: Seq<BatchModel>,
    r2: Seq<AppendResult>,
    b2: Seq<BatchModel>,
    from: int,
    middle: int,
    to: int,
)
    requires
        tiles(r1, b1, from, middle),
        tiles(r2, b2, middle, to),
    ensures
        tiles(r1 + r2, b1 + b2, from, to),
{
    let rs = r1 + r2;
    let bs = b1 + b2;
    lemma_count_joined(b1, b2);
    assert forall|i: int| 0 <= i < rs.len() implies {
        &&& (#[trigger] rs[i]).base_offset == from + record_count(bs.take(i))
        &&& rs[i].last_offset == rs[i].base_offset + bs[i].records.len() - 1
    } by {
        if i < b1.len() {
            assert(rs[i] == r1[i]);
            assert(bs.take(i) =~= b1.take(i));
        } else {
            let j = i - b1.len();
            assert(rs[i] == r2[j]);
            assert(bs.take(i) =~= b1 + b2.take(j));
            lemma_count_joined(b1, b2.take(j));
        }
    }
}

/// A batch gets the offsets that are next, as many as it has records.
proof fn lemma_one_appended(l: LogView, b: BatchModel, now: i64)
    requires
        log_wf(l),
        log_append(l, b, now) is Ok,
        b.records.len() > 0,
    ensures
        ({
            let (u, r, w) = log_append(l, b, now)->Ok_0;
            &&& log_wf(u)
            &&& tiles(seq![r], seq![b], l.high_watermark as int, u.high_watermark as int)
        }),
{
    reveal(log_append);
    law_append_keeps_order(l, b, now);
    let (u, r, w) = log_append(l, b, now)->Ok_0;
    assert(with_batch(l, b, now) == u);
    let m = rebased(b, l.high_watermark);
    let t = rolled(l, now);
    assert(m.last_offset_delta == b.records.len() - 1);
    assert(t.segments.last().max_offset == l.high_watermark - 1);
    assert(seq![b].drop_last() =~= Seq::empty());
    assert(seq![b].take(0) =~= Seq::empty());
    assert(record_count(seq![b].drop_last()) == 0);
}

proof fn lemma_batches_appended(st: AppendState, bs: Seq<BatchModel>, now: i64)
    requires
        st.err is None,
        log_wf(st.log),
        none_empty(bs),
        append_batches(st, bs, now).err is None,
    ensures
        appended_behind(st, append_batches(st, bs, now), bs),
    decreases bs.len(),
{
    let from = st.log.high_watermark as int;
    if bs.len() == 0 {
        assert(st.results.take(st.results.len() as int) =~= st.results);
        assert(st.results.skip(st.results.len() as int) =~= Seq::empty());
    } else {
        let b = bs[0];
        let next = append_step(st, b, now);
        let rest = bs.skip(1);
        assert(next.err is None) by {
            if next.err is Some {
                assert(append_batches(next, rest, now) == next);
            }
        }
        assert(forall|i: int| 0 <= i < rest.len() ==> #[trigger] rest[i] == bs[i + 1]);
        lemma_one_appended(st.log, b, now);
        lemma_batches_appended(next, rest, now);
        let t = append_batches(st, bs, now);
        let n = st.results.len() as int;
        let tail = t.results.skip(n + 1);
        lemma_tiles_joined(
            seq![next.results.last()],
            seq![b],
            tail,
            rest,
            from,
            next.log.high_watermark as int,
            t.log.high_watermark as int,
        );
        assert(t.results.take(n + 1) == next.results);
        assert(t.results[n] == t.results.take(n + 1)[n]);
        assert(t.results.skip(n) =~= seq![next.results.last()] + tail);
        assert(t.results.take(n) =~= next.results.take(n));
        assert(next.results.take(n) =~= st.results);
        assert(seq![b] + rest =~= bs);
    }
}

/// Whether one state came from another by appending batches without an error.
spec fn appended_behind(st: AppendState, t: AppendState, bs: Seq<BatchModel>) -> bool {
    let n = st.results.len() as int;
    &&& t.err is None
    &&& log_wf(t.log)
    &&& t.results.len() == n + bs.len()
    &&& t.results.take(n) == st.results
    &&& tiles(
        t.results.skip(n),
        bs,
        st.log.high_watermark as int,
        t.log.high_watermark as int,
    )
}

proof fn lemma_runs_appended(st: AppendState, runs: Seq<RunModel>, now: i64)
    requires
        st.err is None,
        log_wf(st.log),
        none_empty(batches_of(runs)),
        append_all(st, runs, now).err is None,
    ensures
        appended_behind(st, append_all(st, runs, now), batches_of(runs)),
    decreases runs.len(),
{
    if runs.len() == 0 {
        assert(st.results.take(st.results.len() as int) =~= st.results);
        assert(st.results.skip(st.results.len() as int) =~= Seq::empty());
    } else {
        let run = runs[0];
        let rest = runs.skip(1);
        let next = append_run(st, run, now);
        let a = run.batches;
        let b = batches_of(rest);
        assert(next.err is None) by {
            if next.err is Some {
                assert(append_all(next, rest, now) == next);
            }
        }
        assert(forall|i: int| 0 <= i < a.len() ==> #[trigger] a[i] == (a + b)[i]);
        assert(forall|i: int| 0 <= i < b.len() ==> #[trigger] b[i] == (a + b)[i + a.len()]);
        lemma_batches_appended(st, a, now);
        lemma_runs_appended(next, rest, now);
        let t = append_all(st, runs, now);
        let n = st.results.len() as int;
        let m = next.results.len() as int;
        lemma_tiles_joined(
            next.results.skip(n),
            a,
            t.results.skip(m),
            b,
            st.log.high_watermark as int,
            next.log.high_watermark as int,
            t.log.high_watermark as int,
        );
        assert(t.results.take(m) == next.results);
        assert(t.results =~= next.results + t.results.skip(m));
        assert(t.results.skip(n) =~= next.results.skip(n) + t.results.skip(m));
        assert(t.results.take(n) =~= next.results.take(n));
    }
}

/// Calls of append that do not fail give every batch one result, in their order,
/// and the offsets from the end that the log had to the end that it has then,
/// without gap or overlap.
pub proof fn law_appends_tile(
    log: LogView,
    writes: Seq<WriteModel>,
    calls: Seq<(Seq<RunModel>, i64)>,
)
    requires
        log_wf(log),
        none_empty(batches_of_calls(calls)),
        after_calls(log, writes, calls).ok,
    ensures
        ({
            let g = after_calls(log, writes, calls);
            &&& log_wf(g.log)
            &&& tiles(
                g.results,
                batches_of_calls(calls),
                log.high_watermark as int,
                g.log.high_watermark as int,
            )
        }),
    decreases calls.len(),
{
    if calls.len() > 0 {
        let front = calls.drop_last();
        let (runs, now) = calls.last();
        let a = batches_of_calls(front);
        let b = batches_of(runs);
        assert(forall|i: int| 0 <= i < a.len() ==> #[trigger] a[i] == (a + b)[i]);
        assert(forall|i: int| 0 <= i < b.len() ==> #[trigger] b[i] == (a + b)[i + a.len()]);
        law_appends_tile(log, writes, front);
        let g = after_calls(log, writes, front);
        let st = append_start(g.log, g.writes);
        lemma_runs_appended(st, runs, now);
        let t = append_all(st, runs, now);
        assert(t.results.skip(0) =~= t.results);
        lemma_tiles_joined(
            g.results,
            a,
            t.results,
            b,
            log.high_watermark as int,
            g.log.high_watermark as int,
            t.log.high_watermark as int,
        );
    }
}

/// In a log that was just made, the offsets that appends give out go from zero to
/// the end, which is the number of records appended.
pub proof fn law_offsets_count_records(
    limits: Limits,
    made: i64,
    calls: Seq<(Seq<RunModel>, i64)>,
)
    requires
        none_empty(batches_of_calls(calls)),
        after_calls(opened_log(Seq::empty(), limits, made), Seq::empty(), calls).ok,
    ensures
        ({
            let g = after_calls(opened_log(Seq::empty(), limits, made), Seq::empty(), calls);
            let bs = batches_of_calls(calls);
            &&& tiles(g.results, bs, 0, g.log.high_watermark as int)
            &&& g.log.high_watermark == record_count(bs)
        }),
{
    law_appends_tile(opened_log(Seq::empty(), limits, made), Seq::empty(), calls);
}

} // verus!
