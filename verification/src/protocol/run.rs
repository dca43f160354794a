//! A run of batches, one after the other, and what was read of it.
//!
//! Whether a batch is read is not always decided by its bytes alone: see
//! [`unsettled`]. What is done with batches is therefore stated over what was
//! read of a run, and reading it is a step of its own.

use bytes::Bytes;
use vstd::prelude::*;

use crate::buf::bytes_view;
use crate::protocol::primitive::{DecodeError, Error, Modeled};
use crate::protocol::recordbatch::{
    frame_len, law_first_batch, parsed, refused, unsettled, BatchModel, RecordBatch,
    RecordBatchReader,
};
use crate::storage::scan::whole;

verus! {

/// What was read of a run: its batches, up to the first one that was refused.
#[derive(Debug)]
pub struct BatchRun {
    pub batches: Vec<RecordBatch>,
    /// Why a batch was refused, if one was.
    pub err: Option<DecodeError>,
}

/// The mathematical value of a [`BatchRun`].
#[verifier::ext_equal]
pub struct RunModel {
    pub batches: Seq<BatchModel>,
    pub err: Option<DecodeError>,
}

impl Modeled for BatchRun {
    type M = RunModel;

    open spec fn model(&self) -> RunModel {
        RunModel { batches: self.batches.model(), err: self.err }
    }
}

/// A run of one batch.
pub open spec fn one_batch(b: BatchModel) -> RunModel {
    RunModel { batches: seq![b], err: None }
}

/// Whether that is what was read of bytes. Bytes at the end that are not all of a
/// batch do not count.
pub open spec fn reads(s: Seq<u8>, run: RunModel) -> bool
    decreases s.len(),
{
    match frame_len(s) {
        Some(n) if n > 0 => if run.batches.len() > 0 {
            &&& parsed(s.take(n as int)) == Ok::<BatchModel, DecodeError>(run.batches[0])
            &&& reads(
                s.skip(n as int),
                RunModel { batches: run.batches.skip(1), err: run.err },
            )
        } else {
            run.err matches Some(e) && refused(s.take(n as int), e)
        },
        _ => run.batches.len() == 0 && run.err is None,
    }
}

/// Whether that is what was read of several runs.
pub open spec fn all_read(runs: Seq<Seq<u8>>, read: Seq<RunModel>) -> bool {
    &&& read.len() == runs.len()
    &&& forall|i: int| 0 <= i < runs.len() ==> reads(runs[i], #[trigger] read[i])
}

/// Whether the bytes alone decide what is read of them.
pub open spec fn settled_run(s: Seq<u8>) -> bool
    decreases s.len(),
{
    match frame_len(s) {
        Some(n) if n > 0 => !unsettled(s.take(n as int)) && settled_run(s.skip(n as int)),
        _ => true,
    }
}

/// What is read of bytes that decide it is the same every time.
pub proof fn law_read_one_way(s: Seq<u8>, a: RunModel, b: RunModel)
    requires
        settled_run(s),
        reads(s, a),
        reads(s, b),
    ensures
        a == b,
    decreases s.len(),
{
    match frame_len(s) {
        Some(n) if n > 0 => {
            if a.batches.len() > 0 && b.batches.len() > 0 {
                let x = RunModel { batches: a.batches.skip(1), err: a.err };
                let y = RunModel { batches: b.batches.skip(1), err: b.err };
                law_read_one_way(s.skip(n as int), x, y);
                assert(a.batches =~= seq![a.batches[0]] + x.batches);
                assert(b.batches =~= seq![b.batches[0]] + y.batches);
            }
            assert(a =~= b);
        },
        _ => {
            assert(a =~= b);
        },
    }
}

/// The bytes of a batch, if they decide it, are read as that batch and nothing
/// else.
pub proof fn law_batch_is_read(raw: Seq<u8>, b: BatchModel)
    requires
        raw.len() > 0,
        frame_len(raw) == Some(raw.len()),
        parsed(raw) == Ok::<BatchModel, DecodeError>(b),
        !unsettled(raw),
    ensures
        reads(raw, one_batch(b)),
        settled_run(raw),
        forall|run: RunModel| #[trigger] reads(raw, run) ==> run == one_batch(b),
{
    let n = raw.len() as int;
    let none = RunModel { batches: Seq::empty(), err: None };
    assert(raw.take(n) =~= raw);
    assert(raw.skip(n) =~= Seq::empty());
    assert(one_batch(b).batches.skip(1) =~= Seq::empty());
    assert(reads(raw.skip(n), none));
    assert(settled_run(raw.skip(n)));
    assert forall|run: RunModel| #[trigger] reads(raw, run) implies run == one_batch(b) by {
        law_read_one_way(raw, run, one_batch(b));
    }
}

/// Runs one after the other are read one after the other, if nothing of the
/// first is refused or left over.
pub proof fn law_runs_are_read_in_turn(s: Seq<u8>, t: Seq<u8>, a: RunModel, b: RunModel)
    requires
        whole(s),
        reads(s, a),
        a.err is None,
        reads(t, b),
    ensures
        reads(s + t, RunModel { batches: a.batches + b.batches, err: b.err }),
    decreases s.len(),
{
    let run = RunModel { batches: a.batches + b.batches, err: b.err };
    if s.len() == 0 {
        assert(s + t =~= t);
        assert(run =~= b);
    } else {
        let n = frame_len(s)->Some_0 as int;
        let first = s.take(n);
        let rest = s.skip(n);
        let x = RunModel { batches: a.batches.skip(1), err: a.err };
        law_runs_are_read_in_turn(rest, t, x, b);
        assert((s + t).subrange(8, 12) =~= s.subrange(8, 12));
        assert((s + t).take(n) =~= first);
        assert((s + t).skip(n) =~= rest + t);
        assert(run.batches.skip(1) =~= x.batches + b.batches);
    }
}

/// Batches joined to a run.
pub open spec fn joined(raws: Seq<Seq<u8>>) -> Seq<u8>
    decreases raws.len(),
{
    if raws.len() == 0 {
        Seq::empty()
    } else {
        raws[0] + joined(raws.skip(1))
    }
}

/// What is left of bytes after a number of batches were read from them; all of
/// it once there is no whole batch any more.
pub open spec fn rest_after(s: Seq<u8>, calls: nat) -> Seq<u8>
    decreases calls,
{
    if calls == 0 {
        s
    } else {
        let rest = rest_after(s, (calls - 1) as nat);
        match frame_len(rest) {
            Some(n) => rest.skip(n as int),
            None => rest,
        }
    }
}

/// A reader over joined batches comes to each of them in turn, refuses none, and
/// comes to the end then, where it stays.
pub proof fn law_reader_goes_through(raws: Seq<Seq<u8>>, calls: nat)
    requires
        forall|i: int|
            0 <= i < raws.len() ==> {
                &&& frame_len(#[trigger] raws[i]) == Some(raws[i].len())
                &&& parsed(raws[i]) is Ok
                &&& !unsettled(raws[i])
            },
    ensures
        ({
            let rest = rest_after(joined(raws), calls);
            if calls < raws.len() {
                let raw = raws[calls as int];
                &&& frame_len(rest) == Some(raw.len())
                &&& rest.take(raw.len() as int) == raw
                &&& parsed(raw) is Ok
                &&& forall|e: DecodeError| !refused(raw, e)
            } else {
                &&& rest.len() == 0
                &&& frame_len(rest) is None
            }
        }),
{
    lemma_rest_joined(raws, calls);
    let left = if calls < raws.len() {
        raws.skip(calls as int)
    } else {
        Seq::empty()
    };
    if calls < raws.len() {
        assert(left[0] == raws[calls as int]);
        law_first_batch(left[0], joined(left.skip(1)));
    }
}

proof fn lemma_rest_joined(raws: Seq<Seq<u8>>, calls: nat)
    requires
        forall|i: int|
            0 <= i < raws.len() ==> frame_len(#[trigger] raws[i]) == Some(raws[i].len()),
    ensures
        rest_after(joined(raws), calls) == if calls < raws.len() {
            joined(raws.skip(calls as int))
        } else {
            Seq::empty()
        },
    decreases calls,
{
    if calls == 0 {
        assert(raws.skip(0) =~= raws);
    } else {
        let k = (calls - 1) as nat;
        lemma_rest_joined(raws, k);
        if k < raws.len() {
            let left = raws.skip(k as int);
            assert(left[0] == raws[k as int]);
            assert(left.skip(1) =~= raws.skip(calls as int));
            law_first_batch(left[0], joined(left.skip(1)));
        }
    }
}

/// A batch that is cut short is not read.
pub proof fn law_cut_batch_is_not_read(raw: Seq<u8>, n: int)
    requires
        frame_len(raw) == Some(raw.len()),
        0 <= n < raw.len(),
    ensures
        frame_len(raw.take(n)) is None,
{
    if n >= 12 {
        assert(raw.take(n).subrange(8, 12) =~= raw.subrange(8, 12));
    }
}

/// Reads a run of batches.
pub fn read_run(data: Bytes) -> (r: BatchRun)
    ensures
        reads(bytes_view(data), r.model()),
{
    let ghost all = bytes_view(data);
    let mut reader = RecordBatchReader::new(data);
    let mut batches: Vec<RecordBatch> = Vec::new();
    assert(batches.model() =~= Seq::empty());
    proof {
        assert forall|t: RunModel| #[trigger] reads(reader.rest(), t) implies reads(
            all,
            behind(batches.model(), t),
        ) by {
            assert(behind(batches.model(), t) =~= t);
        }
    }
    loop
        invariant
            all == bytes_view(data),
            forall|t: RunModel| #[trigger]
                reads(reader.rest(), t) ==> reads(all, behind(batches.model(), t)),
        decreases reader.rest().len(),
    {
        let ghost s = reader.rest();
        let ghost before = batches.model();
        match reader.next_batch() {
            Ok(Some((batch, _raw))) => {
                batches.push(batch);
                proof {
                    let b = batch.model();
                    assert(batches.model() =~= before.push(b));
                    assert forall|t: RunModel| #[trigger] reads(reader.rest(), t) implies reads(
                        all,
                        behind(batches.model(), t),
                    ) by {
                        let u = behind(seq![b], t);
                        assert(u.batches.skip(1) =~= t.batches);
                        assert(reads(s, u));
                        assert(behind(before, u) =~= behind(batches.model(), t));
                    }
                }
            },
            Ok(None) => {
                proof {
                    let t = RunModel { batches: Seq::empty(), err: None };
                    assert(reads(s, t));
                    assert(behind(before, t).batches =~= before);
                }
                return BatchRun { batches, err: None };
            },
            Err(e) => {
                let err = match e {
                    Error::Decode(d) => d,
                    _ => DecodeError::NegativeLength,
                };
                proof {
                    let t = RunModel { batches: Seq::empty(), err: Some(err) };
                    assert(reads(s, t));
                    assert(behind(before, t).batches =~= before);
                }
                return BatchRun { batches, err: Some(err) };
            },
        }
    }
}

/// Batches, and behind them what was read of a run.
pub open spec fn behind(batches: Seq<BatchModel>, run: RunModel) -> RunModel {
    RunModel { batches: batches + run.batches, err: run.err }
}

/// Reads runs of batches.
pub fn read_runs(data: &Vec<Bytes>) -> (r: Vec<BatchRun>)
    ensures
        all_read(data.model(), r.model()),
{
    let mut out: Vec<BatchRun> = Vec::new();
    let mut i: usize = 0;
    while i < data.len()
        invariant
            i <= data@.len(),
            out@.len() == i,
            forall|j: int|
                0 <= j < i ==> reads(data.model()[j], #[trigger] out.model()[j]),
        decreases data@.len() - i,
    {
        let ghost before = out.model();
        let run = read_run(data[i].clone());
        out.push(run);
        assert(out.model() =~= before.push(run.model()));
        i = i + 1;
    }
    out
}

} // verus!
