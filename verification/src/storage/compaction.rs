//! Compaction: of the records of a log, the latest of every key, and those that
//! have no key.

use bytes::Bytes;
use vstd::prelude::*;

use crate::buf;
use crate::buf::bytes_view;
use crate::protocol::primitive::{DecodeError, Error, Modeled, Result};
use crate::protocol::recordbatch::{copy_record, BatchModel, Record, RecordModel};
use crate::protocol::run::{read_run, reads, BatchRun, RunModel};

verus! {

/// The records of batches, one after the other.
pub open spec fn records_in_order(bs: Seq<BatchModel>) -> Seq<RecordModel>
    decreases bs.len(),
{
    if bs.len() == 0 {
        Seq::empty()
    } else {
        records_in_order(bs.drop_last()) + bs.last().records
    }
}

/// The records of what was read of a run, or why a batch was refused.
pub open spec fn records_of(run: RunModel) -> core::result::Result<
    Seq<RecordModel>,
    DecodeError,
> {
    match run.err {
        Some(e) => Err(e),
        None => Ok(records_in_order(run.batches)),
    }
}

/// The latest record of every key, in the order in which they come.
pub open spec fn latest_of_keys(rs: Seq<RecordModel>) -> Seq<RecordModel>
    decreases rs.len(),
{
    if rs.len() == 0 {
        Seq::empty()
    } else {
        let before = latest_of_keys(rs.drop_last());
        if rs.last().key is None {
            before
        } else {
            without_key(before, rs.last().key).push(rs.last())
        }
    }
}

/// The records that do not have the key.
pub open spec fn without_key(rs: Seq<RecordModel>, key: Option<Seq<u8>>) -> Seq<RecordModel>
    decreases rs.len(),
{
    if rs.len() == 0 {
        Seq::empty()
    } else {
        let before = without_key(rs.drop_last(), key);
        if rs.last().key == key {
            before
        } else {
            before.push(rs.last())
        }
    }
}

/// The records that have no key.
pub open spec fn keyless(rs: Seq<RecordModel>) -> Seq<RecordModel>
    decreases rs.len(),
{
    if rs.len() == 0 {
        Seq::empty()
    } else {
        let before = keyless(rs.drop_last());
        if rs.last().key is None {
            before.push(rs.last())
        } else {
            before
        }
    }
}

/// What compaction makes of records.
pub open spec fn compacted(rs: Seq<RecordModel>) -> Seq<RecordModel> {
    latest_of_keys(rs) + keyless(rs)
}

// ---------------------------------------------------------------------------
// Laws

/// Whether a record has a key that no later record has.
pub open spec fn is_latest(rs: Seq<RecordModel>, i: int) -> bool {
    &&& 0 <= i < rs.len()
    &&& rs[i].key is Some
    &&& forall|j: int| i < j < rs.len() ==> (#[trigger] rs[j]).key != rs[i].key
}

proof fn lemma_without_key(rs: Seq<RecordModel>, key: Option<Seq<u8>>)
    ensures
        forall|x: RecordModel| #[trigger]
            without_key(rs, key).contains(x) <==> rs.contains(x) && x.key != key,
    decreases rs.len(),
{
    let s = without_key(rs, key);
    if rs.len() > 0 {
        let front = rs.drop_last();
        let before = without_key(front, key);
        lemma_without_key(front, key);
        assert forall|x: RecordModel| #[trigger] s.contains(x) <==> rs.contains(x) && x.key
            != key by {
            if rs.contains(x) {
                let k = choose|k: int| 0 <= k < rs.len() && rs[k] == x;
                if k < front.len() {
                    assert(front[k] == x);
                    if x.key != key {
                        assert(before.contains(x));
                        let j = choose|j: int| 0 <= j < before.len() && before[j] == x;
                        assert(s[j] == x);
                    }
                } else if x.key != key {
                    assert(s[before.len() as int] == x);
                }
            }
            if s.contains(x) {
                let k = choose|k: int| 0 <= k < s.len() && s[k] == x;
                if k < before.len() {
                    assert(before[k] == x);
                    assert(before.contains(x));
                    let j = choose|j: int| 0 <= j < front.len() && front[j] == x;
                    assert(rs[j] == x);
                } else {
                    assert(rs[rs.len() - 1] == x);
                }
            }
        }
    }
}

/// What survives under a key is its latest record, and every key's latest
/// record survives.
pub proof fn law_latest_survives(rs: Seq<RecordModel>, x: RecordModel)
    ensures
        latest_of_keys(rs).contains(x) <==> exists|i: int| #[trigger] is_latest(rs, i) && rs[i]
            == x,
    decreases rs.len(),
{
    if rs.len() > 0 {
        let front = rs.drop_last();
        let n = rs.len() - 1;
        let last = rs.last();
        let before = latest_of_keys(front);
        let cut = without_key(before, last.key);
        law_latest_survives(front, x);
        lemma_without_key(before, last.key);
        if exists|i: int| #[trigger] is_latest(rs, i) && rs[i] == x {
            let i = choose|i: int| #[trigger] is_latest(rs, i) && rs[i] == x;
            if i < n {
                assert(is_latest(front, i)) by {
                    assert forall|j: int| i < j < front.len() implies (#[trigger] front[j]).key
                        != front[i].key by {
                        assert(rs[j].key != rs[i].key);
                    }
                }
                assert(rs[n].key != rs[i].key);
                assert(before.contains(x));
                if last.key is Some {
                    assert(cut.contains(x));
                    let k = choose|k: int| 0 <= k < cut.len() && cut[k] == x;
                    assert(cut.push(last)[k] == x);
                }
            } else {
                assert(cut.push(last)[cut.len() as int] == x);
            }
        }
        if latest_of_keys(rs).contains(x) {
            let k = choose|k: int|
                0 <= k < latest_of_keys(rs).len() && latest_of_keys(rs)[k] == x;
            if last.key is Some && k == cut.len() {
                assert(is_latest(rs, n) && rs[n] == x);
            } else {
                if last.key is Some {
                    assert(cut[k] == x);
                    assert(cut.contains(x));
                }
                assert(before.contains(x));
                let i = choose|i: int| #[trigger] is_latest(front, i) && front[i] == x;
                assert(rs[i] == x);
                assert(is_latest(rs, i)) by {
                    assert forall|j: int| i < j < rs.len() implies (#[trigger] rs[j]).key
                        != rs[i].key by {
                        if j < n {
                            assert(front[j].key != front[i].key);
                        }
                    }
                }
            }
        }
    }
}

/// No key survives twice.
pub proof fn law_one_record_per_key(rs: Seq<RecordModel>)
    ensures
        forall|i: int, j: int|
            0 <= i < j < latest_of_keys(rs).len() ==> (#[trigger] latest_of_keys(rs)[i]).key != (
            #[trigger] latest_of_keys(rs)[j]).key,
    decreases rs.len(),
{
    if rs.len() > 0 {
        let before = latest_of_keys(rs.drop_last());
        law_one_record_per_key(rs.drop_last());
        if rs.last().key is Some {
            lemma_without_key_distinct(before, rs.last().key);
            lemma_without_key(before, rs.last().key);
            let cut = without_key(before, rs.last().key);
            assert forall|i: int| 0 <= i < cut.len() implies (#[trigger] cut[i]).key
                != rs.last().key by {
                assert(cut.contains(cut[i]));
            }
        }
    }
}

proof fn lemma_without_key_distinct(rs: Seq<RecordModel>, key: Option<Seq<u8>>)
    requires
        forall|i: int, j: int|
            0 <= i < j < rs.len() ==> (#[trigger] rs[i]).key != (#[trigger] rs[j]).key,
    ensures
        forall|i: int, j: int|
            0 <= i < j < without_key(rs, key).len() ==> (#[trigger] without_key(rs, key)[i]).key
                != (#[trigger] without_key(rs, key)[j]).key,
    decreases rs.len(),
{
    if rs.len() > 0 {
        let front = rs.drop_last();
        lemma_without_key_distinct(front, key);
        lemma_without_key(front, key);
        let before = without_key(front, key);
        assert forall|i: int| 0 <= i < before.len() implies (#[trigger] before[i]).key
            != rs.last().key by {
            assert(before.contains(before[i]));
            let k = choose|k: int| 0 <= k < front.len() && front[k] == before[i];
            assert(rs[k] == before[i]);
            assert(rs[rs.len() - 1] == rs.last());
        }
    }
}

/// Every record without a key survives, in its place among them.
pub proof fn law_keyless_survive(rs: Seq<RecordModel>, i: int)
    requires
        0 <= i < rs.len(),
        rs[i].key is None,
    ensures
        compacted(rs).contains(rs[i]),
    decreases rs.len(),
{
    lemma_keyless(rs, i);
    let k = choose|k: int| 0 <= k < keyless(rs).len() && keyless(rs)[k] == rs[i];
    assert(compacted(rs)[latest_of_keys(rs).len() + k] == rs[i]);
}

proof fn lemma_keyless(rs: Seq<RecordModel>, i: int)
    requires
        0 <= i < rs.len(),
        rs[i].key is None,
    ensures
        keyless(rs).contains(rs[i]),
    decreases rs.len(),
{
    let front = rs.drop_last();
    if i < front.len() {
        lemma_keyless(front, i);
        let k = choose|k: int| 0 <= k < keyless(front).len() && keyless(front)[k] == front[i];
        assert(keyless(rs)[k] == rs[i]);
    } else {
        assert(keyless(rs)[keyless(front).len() as int] == rs[i]);
    }
}

// ---------------------------------------------------------------------------

/// Whether two slices hold the same bytes.
pub fn same_bytes(a: &[u8], b: &[u8]) -> (r: bool)
    ensures
        r == (a@ == b@),
{
    if a.len() != b.len() {
        return false;
    }
    let mut i: usize = 0;
    while i < a.len()
        invariant
            i <= a@.len(),
            a@.len() == b@.len(),
            forall|j: int| 0 <= j < i ==> a@[j] == b@[j],
        decreases a@.len() - i,
    {
        if a[i] != b[i] {
            return false;
        }
        i = i + 1;
    }
    assert(a@ =~= b@);
    true
}

fn same_key(a: &Option<Bytes>, b: &Option<Bytes>) -> (r: bool)
    ensures
        r == (a.model() == b.model()),
{
    match (a, b) {
        (Some(x), Some(y)) => same_bytes(buf::bytes_slice(x), buf::bytes_slice(y)),
        (None, None) => true,
        _ => false,
    }
}

/// Takes out the records that have the key.
fn remove_key(rs: &mut Vec<Record>, key: &Option<Bytes>)
    ensures
        final(rs).model() == without_key(old(rs).model(), key.model()),
{
    let ghost all = rs.model();
    let ghost mut done: int = 0;
    let mut i: usize = 0;
    assert(all.take(0) =~= Seq::empty());
    assert(without_key(all.take(0), key.model()) + all.skip(0) =~= all);
    while i < rs.len()
        invariant
            all == old(rs).model(),
            0 <= done <= all.len(),
            i <= rs@.len(),
            i == without_key(all.take(done), key.model()).len(),
            rs.model() == without_key(all.take(done), key.model()) + all.skip(done),
        decreases all.len() - done, rs@.len() - i,
    {
        let ghost before = without_key(all.take(done), key.model());
        assert(rs.model()[i as int] == all[done]);
        proof {
            assert(all.take(done + 1).drop_last() =~= all.take(done));
            assert(all.take(done + 1).last() == all[done]);
        }
        if same_key(&rs[i].key, key) {
            let ghost m = rs.model();
            rs.remove(i);
            assert(rs.model() =~= m.remove(i as int));
            assert(rs.model() =~= before + all.skip(done + 1));
        } else {
            i = i + 1;
            assert(rs.model() =~= before.push(all[done]) + all.skip(done + 1));
        }
        proof {
            done = done + 1;
        }
    }
    assert(all.skip(done).len() == 0);
    assert(all.take(done) =~= all);
    assert(rs.model() =~= without_key(all, key.model()));
}

/// What compaction returns, held against what it should.
pub open spec fn compaction_says(run: RunModel, r: Result<Vec<Record>>) -> bool {
    match r {
        Ok(v) => records_of(run) is Ok && v.model() == compacted(records_of(run)->Ok_0),
        Err(Error::Decode(e)) => records_of(run) == Err::<Seq<RecordModel>, DecodeError>(e),
        Err(_) => false,
    }
}

/// Makes a log smaller.
pub struct LogCompactor;

impl LogCompactor {
    /// The records of batches that survive: the latest of every key, and those
    /// without a key.
    pub fn compact_batches(data: Bytes) -> (r: Result<Vec<Record>>)
        ensures
            exists|run: RunModel| #[trigger]
                reads(bytes_view(data), run) && compaction_says(run, r),
    {
        let run = read_run(data);
        Self::compact_run(&run)
    }

    /// The records of what was read of a run that survive.
    pub fn compact_run(run: &BatchRun) -> (r: Result<Vec<Record>>)
        ensures
            compaction_says(run.model(), r),
    {
        match run.err {
            Some(e) => {
                return Err(Error::Decode(e));
            },
            None => {},
        }
        let ghost bs = run.batches.model();
        let mut keyed: Vec<Record> = Vec::new();
        let mut rest: Vec<Record> = Vec::new();
        assert(keyed.model() =~= Seq::empty());
        assert(rest.model() =~= Seq::empty());
        let mut b: usize = 0;
        assert(bs.take(0) =~= Seq::empty());
        while b < run.batches.len()
            invariant
                b <= run.batches@.len(),
                bs == run.batches.model(),
                keyed.model() == latest_of_keys(records_in_order(bs.take(b as int))),
                rest.model() == keyless(records_in_order(bs.take(b as int))),
            decreases run.batches@.len() - b,
        {
            let batch = &run.batches[b];
            let ghost before = records_in_order(bs.take(b as int));
            let ghost new = batch.records.model();
            let n = batch.records.len();
            let mut i: usize = 0;
            assert(before + new.take(0) =~= before);
            while i < n
                invariant
                    i <= n,
                    n == batch.records@.len(),
                    new == batch.records.model(),
                    keyed.model() == latest_of_keys(before + new.take(i as int)),
                    rest.model() == keyless(before + new.take(i as int)),
                decreases n - i,
            {
                let record = copy_record(&batch.records[i]);
                proof {
                    let t = before + new.take(i as int + 1);
                    assert(record.model() == new[i as int]);
                    assert(t.drop_last() =~= before + new.take(i as int));
                    assert(t.last() == new[i as int]);
                }
                match &record.key {
                    Some(_) => {
                        remove_key(&mut keyed, &record.key);
                        let ghost k = keyed.model();
                        keyed.push(record);
                        assert(keyed.model() =~= k.push(record.model()));
                    },
                    None => {
                        let ghost k = rest.model();
                        rest.push(record);
                        assert(rest.model() =~= k.push(record.model()));
                    },
                }
                i = i + 1;
            }
            proof {
                assert(new.take(i as int) =~= new);
                assert(bs.take(b as int + 1).drop_last() =~= bs.take(b as int));
                assert(bs.take(b as int + 1).last() == bs[b as int]);
            }
            b = b + 1;
        }
        assert(bs.take(b as int) =~= bs);
        let ghost k = keyed.model();
        let ghost tail = rest.model();
        let mut out = keyed;
        out.append(&mut rest);
        assert(out.model() =~= k + tail);
        Ok(out)
    }
}

/// A task that compacts logs in the background. It has no state of its own.
#[derive(Debug, Clone, Copy, PartialEq, Eq, Structural)]
pub struct CompactWorker {}

impl CompactWorker {
    pub fn new() -> (r: Self)
        ensures
            r == (CompactWorker {  }),
    {
        CompactWorker {  }
    }
}

} // verus!
