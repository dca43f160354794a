//! The offsets that consumer groups have committed.
//!
//! Every commit is remembered, and also written as a record to the internal
//! topic `__consumer_offsets`, from which it is recovered when the broker
//! starts again. The key of the record is the group's id, and its value is
//!
//! ```text
//! topic(string) partition(int32) offset(int64) metadata(nullable string)
//! ```

use bytes::Bytes;
use vstd::arithmetic::div_mod::{
    lemma_add_mod_noop, lemma_add_mod_noop_right, lemma_mul_mod_noop_left, lemma_small_mod,
};
use vstd::arithmetic::power::{lemma_pow0, lemma_pow1, lemma_pow_adds, pow};
use vstd::prelude::*;
use vstd::slice::slice_to_vec;
use vstd::utf8::{
    decode_utf8, encode_utf8, encode_utf8_decode_utf8, encode_utf8_valid_utf8, valid_utf8,
};

use crate::buf;
use crate::buf::bytes_view;
use crate::protocol::compression::Compression;
use crate::protocol::messages::metadata::as_opt_str;
use crate::protocol::primitive::{
    cursor, enc_nullable_string, enc_string, law_i32_round_trip, law_i64_round_trip,
    law_nullable_string_round_trip, law_string_round_trip, sp_i32, sp_i64, sp_nullable_string,
    sp_string, string_from_utf8, Cursor, Decoder, Encoder, Modeled,
};
use crate::protocol::recordbatch::{
    algorithm, batch_fits, batch_of, enc_batch, enc_records, frame_len,
    law_plain_batch_round_trip, lemma_batch_len, parsed, records_fit, unsettled, BatchModel,
    Record, RecordBatch, RecordModel,
};
use crate::protocol::run::{
    all_read, law_batch_is_read, law_read_one_way, law_runs_are_read_in_turn, one_batch, read_runs,
    reads, settled_run, BatchRun, RunModel,
};
use crate::protocol::wire::{enc_i32, enc_i64};
use crate::server::metadata::{
    missing, records_appended, with_topic, AppendOutcome, MetaView, MetadataManager, RecordsError,
};
use crate::storage::log::{
    append_all, append_start, append_step, lemma_one_batch, log_append, rebased, rebased_raw,
    renumbered, AppendState, StorageError,
};
use crate::storage::scan::{frames, lemma_frames_concat, lemma_one_frame, whole};
use crate::storage::segment::{SegmentWrite, WriteModel};

verus! {

/// The internal topic that holds the commits.
pub const CONSUMER_OFFSETS_TOPIC: &'static str = "__consumer_offsets";

/// The number of partitions of that topic.
pub const DEFAULT_OFFSETS_PARTITIONS: i32 = 50;

/// A committed offset.
#[derive(Debug, Clone)]
pub struct CommittedOffset {
    pub group: String,
    pub topic: String,
    pub partition: i32,
    pub offset: i64,
    pub metadata: Option<String>,
}

/// A group, a topic and a partition.
pub type OffsetKey = (Seq<char>, Seq<char>, i32);

/// An offset and what the consumer noted beside it.
pub type OffsetValue = (i64, Option<Seq<char>>);

/// The mathematical value of a committed offset.
pub type OffsetModel = (OffsetKey, OffsetValue);

impl Modeled for CommittedOffset {
    type M = OffsetModel;

    open spec fn model(&self) -> OffsetModel {
        ((self.group@, self.topic@, self.partition), (self.offset, self.metadata.model()))
    }
}

/// The latest offset for a key in a list of commits.
pub open spec fn latest_commit(list: Seq<OffsetModel>, key: OffsetKey) -> Option<OffsetValue>
    decreases list.len(),
{
    if list.len() == 0 {
        None
    } else if list.last().0 == key {
        Some(list.last().1)
    } else {
        latest_commit(list.drop_last(), key)
    }
}

/// The offsets that a list of commits comes to.
pub open spec fn commits(list: Seq<OffsetModel>) -> Map<OffsetKey, OffsetValue> {
    Map::new(
        |k: OffsetKey| latest_commit(list, k) is Some,
        |k: OffsetKey| latest_commit(list, k)->Some_0,
    )
}

/// Whether no key occurs twice among commits.
pub open spec fn distinct_commits(list: Seq<OffsetModel>) -> bool {
    forall|i: int, j: int|
        0 <= i < j < list.len() ==> (#[trigger] list[i]).0 != (#[trigger] list[j]).0
}

proof fn lemma_commit_pushed(list: Seq<OffsetModel>, e: OffsetModel)
    ensures
        commits(list.push(e)) == commits(list).insert(e.0, e.1),
{
    assert(list.push(e).drop_last() =~= list);
    assert(commits(list.push(e)) =~= commits(list).insert(e.0, e.1));
}

proof fn lemma_latest_is_there(list: Seq<OffsetModel>, key: OffsetKey)
    requires
        latest_commit(list, key) is None,
    ensures
        forall|i: int| 0 <= i < list.len() ==> (#[trigger] list[i]).0 != key,
    decreases list.len(),
{
    if list.len() > 0 {
        let front = list.drop_last();
        lemma_latest_is_there(front, key);
        assert forall|i: int| 0 <= i < list.len() implies (#[trigger] list[i]).0 != key by {
            if i < front.len() {
                assert(front[i] == list[i]);
            }
        }
    }
}

proof fn lemma_removed_is_gone(list: Seq<OffsetModel>, i: int)
    requires
        distinct_commits(list),
        0 <= i < list.len(),
    ensures
        distinct_commits(list.remove(i)),
        forall|j: int| 0 <= j < list.len() - 1 ==> (#[trigger] list.remove(i)[j]).0 != list[i].0,
{
    let without = list.remove(i);
    assert forall|j: int| 0 <= j < without.len() implies (#[trigger] without[j]).0 != list[i].0 by {
        if j < i {
            assert(list[j].0 != list[i].0);
        } else {
            assert(list[i].0 != list[j + 1].0);
        }
    }
    assert forall|j: int, k: int| 0 <= j < k < without.len() implies (#[trigger] without[j]).0 != (
    #[trigger] without[k]).0 by {
        let a = if j < i {
            j
        } else {
            j + 1
        };
        let b = if k < i {
            k
        } else {
            k + 1
        };
        assert(list[a].0 != list[b].0);
    }
}

proof fn lemma_commit_removed(list: Seq<OffsetModel>, i: int, key: OffsetKey)
    requires
        0 <= i < list.len(),
        list[i].0 != key,
    ensures
        latest_commit(list.remove(i), key) == latest_commit(list, key),
    decreases list.len(),
{
    let without = list.remove(i);
    if i == list.len() - 1 {
        assert(without =~= list.drop_last());
    } else {
        assert(without.last() == list.last());
        assert(without.drop_last() =~= list.drop_last().remove(i));
        lemma_commit_removed(list.drop_last(), i, key);
    }
}

// ---------------------------------------------------------------------------
// The records

/// The value of a record.
pub open spec fn enc_offset(
    topic: Seq<char>,
    partition: i32,
    offset: i64,
    metadata: Option<Seq<char>>,
) -> Seq<u8> {
    enc_string(topic) + enc_i32(partition) + enc_i64(offset) + enc_nullable_string(metadata)
}

/// What the value of a record says.
pub open spec fn sp_offset(c: Cursor) -> ((Seq<char>, i32, i64, Option<Seq<char>>), Cursor) {
    let (topic, c1) = sp_string(c);
    let (partition, c2) = sp_i32(c1);
    let (offset, c3) = sp_i64(c2);
    let (metadata, c4) = sp_nullable_string(c3);
    ((topic, partition, offset, metadata), c4)
}

/// Whether the strings of a commit fit their lengths.
pub open spec fn strings_fit(topic: Seq<char>, metadata: Option<Seq<char>>) -> bool {
    &&& encode_utf8(topic).len() <= i16::MAX
    &&& metadata matches Some(m) ==> encode_utf8(m).len() <= i16::MAX
}

/// What a record says is what was written, if the strings fit their lengths.
pub proof fn law_offset_round_trip(
    topic: Seq<char>,
    partition: i32,
    offset: i64,
    metadata: Option<Seq<char>>,
)
    requires
        strings_fit(topic, metadata),
    ensures
        sp_offset(cursor(enc_offset(topic, partition, offset, metadata))) == (
            (topic, partition, offset, metadata),
            cursor(Seq::empty()),
        ),
{
    let t3 = enc_nullable_string(metadata) + Seq::<u8>::empty();
    let t2 = enc_i64(offset) + t3;
    let t1 = enc_i32(partition) + t2;
    assert(enc_offset(topic, partition, offset, metadata) =~= enc_string(topic) + t1);
    law_string_round_trip(topic, t1);
    law_i32_round_trip(partition, t2);
    law_i64_round_trip(offset, t3);
    law_nullable_string_round_trip(metadata, Seq::empty());
}

/// The record of a commit.
pub open spec fn commit_record(key: OffsetKey, value: OffsetValue) -> RecordModel {
    RecordModel {
        attributes: 0,
        timestamp_delta: 0,
        offset_delta: 0,
        key: Some(encode_utf8(key.0)),
        value: Some(enc_offset(key.1, key.2, value.0, value.1)),
        headers: Seq::empty(),
    }
}

/// The batch of a commit, at an offset of the topic.
pub open spec fn commit_batch(
    key: OffsetKey,
    value: OffsetValue,
    base_offset: i64,
    now: i64,
) -> BatchModel {
    batch_of(
        base_offset,
        seq![commit_record(key, value)],
        Compression::Plain,
        now,
        0,
        0,
        0,
        0,
    )
}

/// The bytes of the batch of a commit.
pub open spec fn commit_bytes(
    key: OffsetKey,
    value: OffsetValue,
    base_offset: i64,
    now: i64,
) -> Seq<u8> {
    let b = commit_batch(key, value, base_offset, now);
    enc_batch(b, enc_records(b.records))
}

/// What a record adds to the offsets: nothing if it is no commit.
pub open spec fn after_record(m: Map<OffsetKey, OffsetValue>, r: RecordModel) -> Map<
    OffsetKey,
    OffsetValue,
> {
    match (r.key, r.value) {
        (Some(k), Some(v)) if valid_utf8(k) => {
            let ((topic, partition, offset, metadata), c) = sp_offset(cursor(v));
            if c.err is None {
                m.insert((decode_utf8(k), topic, partition), (offset, metadata))
            } else {
                m
            }
        },
        _ => m,
    }
}

/// What records add to the offsets, in their order.
pub open spec fn after_records(m: Map<OffsetKey, OffsetValue>, rs: Seq<RecordModel>) -> Map<
    OffsetKey,
    OffsetValue,
>
    decreases rs.len(),
{
    if rs.len() == 0 {
        m
    } else {
        after_record(after_records(m, rs.drop_last()), rs.last())
    }
}

/// What the records of batches add to the offsets, in their order.
pub open spec fn after_batches(m: Map<OffsetKey, OffsetValue>, bs: Seq<BatchModel>) -> Map<
    OffsetKey,
    OffsetValue,
>
    decreases bs.len(),
{
    if bs.len() == 0 {
        m
    } else {
        after_records(after_batches(m, bs.drop_last()), bs.last().records)
    }
}

/// What the runs that were read add to the offsets, each up to the first batch
/// that was refused.
pub open spec fn after_runs(m: Map<OffsetKey, OffsetValue>, runs: Seq<RunModel>) -> Map<
    OffsetKey,
    OffsetValue,
>
    decreases runs.len(),
{
    if runs.len() == 0 {
        m
    } else {
        after_batches(after_runs(m, runs.drop_last()), runs.last().batches)
    }
}

/// Whether every batch of a run parses, and the bytes decide it.
pub open spec fn all_parse(s: Seq<u8>) -> bool {
    &&& whole(s)
    &&& forall|i: int|
        0 <= i < frames(s).len() ==> parsed(#[trigger] frames(s)[i]) is Ok && !unsettled(
            frames(s)[i],
        )
}

proof fn lemma_all_parse(s: Seq<u8>)
    requires
        all_parse(s),
    ensures
        settled_run(s),
        forall|run: RunModel| #[trigger] reads(s, run) ==> run.err is None,
    decreases s.len(),
{
    if s.len() > 0 {
        let n = frame_len(s)->Some_0 as int;
        let rest = s.skip(n);
        assert(frames(s)[0] == s.take(n));
        assert forall|i: int| 0 <= i < frames(rest).len() implies parsed(
            #[trigger] frames(rest)[i],
        ) is Ok && !unsettled(frames(rest)[i]) by {
            assert(frames(rest)[i] == frames(s)[i + 1]);
        }
        lemma_all_parse(rest);
        assert forall|run: RunModel| #[trigger] reads(s, run) implies run.err is None by {
            let tail = RunModel { batches: run.batches.skip(1), err: run.err };
            assert(run.batches.len() > 0 ==> reads(rest, tail));
        }
    }
}

/// A commit survives a restart: the offsets recovered from what was written to
/// the topic before it and the commit itself are those from before with the
/// commit among them.
pub proof fn law_commit_is_recovered(
    s: Seq<u8>,
    before: RunModel,
    key: OffsetKey,
    value: OffsetValue,
    base_offset: i64,
    now: i64,
    run: RunModel,
)
    requires
        all_parse(s),
        reads(s, before),
        strings_fit(key.1, value.1),
        records_fit(commit_batch(key, value, base_offset, now).records),
        commit_bytes(key, value, base_offset, now).len() <= i32::MAX,
        reads(s + commit_bytes(key, value, base_offset, now), run),
    ensures
        after_batches(Map::empty(), run.batches) == after_batches(
            Map::empty(),
            before.batches,
        ).insert(key, value),
        all_parse(s + commit_bytes(key, value, base_offset, now)),
{
    let b = commit_batch(key, value, base_offset, now);
    let raw = commit_bytes(key, value, base_offset, now);
    law_plain_batch_round_trip(b);
    lemma_one_frame(raw);
    lemma_frames_concat(s, raw);
    law_batch_is_read(raw, b);
    lemma_all_parse(s);
    lemma_all_parse(s + raw);
    law_runs_are_read_in_turn(s, raw, before, one_batch(b));
    let both = RunModel { batches: before.batches + one_batch(b).batches, err: None };
    law_read_one_way(s + raw, run, both);
    assert(both.batches.drop_last() =~= before.batches);
    assert(both.batches.last() == b);
    let m = after_batches(Map::empty(), before.batches);
    let r = commit_record(key, value);
    assert(b.records.drop_last() =~= Seq::empty());
    assert(after_records(m, b.records.drop_last()) == m);
    law_offset_round_trip(key.1, key.2, value.0, value.1);
    encode_utf8_valid_utf8(key.0);
    encode_utf8_decode_utf8(key.0);
    assert(key == (key.0, key.1, key.2));
    assert(after_record(m, r) == m.insert(key, value));
}

// ---------------------------------------------------------------------------

/// The number that a string's bytes come to, each time multiplied by 31.
pub open spec fn hash_bytes(b: Seq<u8>) -> u64
    decreases b.len(),
{
    if b.len() == 0 {
        0
    } else {
        hash_bytes(b.drop_last()).wrapping_mul(31).wrapping_add(b.last() as u64)
    }
}

/// As many numbers as 64 bits can tell apart.
pub open spec fn hash_range() -> int {
    0x1_0000_0000_0000_0000
}

/// The number of two strings one behind the other comes from theirs: the first
/// is multiplied by 31 for every byte of the second, and the second is added.
/// Nothing comes to zero, and a byte alone to itself.
pub proof fn law_hash_of_joined(a: Seq<char>, b: Seq<char>)
    ensures
        hash_bytes(Seq::empty()) == 0,
        forall|x: u8| #[trigger] hash_bytes(seq![x]) == x,
        hash_bytes(encode_utf8(a + b)) == (hash_bytes(encode_utf8(a)) * pow(
            31,
            encode_utf8(b).len(),
        ) + hash_bytes(encode_utf8(b))) % hash_range(),
{
    assert forall|x: u8| #[trigger] hash_bytes(seq![x]) == x by {
        assert(seq![x].drop_last() =~= Seq::empty());
        assert(hash_bytes(seq![x].drop_last()) == 0);
    }
    lemma_utf8_joined(a, b);
    lemma_hash_joined(encode_utf8(a), encode_utf8(b));
}

proof fn lemma_utf8_joined(a: Seq<char>, b: Seq<char>)
    ensures
        encode_utf8(a + b) == encode_utf8(a) + encode_utf8(b),
    decreases a.len(),
{
    if a.len() == 0 {
        assert(a + b =~= b);
        assert(encode_utf8(a) + encode_utf8(b) =~= encode_utf8(b));
    } else {
        lemma_utf8_joined(a.drop_first(), b);
        assert((a + b).drop_first() =~= a.drop_first() + b);
        assert(encode_utf8(a + b) =~= encode_utf8(a) + encode_utf8(b));
    }
}

proof fn lemma_hash_joined(a: Seq<u8>, b: Seq<u8>)
    ensures
        hash_bytes(a + b) == (hash_bytes(a) * pow(31, b.len()) + hash_bytes(b)) % hash_range(),
    decreases b.len(),
{
    let h = hash_bytes(a) as int;
    if b.len() == 0 {
        assert(a + b =~= a);
        lemma_pow0(31);
        lemma_small_mod(h as nat, hash_range() as nat);
    } else {
        let front = b.drop_last();
        let x = b.last() as int;
        let g = hash_bytes(front) as int;
        let p = pow(31, front.len());
        lemma_hash_joined(a, front);
        lemma_pow1(31);
        lemma_pow_adds(31, front.len(), 1);
        assert((a + b).drop_last() =~= a + front);
        lemma_hash_step(hash_bytes(a + front), b.last());
        lemma_hash_step(hash_bytes(front), b.last());
        let whole = h * p + g;
        lemma_mod_step(whole, x);
        lemma_mod_step(g, x);
        assert(hash_bytes(a + b) == (whole * 31 + x) % hash_range());
        lemma_small_mod(g as nat, hash_range() as nat);
        assert(hash_bytes(b) == (g * 31 + x) % hash_range());
        let left = h * pow(31, b.len());
        assert(left == h * p * 31) by (nonlinear_arith)
            requires
                left == h * (p * 31),
        ;
        lemma_add_mod_noop_right(left, g * 31 + x, hash_range());
        assert(whole * 31 + x == left + (g * 31 + x)) by (nonlinear_arith)
            requires
                whole == h * p + g,
                left == h * p * 31,
        ;
    }
}

/// One byte further, as a remainder.
proof fn lemma_hash_step(h: u64, x: u8)
    ensures
        h.wrapping_mul(31).wrapping_add(x as u64) == (h * 31 + x) % hash_range(),
{
    lemma_add_mod_noop(h * 31, x as int, hash_range());
    lemma_small_mod(x as nat, hash_range() as nat);
}

/// A number may be taken as a remainder before it is carried one byte further.
proof fn lemma_mod_step(n: int, x: int)
    ensures
        ((n % hash_range()) * 31 + x) % hash_range() == (n * 31 + x) % hash_range(),
{
    lemma_mul_mod_noop_left(n, 31, hash_range());
    lemma_add_mod_noop_right(x, (n % hash_range()) * 31, hash_range());
    lemma_add_mod_noop_right(x, n * 31, hash_range());
}

/// The partition that a group belongs to.
pub open spec fn group_partition(group: Seq<char>, partitions: i32) -> i32 {
    (hash_bytes(encode_utf8(group)) % (partitions as u64)) as i32
}

/// A group belongs to one of the partitions.
pub proof fn law_group_has_a_partition(group: Seq<char>, partitions: i32)
    requires
        partitions > 0,
    ensures
        0 <= group_partition(group, partitions) < partitions,
{
}

/// The number that a string's bytes come to.
pub fn stable_hash(s: &str) -> (r: u64)
    ensures
        r == hash_bytes(encode_utf8(s@)),
{
    let b = s.as_bytes();
    let mut h: u64 = 0;
    let mut i: usize = 0;
    while i < b.len()
        invariant
            i <= b@.len(),
            h == hash_bytes(b@.take(i as int)),
        decreases b@.len() - i,
    {
        assert(b@.take(i as int + 1).drop_last() =~= b@.take(i as int));
        h = h.wrapping_mul(31).wrapping_add(b[i] as u64);
        i = i + 1;
    }
    assert(b@.take(i as int) =~= b@);
    h
}

/// Encodes the value of a record.
pub fn encode_offset(topic: &str, partition: i32, offset: i64, metadata: Option<&str>) -> (r: Bytes)
    ensures
        bytes_view(r) == enc_offset(
            topic@,
            partition,
            offset,
            crate::protocol::primitive::opt_str(metadata),
        ),
{
    let mut e = Encoder::new();
    e.put_string(topic);
    e.put_i32(partition);
    e.put_i64(offset);
    e.put_nullable_string(metadata);
    assert(e@ =~= enc_offset(
        topic@,
        partition,
        offset,
        crate::protocol::primitive::opt_str(metadata),
    ));
    e.into_bytes()
}

/// Decodes the value of a record.
pub fn decode_offset(data: &Bytes) -> (r: Option<(String, i32, i64, Option<String>)>)
    ensures
        ({
            let (v, c) = sp_offset(cursor(bytes_view(*data)));
            match r {
                Some(x) => c.err is None && x.model() == v,
                None => c.err is Some,
            }
        }),
{
    let mut d = Decoder::new(data.clone());
    let topic = match d.get_string() {
        Ok(v) => v,
        Err(_) => {
            return None;
        },
    };
    let partition = match d.get_i32() {
        Ok(v) => v,
        Err(_) => {
            return None;
        },
    };
    let offset = match d.get_i64() {
        Ok(v) => v,
        Err(_) => {
            return None;
        },
    };
    let metadata = match d.get_nullable_string() {
        Ok(v) => v,
        Err(_) => {
            return None;
        },
    };
    Some((topic, partition, offset, metadata))
}

/// What it comes to that a commit is appended to a partition of its topic. One
/// whose sizes do not fit their fields is refused.
pub open spec fn commit_outcome(
    m: MetaView,
    target: i32,
    key: OffsetKey,
    value: OffsetValue,
    writes: Seq<WriteModel>,
    now: i64,
) -> AppendOutcome {
    let b = commit_batch(key, value, 0, now);
    if batch_fits(b, Compression::Plain) {
        records_appended(m, CONSUMER_OFFSETS_TOPIC@, target, seq![one_batch(b)], writes, now)
    } else {
        AppendOutcome {
            meta: m,
            writes,
            offsets: Err(RecordsError::Storage(StorageError::TooLarge)),
        }
    }
}

proof fn lemma_commit_written(
    st: AppendState,
    key: OffsetKey,
    value: OffsetValue,
    now: i64,
)
    requires
        st.err is None,
        append_all(st, seq![one_batch(commit_batch(key, value, 0, now))], now).err is None,
    ensures
        ({
            let ws = append_all(
                st,
                seq![one_batch(commit_batch(key, value, 0, now))],
                now,
            ).writes;
            &&& ws.len() == st.writes.len() + 1
            &&& ws.drop_last() == st.writes
            &&& ws.last().log == commit_bytes(key, value, st.log.high_watermark, now)
        }),
{
    reveal(log_append);
    let b = commit_batch(key, value, 0, now);
    lemma_one_batch(st, b, now);
    let next = append_step(st, b, now);
    let hw = st.log.high_watermark;
    assert(0i16 & 7i16 == 0i16) by (bit_vector);
    assert(algorithm(b.attributes) == Compression::Plain);
    assert(renumbered(b.records) =~= b.records);
    assert(rebased(b, hw) == commit_batch(key, value, hw, now));
    assert(rebased_raw(b, hw) == commit_bytes(key, value, hw, now));
    assert(next.writes.drop_last() =~= st.writes);
}

/// A commit that was appended survives a restart: what is written for it, behind
/// what the group's partition held before, recovers the offsets from before with
/// the commit among them.
pub proof fn law_appended_commit_is_recovered(
    m: MetaView,
    target: i32,
    key: OffsetKey,
    value: OffsetValue,
    writes: Seq<WriteModel>,
    now: i64,
    s: Seq<u8>,
    before: RunModel,
    run: RunModel,
)
    requires
        all_parse(s),
        reads(s, before),
        strings_fit(key.1, value.1),
        commit_bytes(key, value, 0, now).len() <= i32::MAX,
        commit_outcome(m, target, key, value, writes, now).offsets is Ok,
        reads(s + commit_outcome(m, target, key, value, writes, now).writes.last().log, run),
    ensures
        ({
            let out = commit_outcome(m, target, key, value, writes, now).writes;
            &&& out.len() == writes.len() + 1
            &&& out.drop_last() == writes
            &&& after_batches(Map::empty(), run.batches) == after_batches(
                Map::empty(),
                before.batches,
            ).insert(key, value)
            &&& all_parse(s + out.last().log)
        }),
{
    let l = m.logs[(CONSUMER_OFFSETS_TOPIC@, target)];
    lemma_commit_written(append_start(l, writes), key, value, now);
    let a = commit_batch(key, value, 0, now);
    let b = commit_batch(key, value, l.high_watermark, now);
    assert(a.records == b.records);
    lemma_batch_len(a, enc_records(a.records));
    lemma_batch_len(b, enc_records(b.records));
    law_commit_is_recovered(s, before, key, value, l.high_watermark, now, run);
}

/// The committed offsets.
pub struct OffsetStore {
    pub offsets_topic_partitions: i32,
    /// The commits, no key more than once.
    pub cache: Vec<CommittedOffset>,
}

impl View for OffsetStore {
    type V = Map<OffsetKey, OffsetValue>;

    open spec fn view(&self) -> Map<OffsetKey, OffsetValue> {
        commits(self.cache.model())
    }
}

impl OffsetStore {
    /// Whether no key is remembered twice, and there is a partition for commits.
    pub open spec fn wf(&self) -> bool {
        distinct_commits(self.cache.model()) && self.offsets_topic_partitions > 0
    }

    /// Nothing committed.
    pub fn new() -> (r: Self)
        ensures
            r.wf(),
            r@ == Map::<OffsetKey, OffsetValue>::empty(),
            r.offsets_topic_partitions == DEFAULT_OFFSETS_PARTITIONS,
    {
        let r = OffsetStore {
            offsets_topic_partitions: DEFAULT_OFFSETS_PARTITIONS,
            cache: Vec::new(),
        };
        assert(r@ =~= Map::empty());
        r
    }

    /// The partition that a group belongs to.
    pub fn coordinator_partition(&self, group_id: &str) -> (r: i32)
        requires
            self.offsets_topic_partitions > 0,
        ensures
            r == group_partition(group_id@, self.offsets_topic_partitions),
            0 <= r < self.offsets_topic_partitions,
    {
        let h = stable_hash(group_id);
        (h % (self.offsets_topic_partitions as u64)) as i32
    }

    /// Creates the internal topic, if there is none. What is returned are the
    /// partitions that have to be opened.
    pub fn ensure_created(&self, metadata: &mut MetadataManager) -> (r: Vec<i32>)
        requires
            old(metadata).wf(),
        ensures
            final(metadata).wf(),
            final(metadata).config == old(metadata).config,
            final(metadata)@ == with_topic(old(metadata)@, CONSUMER_OFFSETS_TOPIC@, true),
            r@ == missing(
                old(metadata)@,
                CONSUMER_OFFSETS_TOPIC@,
                self.offsets_topic_partitions as int,
            ),
    {
        metadata.create_internal_topic(CONSUMER_OFFSETS_TOPIC, self.offsets_topic_partitions)
    }

    /// The place of a key among the commits.
    fn find(&self, group_id: &str, topic: &str, partition: i32) -> (r: Option<usize>)
        ensures
            ({
                let key = (group_id@, topic@, partition);
                match r {
                    Some(i) => {
                        &&& i < self.cache@.len()
                        &&& self.cache@[i as int].model().0 == key
                        &&& self@.get(key) == Some(self.cache@[i as int].model().1)
                    },
                    None => !self@.contains_key(key),
                }
            }),
    {
        let g = group_id.to_string();
        let t = topic.to_string();
        let ghost key = (group_id@, topic@, partition);
        let ghost list = self.cache.model();
        let mut i: usize = self.cache.len();
        assert(list.take(i as int) =~= list);
        while i > 0
            invariant
                i <= self.cache@.len(),
                list == self.cache.model(),
                key == (group_id@, topic@, partition),
                g@ == group_id@,
                t@ == topic@,
                latest_commit(list, key) == latest_commit(list.take(i as int), key),
            decreases i,
        {
            let e = &self.cache[i - 1];
            assert(list.take(i as int).last() == e.model());
            assert(list.take(i as int).drop_last() =~= list.take(i - 1));
            if e.partition == partition && e.group == g && e.topic == t {
                return Some(i - 1);
            }
            i = i - 1;
        }
        assert(list.take(0) =~= Seq::empty());
        None
    }

    /// Remembers a commit.
    fn remember(
        &mut self,
        group_id: &str,
        topic: &str,
        partition: i32,
        offset: i64,
        metadata: Option<String>,
    )
        ensures
            final(self)@ == old(self)@.insert(
                (group_id@, topic@, partition),
                (offset, metadata.model()),
            ),
            final(self).offsets_topic_partitions == old(self).offsets_topic_partitions,
            old(self).wf() ==> final(self).wf(),
    {
        let ghost key = (group_id@, topic@, partition);
        let ghost before = self.cache.model();
        let ghost value = (offset, metadata.model());
        match self.find(group_id, topic, partition) {
            Some(i) => {
                self.cache.remove(i);
                proof {
                    let without = before.remove(i as int);
                    assert(self.cache.model() =~= without);
                    assert forall|k: OffsetKey| k != key implies latest_commit(without, k)
                        == latest_commit(before, k) by {
                        lemma_commit_removed(before, i as int, k);
                    }
                    assert(commits(without).insert(key, value) =~= commits(before).insert(
                        key,
                        value,
                    ));
                    if distinct_commits(before) {
                        lemma_removed_is_gone(before, i as int);
                    }
                }
            },
            None => {
                proof {
                    lemma_latest_is_there(before, key);
                }
            },
        }
        let ghost list = self.cache.model();
        let e = CommittedOffset {
            group: group_id.to_string(),
            topic: topic.to_string(),
            partition,
            offset,
            metadata,
        };
        self.cache.push(e);
        proof {
            assert(self.cache.model() =~= list.push(e.model()));
            lemma_commit_pushed(list, e.model());
        }
    }

    /// Recovers the commits from what the partitions of the internal topic hold,
    /// in place of those remembered.
    pub fn recover(&mut self, partitions: &Vec<Bytes>)
        ensures
            exists|read: Seq<RunModel>|
                all_read(partitions.model(), read) && final(self)@ == #[trigger] after_runs(
                    Map::empty(),
                    read,
                ),
            final(self).offsets_topic_partitions == old(self).offsets_topic_partitions,
            old(self).wf() ==> final(self).wf(),
    {
        let runs = read_runs(partitions);
        self.recover_read(&runs);
    }

    /// Recovers the commits from what was read of the partitions of the internal
    /// topic, in place of those remembered.
    pub fn recover_read(&mut self, partitions: &Vec<BatchRun>)
        ensures
            final(self)@ == after_runs(Map::empty(), partitions.model()),
            final(self).offsets_topic_partitions == old(self).offsets_topic_partitions,
            old(self).wf() ==> final(self).wf(),
    {
        self.cache = Vec::new();
        assert(self@ =~= Map::empty());
        let ghost runs = partitions.model();
        let mut i: usize = 0;
        assert(runs.take(0) =~= Seq::empty());
        while i < partitions.len()
            invariant
                i <= partitions@.len(),
                runs == partitions.model(),
                self@ == after_runs(Map::empty(), runs.take(i as int)),
                self.offsets_topic_partitions == old(self).offsets_topic_partitions,
                old(self).wf() ==> self.wf(),
            decreases partitions@.len() - i,
        {
            proof {
                assert(runs.take(i as int + 1).drop_last() =~= runs.take(i as int));
                assert(runs.take(i as int + 1).last() == runs[i as int]);
            }
            self.recover_batches(&partitions[i].batches);
            i = i + 1;
        }
        assert(runs.take(i as int) =~= runs);
    }

    fn recover_batches(&mut self, batches: &Vec<RecordBatch>)
        ensures
            final(self)@ == after_batches(old(self)@, batches.model()),
            final(self).offsets_topic_partitions == old(self).offsets_topic_partitions,
            old(self).wf() ==> final(self).wf(),
    {
        let ghost bs = batches.model();
        let mut b: usize = 0;
        assert(bs.take(0) =~= Seq::empty());
        while b < batches.len()
            invariant
                b <= batches@.len(),
                bs == batches.model(),
                self@ == after_batches(old(self)@, bs.take(b as int)),
                self.offsets_topic_partitions == old(self).offsets_topic_partitions,
                old(self).wf() ==> self.wf(),
            decreases batches@.len() - b,
        {
            let batch = &batches[b];
            let ghost before = self@;
            let ghost rs = batch.records.model();
            let mut i: usize = 0;
            assert(rs.take(0) =~= Seq::empty());
            while i < batch.records.len()
                invariant
                    i <= batch.records@.len(),
                    rs == batch.records.model(),
                    self@ == after_records(before, rs.take(i as int)),
                    self.offsets_topic_partitions == old(self).offsets_topic_partitions,
                    old(self).wf() ==> self.wf(),
                decreases batch.records@.len() - i,
            {
                proof {
                    assert(rs.take(i as int + 1).drop_last() =~= rs.take(i as int));
                    assert(rs.take(i as int + 1).last() == rs[i as int]);
                }
                self.recover_record(&batch.records[i]);
                i = i + 1;
            }
            proof {
                assert(rs.take(i as int) =~= rs);
                assert(bs.take(b as int + 1).drop_last() =~= bs.take(b as int));
                assert(bs.take(b as int + 1).last() == bs[b as int]);
            }
            b = b + 1;
        }
        assert(bs.take(b as int) =~= bs);
    }

    fn recover_record(&mut self, record: &Record)
        ensures
            final(self)@ == after_record(old(self)@, record.model()),
            final(self).offsets_topic_partitions == old(self).offsets_topic_partitions,
            old(self).wf() ==> final(self).wf(),
    {
        let group = match &record.key {
            Some(k) => match string_from_utf8(slice_to_vec(buf::bytes_slice(k))) {
                Some(g) => g,
                None => {
                    return;
                },
            },
            None => {
                return;
            },
        };
        match &record.value {
            Some(v) => match decode_offset(v) {
                Some((topic, partition, offset, metadata)) => {
                    self.remember(group.as_str(), topic.as_str(), partition, offset, metadata);
                },
                None => {},
            },
            None => {},
        }
    }

    /// Remembers a commit and appends it to the internal topic, to the group's
    /// partition, which is returned. What is added to `writes` is to be written
    /// there.
    pub fn commit(
        &mut self,
        metadata: &mut MetadataManager,
        group_id: &str,
        topic: &str,
        partition: i32,
        offset: i64,
        note: Option<String>,
        now: i64,
        writes: &mut Vec<SegmentWrite>,
    ) -> (r: core::result::Result<i32, RecordsError>)
        requires
            old(self).wf(),
            old(metadata).wf(),
        ensures
            final(self).wf(),
            final(self).offsets_topic_partitions == old(self).offsets_topic_partitions,
            final(self)@ == old(self)@.insert(
                (group_id@, topic@, partition),
                (offset, note.model()),
            ),
            final(metadata).wf(),
            final(metadata).config == old(metadata).config,
            ({
                let target = group_partition(group_id@, old(self).offsets_topic_partitions);
                let out = commit_outcome(
                    old(metadata)@,
                    target,
                    (group_id@, topic@, partition),
                    (offset, note.model()),
                    old(writes).model(),
                    now,
                );
                &&& final(metadata)@ == out.meta
                &&& final(writes).model() == out.writes
                &&& match r {
                    Ok(p) => p == target && out.offsets is Ok,
                    Err(e) => out.offsets == Err::<Seq<(i64, i64)>, RecordsError>(e),
                }
            }),
    {
        let target = self.coordinator_partition(group_id);
        let value = encode_offset(topic, partition, offset, as_opt_str(&note));
        let headers: Vec<(String, Option<Bytes>)> = Vec::new();
        assert(headers.model() =~= Seq::empty());
        let record = Record {
            attributes: 0,
            timestamp_delta: 0,
            offset_delta: 0,
            key: Some(buf::bytes_copy(group_id.as_bytes())),
            value: Some(value),
            headers,
        };
        let ghost key = (group_id@, topic@, partition);
        let ghost val = (offset, note.model());
        assert(record.model() == commit_record(key, val));
        let mut records: Vec<Record> = Vec::new();
        records.push(record);
        assert(records.model() =~= seq![commit_record(key, val)]);
        self.remember(group_id, topic, partition, offset, note);
        let ghost b = commit_batch(key, val, 0, now);
        let raw = match RecordBatch::try_serialize(
            0,
            &records,
            Compression::Plain,
            now,
            0,
            0,
            0,
            0,
        ) {
            Some(raw) => raw,
            None => {
                return Err(RecordsError::Storage(StorageError::TooLarge));
            },
        };
        proof {
            lemma_batch_len(b, enc_records(b.records));
            law_batch_is_read(bytes_view(raw), b);
        }
        let mut batches: Vec<Bytes> = Vec::new();
        batches.push(raw);
        let ghost runs = batches.model();
        proof {
            assert(runs =~= seq![bytes_view(raw)]);
            assert forall|read: Seq<RunModel>| all_read(runs, read) implies read == seq![
                one_batch(b),
            ] by {
                assert(reads(runs[0], read[0]));
                assert(read =~= seq![one_batch(b)]);
            }
        }
        match metadata.append_records(CONSUMER_OFFSETS_TOPIC, target, &batches, now, writes) {
            Ok(_) => Ok(target),
            Err(e) => Err(e),
        }
    }

    /// The offset that a group committed for a partition, and the note beside it.
    pub fn fetch_offset_with_meta(&self, group_id: &str, topic: &str, partition: i32) -> (r: Option<
        (i64, Option<String>),
    >)
        ensures
            r.model() == self@.get((group_id@, topic@, partition)),
    {
        match self.find(group_id, topic, partition) {
            Some(i) => {
                let e = &self.cache[i];
                let note = match &e.metadata {
                    Some(m) => Some(m.clone()),
                    None => None,
                };
                Some((e.offset, note))
            },
            None => None,
        }
    }

    /// The offset that a group committed for a partition.
    pub fn fetch_offset(&self, group_id: &str, topic: &str, partition: i32) -> (r: Option<i64>)
        ensures
            r == match self@.get((group_id@, topic@, partition)) {
                Some(v) => Some(v.0),
                None => None,
            },
    {
        match self.find(group_id, topic, partition) {
            Some(i) => Some(self.cache[i].offset),
            None => None,
        }
    }

    /// The groups that committed an offset, each once.
    pub fn groups_with_offsets(&self) -> (r: Vec<String>)
        ensures
            r.model().no_duplicates(),
            forall|g: Seq<char>| #[trigger]
                r.model().contains(g) <==> exists|i: int|
                    0 <= i < self.cache@.len() && (#[trigger] self.cache@[i]).group@ == g,
    {
        let mut out: Vec<String> = Vec::new();
        let mut i: usize = 0;
        while i < self.cache.len()
            invariant
                i <= self.cache@.len(),
                out.model().no_duplicates(),
                forall|g: Seq<char>| #[trigger]
                    out.model().contains(g) <==> exists|j: int|
                        0 <= j < i && (#[trigger] self.cache@[j]).group@ == g,
            decreases self.cache@.len() - i,
        {
            let g = &self.cache[i].group;
            let ghost had = out.model();
            if !has_string(&out, g) {
                out.push(g.clone());
                assert(out.model() =~= had.push(g@));
            }
            proof {
                assert forall|x: Seq<char>| #[trigger] out.model().contains(x) <==> exists|j: int|
                    0 <= j < i + 1 && (#[trigger] self.cache@[j]).group@ == x by {
                    if had.contains(x) {
                        let k = choose|k: int| 0 <= k < had.len() && had[k] == x;
                        assert(out.model()[k] == x);
                        let j = choose|j: int|
                            0 <= j < i && (#[trigger] self.cache@[j]).group@ == x;
                        assert(self.cache@[j].group@ == x);
                    }
                    if x == g@ {
                        assert(self.cache@[i as int].group@ == x);
                        if !had.contains(x) {
                            assert(out.model()[had.len() as int] == x);
                        }
                    }
                    if out.model().contains(x) && x != g@ {
                        let k = choose|k: int| 0 <= k < out.model().len() && out.model()[k] == x;
                        assert(had[k] == x);
                    }
                    if exists|j: int| 0 <= j < i + 1 && (#[trigger] self.cache@[j]).group@ == x {
                        let j = choose|j: int|
                            0 <= j < i + 1 && (#[trigger] self.cache@[j]).group@ == x;
                        if j < i {
                            assert(had.contains(x));
                        }
                    }
                }
            }
            i = i + 1;
        }
        out
    }
}

/// Whether a string is among others.
pub fn has_string(v: &Vec<String>, s: &String) -> (r: bool)
    ensures
        r == v.model().contains(s@),
{
    let mut i: usize = 0;
    while i < v.len()
        invariant
            i <= v@.len(),
            forall|j: int| 0 <= j < i ==> #[trigger] v.model()[j] != s@,
        decreases v@.len() - i,
    {
        if v[i] == *s {
            assert(v.model()[i as int] == s@);
            return true;
        }
        i = i + 1;
    }
    false
}

} // verus!
