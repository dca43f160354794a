//! Producing and fetching records.

use bytes::Bytes;
use vstd::prelude::*;

use crate::buf;
use crate::buf::bytes_view;
use crate::protocol::error_codes;
use crate::protocol::messages::fetch::{
    FetchPartition, FetchRequest, FetchResponse, FetchResponsePartition, FetchResponseTopic,
    FetchTopicModel,
};
use crate::protocol::messages::produce::{
    ProducePartitionData, ProducePartitionModel, ProduceResponse, ProduceResponsePartition,
    ProduceResponseTopic, ProduceTopicData, ProduceTopicModel,
};
use crate::protocol::primitive::{DecodeError, Modeled};
use crate::protocol::recordbatch::{frame_len, parsed, unsettled, BatchModel};
use crate::protocol::run::{
    all_read, law_batch_is_read, one_batch, read_runs, reads, BatchRun, RunModel,
};
use crate::server::metadata::{
    offset_pairs, position_says, read_from_tail, records_appended, MetaView, PartitionKey,
};
use crate::server::state::{
    add_writes, writes_of, PartitionWrite, PartitionWriteModel, RequestHandler,
};
use crate::server::topics::has_partition;
use crate::storage::log::{
    append_start, append_step, held_at, law_appended_is_in_reach, law_held_is_read,
    law_offsets_are_consecutive, law_read_gives_back_append, lemma_held_is_found, lemma_one_batch,
    log_append, log_read, log_sound, rebased_raw,
};
use crate::storage::scan::{frame_base, selected};
use crate::storage::segment::SegmentWrite;

verus! {

// ---------------------------------------------------------------------------
// What is produced

/// What was read of the records for a partition.
#[derive(Debug)]
pub struct ReadPartition {
    pub partition_index: i32,
    pub runs: Vec<BatchRun>,
}

/// What was read of the records for the partitions of a topic.
#[derive(Debug)]
pub struct ReadTopic {
    pub topic: String,
    pub partitions: Vec<ReadPartition>,
}

/// The mathematical value of a [`ReadPartition`].
pub struct ReadPartitionModel {
    pub partition_index: i32,
    pub runs: Seq<RunModel>,
}

/// The mathematical value of a [`ReadTopic`].
pub struct ReadTopicModel {
    pub topic: Seq<char>,
    pub partitions: Seq<ReadPartitionModel>,
}

impl Modeled for ReadPartition {
    type M = ReadPartitionModel;

    open spec fn model(&self) -> ReadPartitionModel {
        ReadPartitionModel { partition_index: self.partition_index, runs: self.runs.model() }
    }
}

impl Modeled for ReadTopic {
    type M = ReadTopicModel;

    open spec fn model(&self) -> ReadTopicModel {
        ReadTopicModel { topic: self.topic@, partitions: self.partitions.model() }
    }
}

/// Whether that is what was read of what a request brings for partitions.
pub open spec fn partitions_read(
    ps: Seq<ProducePartitionModel>,
    read: Seq<ReadPartitionModel>,
) -> bool {
    &&& read.len() == ps.len()
    &&& forall|i: int|
        0 <= i < ps.len() ==> (#[trigger] read[i]).partition_index == ps[i].partition_index
            && all_read(seq![ps[i].records], read[i].runs)
}

/// Whether that is what was read of what a request brings.
pub open spec fn topics_read(ts: Seq<ProduceTopicModel>, read: Seq<ReadTopicModel>) -> bool {
    &&& read.len() == ts.len()
    &&& forall|i: int|
        0 <= i < ts.len() ==> (#[trigger] read[i]).topic == ts[i].topic && partitions_read(
            ts[i].partitions,
            read[i].partitions,
        )
}

/// The topics and logs in the course of a produce request, and what is to be
/// written.
pub struct ProduceState {
    pub meta: MetaView,
    pub writes: Seq<PartitionWriteModel>,
}

/// A partition that took nothing.
pub open spec fn not_produced(partition_index: i32, error_code: i16) -> ProduceResponsePartition {
    ProduceResponsePartition {
        partition_index,
        error_code,
        base_offset: -1i64,
        log_append_time_ms: -1i64,
        log_start_offset: -1i64,
    }
}

/// Whether a request asks for a kind of acknowledgement that there is.
pub open spec fn acks_known(acks: i16) -> bool {
    acks == 0 || acks == 1 || acks == -1
}

/// The answer for a partition. The offset is that of the first record of the
/// last batch.
pub open spec fn produced(
    m: MetaView,
    acks: i16,
    topic: Seq<char>,
    p: ReadPartitionModel,
    now: i64,
) -> ProduceResponsePartition {
    if !acks_known(acks) {
        not_produced(p.partition_index, error_codes::INVALID_REQUIRED_ACKS)
    } else {
        match records_appended(
            m,
            topic,
            p.partition_index,
            p.runs,
            Seq::empty(),
            now,
        ).offsets {
            Ok(offsets) => ProduceResponsePartition {
                partition_index: p.partition_index,
                error_code: error_codes::NONE,
                base_offset: if offsets.len() == 0 {
                    0
                } else {
                    offsets.last().0
                },
                log_append_time_ms: now,
                log_start_offset: 0,
            },
            Err(_) => not_produced(
                p.partition_index,
                error_codes::UNKNOWN_TOPIC_OR_PARTITION,
            ),
        }
    }
}

/// The state after a partition.
pub open spec fn after_partition(
    st: ProduceState,
    acks: i16,
    topic: Seq<char>,
    p: ReadPartitionModel,
    now: i64,
) -> ProduceState {
    if !acks_known(acks) {
        st
    } else {
        let out = records_appended(
            st.meta,
            topic,
            p.partition_index,
            p.runs,
            Seq::empty(),
            now,
        );
        ProduceState {
            meta: out.meta,
            writes: st.writes + writes_of(topic, p.partition_index, out.writes),
        }
    }
}

/// The state after partitions.
pub open spec fn after_partitions(
    st: ProduceState,
    acks: i16,
    topic: Seq<char>,
    ps: Seq<ReadPartitionModel>,
    now: i64,
) -> ProduceState
    decreases ps.len(),
{
    if ps.len() == 0 {
        st
    } else {
        after_partition(
            after_partitions(st, acks, topic, ps.drop_last(), now),
            acks,
            topic,
            ps.last(),
            now,
        )
    }
}

/// The state after topics.
pub open spec fn after_topics(
    st: ProduceState,
    acks: i16,
    ts: Seq<ReadTopicModel>,
    now: i64,
) -> ProduceState
    decreases ts.len(),
{
    if ts.len() == 0 {
        st
    } else {
        after_partitions(
            after_topics(st, acks, ts.drop_last(), now),
            acks,
            ts.last().topic,
            ts.last().partitions,
            now,
        )
    }
}

/// Whether the answers for the partitions of a topic are right: each is given
/// in the state that those before it left.
pub open spec fn partitions_answered(
    st: ProduceState,
    acks: i16,
    topic: Seq<char>,
    ps: Seq<ReadPartitionModel>,
    now: i64,
    rs: Seq<ProduceResponsePartition>,
) -> bool {
    &&& rs.len() == ps.len()
    &&& forall|i: int|
        0 <= i < ps.len() ==> #[trigger] rs[i] == produced(
            after_partitions(st, acks, topic, ps.take(i), now).meta,
            acks,
            topic,
            ps[i],
            now,
        )
}

/// Whether the answers for topics are right.
pub open spec fn topics_answered(
    st: ProduceState,
    acks: i16,
    ts: Seq<ReadTopicModel>,
    now: i64,
    rs: Seq<ProduceResponseTopic>,
) -> bool {
    &&& rs.len() == ts.len()
    &&& forall|i: int|
        0 <= i < ts.len() ==> (#[trigger] rs[i]).topic@ == ts[i].topic && partitions_answered(
            after_topics(st, acks, ts.take(i), now),
            acks,
            ts[i].topic,
            ts[i].partitions,
            now,
            rs[i].partitions@,
        )
}

/// A partition that does not exist is answered so, and nothing is written.
pub proof fn law_unknown_partition_is_refused(
    st: ProduceState,
    acks: i16,
    topic: Seq<char>,
    p: ReadPartitionModel,
    now: i64,
)
    requires
        !st.meta.logs.contains_key((topic, p.partition_index)),
    ensures
        produced(st.meta, acks, topic, p, now).error_code == if acks_known(acks) {
            error_codes::UNKNOWN_TOPIC_OR_PARTITION
        } else {
            error_codes::INVALID_REQUIRED_ACKS
        },
        after_partition(st, acks, topic, p, now) == st,
{
    assert(st.writes + writes_of(topic, p.partition_index, Seq::empty()) =~= st.writes);
}

/// A request for an acknowledgement that there is not changes nothing.
pub proof fn law_bad_acks_write_nothing(
    st: ProduceState,
    acks: i16,
    ts: Seq<ReadTopicModel>,
    now: i64,
)
    requires
        !acks_known(acks),
    ensures
        after_topics(st, acks, ts, now) == st,
    decreases ts.len(),
{
    if ts.len() > 0 {
        law_bad_acks_write_nothing(st, acks, ts.drop_last(), now);
        lemma_bad_acks(st, acks, ts.last().topic, ts.last().partitions, now);
    }
}

proof fn lemma_bad_acks(
    st: ProduceState,
    acks: i16,
    topic: Seq<char>,
    ps: Seq<ReadPartitionModel>,
    now: i64,
)
    requires
        !acks_known(acks),
    ensures
        after_partitions(st, acks, topic, ps, now) == st,
    decreases ps.len(),
{
    if ps.len() > 0 {
        lemma_bad_acks(st, acks, topic, ps.drop_last(), now);
    }
}

// ---------------------------------------------------------------------------
// What is fetched

/// The answer for a partition.
pub struct FetchAnswer {
    pub partition_index: i32,
    pub error_code: i16,
    pub high_watermark: i64,
    pub log_start_offset: i64,
    pub records: Seq<u8>,
}

/// How many bytes of a partition a request may be given: at least one.
pub open spec fn partition_limit(p: FetchPartition) -> int {
    if p.partition_max_bytes > 1 {
        p.partition_max_bytes as int
    } else {
        1
    }
}

/// The answer for a partition, out of the end of a segment's log.
pub open spec fn fetched(
    m: MetaView,
    topic: Seq<char>,
    p: FetchPartition,
    tail: Seq<u8>,
) -> FetchAnswer {
    match m.logs.get((topic, p.partition_index)) {
        None => FetchAnswer {
            partition_index: p.partition_index,
            error_code: error_codes::UNKNOWN_TOPIC_OR_PARTITION,
            high_watermark: -1i64,
            log_start_offset: -1i64,
            records: Seq::empty(),
        },
        Some(l) => if p.fetch_offset > l.high_watermark {
            FetchAnswer {
                partition_index: p.partition_index,
                error_code: error_codes::OFFSET_OUT_OF_RANGE,
                high_watermark: l.high_watermark,
                log_start_offset: l.log_start_offset,
                records: Seq::empty(),
            }
        } else {
            FetchAnswer {
                partition_index: p.partition_index,
                error_code: error_codes::NONE,
                high_watermark: l.high_watermark,
                log_start_offset: l.log_start_offset,
                records: read_from_tail(l, p.fetch_offset, partition_limit(p), tail),
            }
        },
    }
}

/// Whether a response partition says what the answer is.
pub open spec fn says_fetched(r: FetchResponsePartition, a: FetchAnswer) -> bool {
    &&& r.partition_index == a.partition_index
    &&& r.error_code == a.error_code
    &&& r.high_watermark == a.high_watermark
    &&& r.last_stable_offset == a.high_watermark
    &&& r.log_start_offset == a.log_start_offset
    &&& r.aborted_transactions@.len() == 0
    &&& bytes_view(r.records) == a.records
}

/// The bytes handed in for a partition; none if none were.
pub open spec fn tail_at(tails: Seq<Seq<Seq<u8>>>, i: int, j: int) -> Seq<u8> {
    if 0 <= i < tails.len() && 0 <= j < tails[i].len() {
        tails[i][j]
    } else {
        Seq::empty()
    }
}

/// Whether the answers for the partitions of a topic are right.
pub open spec fn partitions_fetched(
    m: MetaView,
    topic: Seq<char>,
    ps: Seq<FetchPartition>,
    tails: Seq<Seq<Seq<u8>>>,
    i: int,
    rs: Seq<FetchResponsePartition>,
) -> bool {
    &&& rs.len() == ps.len()
    &&& forall|j: int|
        0 <= j < ps.len() ==> says_fetched(
            #[trigger] rs[j],
            fetched(m, topic, ps[j], tail_at(tails, i, j)),
        )
}

/// Whether the answers for topics are right.
pub open spec fn topics_fetched(
    m: MetaView,
    ts: Seq<FetchTopicModel>,
    tails: Seq<Seq<Seq<u8>>>,
    rs: Seq<FetchResponseTopic>,
) -> bool {
    &&& rs.len() == ts.len()
    &&& forall|i: int|
        0 <= i < ts.len() ==> (#[trigger] rs[i]).topic@ == ts[i].topic && partitions_fetched(
            m,
            ts[i].topic,
            ts[i].partitions,
            tails,
            i,
            rs[i].partitions@,
        )
}

/// Whether a fetch is answered right.
pub open spec fn fetch_answered(
    m: MetaView,
    ts: Seq<FetchTopicModel>,
    tails: Seq<Seq<Seq<u8>>>,
    r: FetchResponse,
) -> bool {
    &&& r.throttle_time_ms == 0
    &&& topics_fetched(m, ts, tails, r.topics@)
}

/// The bytes in response partitions, up to the greatest number.
pub open spec fn bytes_in(rs: Seq<FetchResponsePartition>) -> u64
    decreases rs.len(),
{
    if rs.len() == 0 {
        0
    } else {
        bytes_in(rs.drop_last()).saturating_add(bytes_view(rs.last().records).len() as u64)
    }
}

/// The bytes in response topics, up to the greatest number.
pub open spec fn bytes_in_topics(rs: Seq<FetchResponseTopic>) -> u64
    decreases rs.len(),
{
    if rs.len() == 0 {
        0
    } else {
        bytes_in_topics(rs.drop_last()).saturating_add(bytes_in(rs.last().partitions@))
    }
}

/// Whether a response has an error in it.
pub open spec fn any_error(rs: Seq<FetchResponseTopic>) -> bool {
    exists|i: int, j: int|
        0 <= i < rs.len() && 0 <= j < rs[i].partitions@.len() && (
        #[trigger] rs[i].partitions@[j]).error_code != error_codes::NONE
}

/// Whether a fetch is answered now: there are enough bytes, there is an error,
/// or the time is up.
pub open spec fn fetch_is_due(
    min_bytes: i32,
    rs: Seq<FetchResponseTopic>,
    time_is_up: bool,
) -> bool {
    bytes_in_topics(rs) >= min_bytes || any_error(rs) || time_is_up
}

/// How many milliseconds a fetch may be kept waiting.
pub open spec fn wait_limit(max_wait_ms: i32) -> u64 {
    if max_wait_ms > 0 {
        max_wait_ms as u64
    } else {
        0
    }
}

/// A fetch beyond the end of a log is answered so; at its end it is given
/// nothing, without an error.
pub proof fn law_fetch_at_the_end(m: MetaView, topic: Seq<char>, p: FetchPartition, tail: Seq<u8>)
    requires
        m.logs.contains_key((topic, p.partition_index)),
    ensures
        p.fetch_offset > m.logs[(topic, p.partition_index)].high_watermark ==> fetched(
            m,
            topic,
            p,
            tail,
        ).error_code == error_codes::OFFSET_OUT_OF_RANGE,
        p.fetch_offset <= m.logs[(topic, p.partition_index)].high_watermark ==> fetched(
            m,
            topic,
            p,
            tail,
        ).error_code == error_codes::NONE,
{
}

/// A batch that a partition is brought, if its bytes decide what is read of them,
/// is read as that batch and nothing else.
pub proof fn law_brought_batch_is_read(
    p: ProducePartitionModel,
    read: ReadPartitionModel,
    b: BatchModel,
)
    requires
        partitions_read(seq![p], seq![read]),
        p.records.len() > 0,
        frame_len(p.records) == Some(p.records.len()),
        parsed(p.records) == Ok::<BatchModel, DecodeError>(b),
        !unsettled(p.records),
    ensures
        read.runs == seq![one_batch(b)],
        read.partition_index == p.partition_index,
{
    law_batch_is_read(p.records, b);
    assert(seq![read][0] == read);
    assert(reads(seq![p.records][0], read.runs[0]));
    assert(read.runs =~= seq![one_batch(b)]);
}

/// What is produced is what is fetched: a batch that a partition took is
/// answered with the offset it got, and a fetch from that offset on, if it
/// leaves room for it, is given that batch, moved to that offset.
pub proof fn law_fetch_gives_back_produce(
    st: ProduceState,
    acks: i16,
    topic: Seq<char>,
    p: ReadPartitionModel,
    b: BatchModel,
    now: i64,
    q: FetchPartition,
    tail: Seq<u8>,
)
    requires
        acks_known(acks),
        st.meta.logs.contains_key((topic, p.partition_index)),
        ({
            let l = st.meta.logs[(topic, p.partition_index)];
            let m = after_partition(st, acks, topic, p, now).meta;
            &&& log_sound(l)
            &&& p.runs == seq![one_batch(b)]
            &&& log_append(l, b, now) is Ok
            &&& q.partition_index == p.partition_index
            &&& q.fetch_offset == l.high_watermark
            &&& rebased_raw(b, l.high_watermark).len() <= partition_limit(q)
            &&& selected(tail, q.fetch_offset, partition_limit(q)) == log_read(
                m.logs[(topic, p.partition_index)],
                q.fetch_offset,
                partition_limit(q),
            )
        }),
    ensures
        ({
            let l = st.meta.logs[(topic, p.partition_index)];
            let m = after_partition(st, acks, topic, p, now).meta;
            let r = produced(st.meta, acks, topic, p, now);
            let f = fetched(m, topic, q, tail);
            &&& r.error_code == error_codes::NONE
            &&& r.base_offset == l.high_watermark
            &&& f.error_code == error_codes::NONE
            &&& f.records == rebased_raw(b, l.high_watermark)
        }),
{
    let k = (topic, p.partition_index);
    let l = st.meta.logs[k];
    let s0 = append_start(l, Seq::empty());
    let (u, r, w) = log_append(l, b, now)->Ok_0;
    let s1 = append_step(s0, b, now);
    lemma_one_batch(s0, b, now);
    assert(s1.results =~= seq![r]);
    assert(offset_pairs(s1.results).last() == (r.base_offset, r.last_offset));
    law_offsets_are_consecutive(l, b, now);
    law_read_gives_back_append(l, b, now, partition_limit(q));
    law_appended_is_in_reach(l, b, now);
}

/// A batch that is in a log is found by a fetch from its offset on, whatever was
/// appended behind it: it comes first in the answer, if the fetch leaves room for
/// it.
pub proof fn law_fetch_finds_what_is_held(
    m: MetaView,
    topic: Seq<char>,
    q: FetchPartition,
    tail: Seq<u8>,
    f: Seq<u8>,
    i: int,
    position: int,
)
    requires
        m.logs.contains_key((topic, q.partition_index)),
        ({
            let l = m.logs[(topic, q.partition_index)];
            &&& held_at(l, f, i, position)
            &&& q.fetch_offset == frame_base(f)
            &&& f.len() <= partition_limit(q)
            &&& selected(tail, q.fetch_offset, partition_limit(q)) == log_read(
                l,
                q.fetch_offset,
                partition_limit(q),
            )
        }),
    ensures
        fetched(m, topic, q, tail).error_code == error_codes::NONE,
        f.is_prefix_of(fetched(m, topic, q, tail).records),
{
    let l = m.logs[(topic, q.partition_index)];
    law_held_is_read(l, f, i, position, partition_limit(q));
    lemma_held_is_found(l, f, i, position);
}

// ---------------------------------------------------------------------------

/// The answer for a partition that took something, if what it took could not be
/// written.
pub open spec fn with_failure(
    failed: Seq<PartitionKey>,
    topic: Seq<char>,
    p: ProduceResponsePartition,
) -> ProduceResponsePartition {
    if p.error_code == error_codes::NONE && failed.contains((topic, p.partition_index)) {
        not_produced(p.partition_index, error_codes::UNKNOWN_TOPIC_OR_PARTITION)
    } else {
        p
    }
}

/// Whether the answers of a topic are those from before, but for the partitions
/// of which something could not be written.
pub open spec fn marked(
    failed: Seq<PartitionKey>,
    before: ProduceResponseTopic,
    after: ProduceResponseTopic,
) -> bool {
    &&& after.topic@ == before.topic@
    &&& after.partitions@.len() == before.partitions@.len()
    &&& forall|i: int|
        0 <= i < before.partitions@.len() ==> #[trigger] after.partitions@[i] == with_failure(
            failed,
            before.topic@,
            before.partitions@[i],
        )
}

/// Changes the answers for partitions of which something could not be written: to
/// the client they took nothing.
pub fn mark_failed(resp: &mut ProduceResponse, failed: &Vec<(String, i32)>)
    ensures
        final(resp).throttle_time_ms == old(resp).throttle_time_ms,
        final(resp).topics@.len() == old(resp).topics@.len(),
        forall|i: int|
            0 <= i < old(resp).topics@.len() ==> marked(
                failed.model(),
                old(resp).topics@[i],
                #[trigger] final(resp).topics@[i],
            ),
{
    let mut out: Vec<ProduceResponseTopic> = Vec::new();
    let mut i: usize = 0;
    while i < resp.topics.len()
        invariant
            i <= resp.topics@.len(),
            *resp == *old(resp),
            out@.len() == i,
            forall|j: int|
                0 <= j < i ==> marked(failed.model(), resp.topics@[j], #[trigger] out@[j]),
        decreases resp.topics@.len() - i,
    {
        out.push(mark_topic(&resp.topics[i], failed));
        i = i + 1;
    }
    resp.topics = out;
}

fn mark_topic(t: &ProduceResponseTopic, failed: &Vec<(String, i32)>) -> (r: ProduceResponseTopic)
    ensures
        marked(failed.model(), *t, r),
{
    let mut out: Vec<ProduceResponsePartition> = Vec::new();
    let mut i: usize = 0;
    while i < t.partitions.len()
        invariant
            i <= t.partitions@.len(),
            out@.len() == i,
            forall|j: int|
                0 <= j < i ==> #[trigger] out@[j] == with_failure(
                    failed.model(),
                    t.topic@,
                    t.partitions@[j],
                ),
        decreases t.partitions@.len() - i,
    {
        let p = &t.partitions[i];
        if p.error_code == error_codes::NONE && has_partition(
            failed,
            t.topic.as_str(),
            p.partition_index,
        ) {
            out.push(
                ProduceResponsePartition {
                    partition_index: p.partition_index,
                    error_code: error_codes::UNKNOWN_TOPIC_OR_PARTITION,
                    base_offset: -1,
                    log_append_time_ms: -1,
                    log_start_offset: -1,
                },
            );
        } else {
            out.push(
                ProduceResponsePartition {
                    partition_index: p.partition_index,
                    error_code: p.error_code,
                    base_offset: p.base_offset,
                    log_append_time_ms: p.log_append_time_ms,
                    log_start_offset: p.log_start_offset,
                },
            );
        }
        i = i + 1;
    }
    ProduceResponseTopic { topic: t.topic.clone(), partitions: out }
}

/// Where nothing failed to be written, no answer changes.
pub proof fn law_nothing_failed(before: ProduceResponseTopic, after: ProduceResponseTopic)
    requires
        marked(Seq::empty(), before, after),
    ensures
        after.partitions@ == before.partitions@,
{
    assert(after.partitions@ =~= before.partitions@);
}

/// Reads what a request brings for the partitions of a topic.
fn read_partitions(ps: &Vec<ProducePartitionData>) -> (r: Vec<ReadPartition>)
    ensures
        partitions_read(ps.model(), r.model()),
{
    let mut out: Vec<ReadPartition> = Vec::new();
    let mut i: usize = 0;
    while i < ps.len()
        invariant
            i <= ps@.len(),
            out@.len() == i,
            forall|j: int|
                0 <= j < i ==> (#[trigger] out.model()[j]).partition_index
                    == ps.model()[j].partition_index && all_read(
                    seq![ps.model()[j].records],
                    out.model()[j].runs,
                ),
        decreases ps@.len() - i,
    {
        let ghost before = out.model();
        let p = &ps[i];
        let mut data: Vec<Bytes> = Vec::new();
        data.push(p.records.clone());
        assert(data.model() =~= seq![p.model().records]);
        let q = ReadPartition {
            partition_index: p.partition_index,
            runs: read_runs(&data),
        };
        out.push(q);
        assert(out.model() =~= before.push(q.model()));
        i = i + 1;
    }
    out
}

/// Reads what a request brings.
pub fn read_topics(ts: &Vec<ProduceTopicData>) -> (r: Vec<ReadTopic>)
    ensures
        topics_read(ts.model(), r.model()),
{
    let mut out: Vec<ReadTopic> = Vec::new();
    let mut i: usize = 0;
    while i < ts.len()
        invariant
            i <= ts@.len(),
            out@.len() == i,
            forall|j: int|
                0 <= j < i ==> (#[trigger] out.model()[j]).topic == ts.model()[j].topic
                    && partitions_read(ts.model()[j].partitions, out.model()[j].partitions),
        decreases ts@.len() - i,
    {
        let ghost before = out.model();
        let t = &ts[i];
        let u = ReadTopic {
            topic: t.topic.clone(),
            partitions: read_partitions(&t.partitions),
        };
        out.push(u);
        assert(out.model() =~= before.push(u.model()));
        i = i + 1;
    }
    out
}

impl RequestHandler {
    fn produce_partition(
        &mut self,
        acks: i16,
        topic: &str,
        p: &ReadPartition,
        now: i64,
        writes: &mut Vec<PartitionWrite>,
    ) -> (r: ProduceResponsePartition)
        requires
            old(self).wf(),
        ensures
            final(self).wf(),
            final(self).setup() == old(self).setup(),
            final(self).groups == old(self).groups,
            r == produced(old(self)@.meta, acks, topic@, p.model(), now),
            ({
                let st = after_partition(
                    ProduceState { meta: old(self)@.meta, writes: old(writes).model() },
                    acks,
                    topic@,
                    p.model(),
                    now,
                );
                &&& final(self)@.meta == st.meta
                &&& final(writes).model() == st.writes
            }),
    {
        if acks != 0 && acks != 1 && acks != -1 {
            return ProduceResponsePartition {
                partition_index: p.partition_index,
                error_code: error_codes::INVALID_REQUIRED_ACKS,
                base_offset: -1,
                log_append_time_ms: -1,
                log_start_offset: -1,
            };
        }
        let mut out: Vec<SegmentWrite> = Vec::new();
        assert(out.model() =~= Seq::empty());
        let result = self.metadata.append_read(topic, p.partition_index, &p.runs, now, &mut out);
        add_writes(writes, topic, p.partition_index, out);
        match result {
            Ok(offsets) => {
                let n = offsets.len();
                let base: i64 = if n == 0 { 0 } else { offsets[n - 1].0 };
                ProduceResponsePartition {
                    partition_index: p.partition_index,
                    error_code: error_codes::NONE,
                    base_offset: base,
                    log_append_time_ms: now,
                    log_start_offset: 0,
                }
            },
            Err(_) => ProduceResponsePartition {
                partition_index: p.partition_index,
                error_code: error_codes::UNKNOWN_TOPIC_OR_PARTITION,
                base_offset: -1,
                log_append_time_ms: -1,
                log_start_offset: -1,
            },
        }
    }

    fn produce_topic(
        &mut self,
        acks: i16,
        t: &ReadTopic,
        now: i64,
        writes: &mut Vec<PartitionWrite>,
    ) -> (r: ProduceResponseTopic)
        requires
            old(self).wf(),
        ensures
            final(self).wf(),
            final(self).setup() == old(self).setup(),
            final(self).groups == old(self).groups,
            r.topic@ == t.topic@,
            ({
                let st = ProduceState { meta: old(self)@.meta, writes: old(writes).model() };
                let ps = t.model().partitions;
                &&& partitions_answered(st, acks, t.topic@, ps, now, r.partitions@)
                &&& final(self)@.meta == after_partitions(st, acks, t.topic@, ps, now).meta
                &&& final(writes).model() == after_partitions(st, acks, t.topic@, ps, now).writes
            }),
    {
        let mut partitions: Vec<ProduceResponsePartition> = Vec::new();
        let ghost st = ProduceState { meta: self@.meta, writes: writes.model() };
        let ghost ps = t.model().partitions;
        let mut i: usize = 0;
        assert(ps.take(0) =~= Seq::empty());
        while i < t.partitions.len()
            invariant
                i <= t.partitions@.len(),
                ps == t.partitions.model(),
                st == (ProduceState { meta: old(self)@.meta, writes: old(writes).model() }),
                self.wf(),
                self.setup() == old(self).setup(),
                self.groups == old(self).groups,
                partitions@.len() == i,
                forall|j: int|
                    0 <= j < i ==> #[trigger] partitions@[j] == produced(
                        after_partitions(st, acks, t.topic@, ps.take(j), now).meta,
                        acks,
                        t.topic@,
                        ps[j],
                        now,
                    ),
                self@.meta == after_partitions(st, acks, t.topic@, ps.take(i as int), now).meta,
                writes.model() == after_partitions(
                    st,
                    acks,
                    t.topic@,
                    ps.take(i as int),
                    now,
                ).writes,
            decreases t.partitions@.len() - i,
        {
            proof {
                assert(ps.take(i as int + 1).drop_last() =~= ps.take(i as int));
                assert(ps.take(i as int + 1).last() == ps[i as int]);
            }
            let a = self.produce_partition(acks, t.topic.as_str(), &t.partitions[i], now, writes);
            partitions.push(a);
            i = i + 1;
        }
        assert(ps.take(i as int) =~= ps);
        ProduceResponseTopic { topic: t.topic.clone(), partitions }
    }

    /// Appends what was read of what a request brings. What is added to `writes`
    /// is to be written, in that order.
    pub fn handle_produce(
        &mut self,
        acks: i16,
        read: &Vec<ReadTopic>,
        now: i64,
        writes: &mut Vec<PartitionWrite>,
    ) -> (r: ProduceResponse)
        requires
            old(self).wf(),
        ensures
            final(self).wf(),
            final(self).setup() == old(self).setup(),
            final(self).groups == old(self).groups,
            r.throttle_time_ms == 0,
            ({
                let st = ProduceState { meta: old(self)@.meta, writes: old(writes).model() };
                let ts = read.model();
                &&& topics_answered(st, acks, ts, now, r.topics@)
                &&& final(self)@.meta == after_topics(st, acks, ts, now).meta
                &&& final(writes).model() == after_topics(st, acks, ts, now).writes
            }),
    {
        let mut topics: Vec<ProduceResponseTopic> = Vec::new();
        let ghost st = ProduceState { meta: self@.meta, writes: writes.model() };
        let ghost ts = read.model();
        let mut i: usize = 0;
        assert(ts.take(0) =~= Seq::empty());
        while i < read.len()
            invariant
                i <= read@.len(),
                ts == read.model(),
                st == (ProduceState { meta: old(self)@.meta, writes: old(writes).model() }),
                self.wf(),
                self.setup() == old(self).setup(),
                self.groups == old(self).groups,
                topics@.len() == i,
                forall|j: int|
                    0 <= j < i ==> (#[trigger] topics@[j]).topic@ == ts[j].topic
                        && partitions_answered(
                        after_topics(st, acks, ts.take(j), now),
                        acks,
                        ts[j].topic,
                        ts[j].partitions,
                        now,
                        topics@[j].partitions@,
                    ),
                self@.meta == after_topics(st, acks, ts.take(i as int), now).meta,
                writes.model() == after_topics(st, acks, ts.take(i as int), now).writes,
            decreases read@.len() - i,
        {
            proof {
                assert(ts.take(i as int + 1).drop_last() =~= ts.take(i as int));
                assert(ts.take(i as int + 1).last() == ts[i as int]);
            }
            let a = self.produce_topic(acks, &read[i], now, writes);
            topics.push(a);
            i = i + 1;
        }
        assert(ts.take(i as int) =~= ts);
        ProduceResponse { topics, throttle_time_ms: 0 }
    }

    /// Where to read for a fetch: for every topic and partition of the request
    /// the first offset of a segment and a position in its log.
    pub fn fetch_positions(&mut self, req: &FetchRequest) -> (r: Vec<Vec<Option<(i64, u64)>>>)
        requires
            old(self).wf(),
        ensures
            final(self).wf(),
            final(self).setup() == old(self).setup(),
            final(self).groups == old(self).groups,
            final(self)@ == old(self)@,
            r@.len() == req.topics@.len(),
            forall|i: int|
                0 <= i < req.topics@.len() ==> positions_of(
                    old(self)@.meta,
                    req.topics@[i].topic@,
                    req.topics@[i].partitions@,
                    (#[trigger] r@[i])@,
                ),
    {
        let mut out: Vec<Vec<Option<(i64, u64)>>> = Vec::new();
        let mut i: usize = 0;
        while i < req.topics.len()
            invariant
                i <= req.topics@.len(),
                self.wf(),
                self.setup() == old(self).setup(),
                self.groups == old(self).groups,
                self@ == old(self)@,
                out@.len() == i,
                forall|k: int|
                    0 <= k < i ==> positions_of(
                        old(self)@.meta,
                        req.topics@[k].topic@,
                        req.topics@[k].partitions@,
                        (#[trigger] out@[k])@,
                    ),
            decreases req.topics@.len() - i,
        {
            let t = &req.topics[i];
            let mut ps: Vec<Option<(i64, u64)>> = Vec::new();
            let mut j: usize = 0;
            while j < t.partitions.len()
                invariant
                    j <= t.partitions@.len(),
                    self.wf(),
                    self.setup() == old(self).setup(),
                    self.groups == old(self).groups,
                    self@ == old(self)@,
                    ps@.len() == j,
                    forall|k: int|
                        0 <= k < j ==> position_of(
                            old(self)@.meta,
                            t.topic@,
                            t.partitions@[k],
                            #[trigger] ps@[k],
                        ),
                decreases t.partitions@.len() - j,
            {
                let p = self.metadata.read_position(
                    t.topic.as_str(),
                    t.partitions[j].partition_index,
                    t.partitions[j].fetch_offset,
                );
                ps.push(p);
                j = j + 1;
            }
            out.push(ps);
            i = i + 1;
        }
        out
    }

    fn fetch_partition(&mut self, topic: &str, p: &FetchPartition, tail: &[u8]) -> (r:
        FetchResponsePartition)
        requires
            old(self).wf(),
        ensures
            final(self).wf(),
            final(self).setup() == old(self).setup(),
            final(self).groups == old(self).groups,
            final(self)@ == old(self)@,
            says_fetched(r, fetched(old(self)@.meta, topic@, *p, tail@)),
    {
        let first = self.metadata.partition_log_start_sync(topic, p.partition_index);
        let log_start: i64 = match first {
            Some(o) => o,
            None => -1,
        };
        let max: usize = if p.partition_max_bytes > 1 { p.partition_max_bytes as usize } else { 1 };
        match self.metadata.read_records(topic, p.partition_index, p.fetch_offset, max, tail) {
            Some((data, hw)) => {
                if p.fetch_offset > hw {
                    return FetchResponsePartition {
                        partition_index: p.partition_index,
                        error_code: error_codes::OFFSET_OUT_OF_RANGE,
                        high_watermark: hw,
                        last_stable_offset: hw,
                        log_start_offset: log_start,
                        aborted_transactions: Vec::new(),
                        records: buf::bytes_new(),
                    };
                }
                FetchResponsePartition {
                    partition_index: p.partition_index,
                    error_code: error_codes::NONE,
                    high_watermark: hw,
                    last_stable_offset: hw,
                    log_start_offset: log_start,
                    aborted_transactions: Vec::new(),
                    records: data,
                }
            },
            None => FetchResponsePartition {
                partition_index: p.partition_index,
                error_code: error_codes::UNKNOWN_TOPIC_OR_PARTITION,
                high_watermark: -1,
                last_stable_offset: -1,
                log_start_offset: -1,
                aborted_transactions: Vec::new(),
                records: buf::bytes_new(),
            },
        }
    }

    /// Answers a fetch out of the ends of the segments' logs from the positions
    /// on that [`RequestHandler::fetch_positions`] gave.
    pub fn handle_fetch(&mut self, req: &FetchRequest, tails: &Vec<Vec<Bytes>>) -> (r:
        FetchResponse)
        requires
            old(self).wf(),
        ensures
            final(self).wf(),
            final(self).setup() == old(self).setup(),
            final(self).groups == old(self).groups,
            final(self)@ == old(self)@,
            fetch_answered(old(self)@.meta, req.model().topics, tails.model(), r),
    {
        let mut topics: Vec<FetchResponseTopic> = Vec::new();
        let ghost ts = req.model().topics;
        let ghost tl = tails.model();
        let mut i: usize = 0;
        while i < req.topics.len()
            invariant
                i <= req.topics@.len(),
                ts == req.topics.model(),
                tl == tails.model(),
                self.wf(),
                self.setup() == old(self).setup(),
                self.groups == old(self).groups,
                self@ == old(self)@,
                topics@.len() == i,
                forall|k: int|
                    0 <= k < i ==> (#[trigger] topics@[k]).topic@ == ts[k].topic
                        && partitions_fetched(
                        old(self)@.meta,
                        ts[k].topic,
                        ts[k].partitions,
                        tl,
                        k,
                        topics@[k].partitions@,
                    ),
            decreases req.topics@.len() - i,
        {
            let t = &req.topics[i];
            assert(ts[i as int] == t.model());
            let ghost ps = t.model().partitions;
            let mut partitions: Vec<FetchResponsePartition> = Vec::new();
            let mut j: usize = 0;
            while j < t.partitions.len()
                invariant
                    j <= t.partitions@.len(),
                    ps == t.partitions.model(),
                    tl == tails.model(),
                    self.wf(),
                    self.setup() == old(self).setup(),
                    self.groups == old(self).groups,
                    self@ == old(self)@,
                    partitions@.len() == j,
                    forall|k: int|
                        0 <= k < j ==> says_fetched(
                            #[trigger] partitions@[k],
                            fetched(
                                old(self)@.meta,
                                t.topic@,
                                ps[k],
                                tail_at(tl, i as int, k),
                            ),
                        ),
                decreases t.partitions@.len() - j,
            {
                let none = buf::bytes_new();
                let tail: &[u8] = if i < tails.len() && j < tails[i].len() {
                    assert(tl[i as int][j as int] == bytes_view(tails@[i as int]@[j as int]));
                    buf::bytes_slice(&tails[i][j])
                } else {
                    buf::bytes_slice(&none)
                };
                assert(tail@ == tail_at(tl, i as int, j as int));
                let a = self.fetch_partition(t.topic.as_str(), &t.partitions[j], tail);
                partitions.push(a);
                j = j + 1;
            }
            topics.push(FetchResponseTopic { topic: t.topic.clone(), partitions });
            i = i + 1;
        }
        FetchResponse { throttle_time_ms: 0, topics }
    }
}

/// Whether a fetch is answered now.
pub fn fetch_due(req: &FetchRequest, resp: &FetchResponse, time_is_up: bool) -> (r: bool)
    ensures
        r == fetch_is_due(req.min_bytes, resp.topics@, time_is_up),
{
    let mut total: u64 = 0;
    let mut i: usize = 0;
    let ghost rs = resp.topics@;
    while i < resp.topics.len()
        invariant
            i <= rs.len(),
            rs == resp.topics@,
            total == bytes_in_topics(rs.take(i as int)),
            forall|a: int, b: int|
                0 <= a < i && 0 <= b < rs[a].partitions@.len() ==> (
                #[trigger] rs[a].partitions@[b]).error_code == error_codes::NONE,
        decreases rs.len() - i,
    {
        let ghost ps = rs[i as int].partitions@;
        let mut part: u64 = 0;
        let mut j: usize = 0;
        while j < resp.topics[i].partitions.len()
            invariant
                i < rs.len(),
                rs == resp.topics@,
                ps == rs[i as int].partitions@,
                j <= ps.len(),
                part == bytes_in(ps.take(j as int)),
                forall|b: int|
                    0 <= b < j ==> (#[trigger] ps[b]).error_code == error_codes::NONE,
            decreases ps.len() - j,
        {
            let p = &resp.topics[i].partitions[j];
            if p.error_code != error_codes::NONE {
                assert(rs[i as int].partitions@[j as int].error_code != error_codes::NONE);
                return true;
            }
            proof {
                assert(ps.take(j as int + 1).drop_last() =~= ps.take(j as int));
                assert(ps.take(j as int + 1).last() == ps[j as int]);
            }
            part = part.saturating_add(buf::bytes_len(&p.records) as u64);
            j = j + 1;
        }
        proof {
            assert(ps.take(j as int) =~= ps);
            assert(rs.take(i as int + 1).drop_last() =~= rs.take(i as int));
            assert(rs.take(i as int + 1).last() == rs[i as int]);
        }
        total = total.saturating_add(part);
        i = i + 1;
    }
    assert(rs.take(i as int) =~= rs);
    let min: u64 = if req.min_bytes > 0 { req.min_bytes as u64 } else { 0 };
    total >= min || time_is_up
}

/// How many milliseconds a fetch may be kept waiting.
pub fn max_wait(req: &FetchRequest) -> (r: u64)
    ensures
        r == wait_limit(req.max_wait_ms),
{
    if req.max_wait_ms > 0 {
        req.max_wait_ms as u64
    } else {
        0
    }
}

/// Whether a position is one from which a partition can be read for a fetch.
pub open spec fn position_of(
    m: MetaView,
    topic: Seq<char>,
    p: FetchPartition,
    r: Option<(i64, u64)>,
) -> bool {
    match m.logs.get((topic, p.partition_index)) {
        None => r is None,
        Some(l) => position_says(l, p.fetch_offset, r),
    }
}

/// Whether positions are those from which the partitions of a topic can be read.
pub open spec fn positions_of(
    m: MetaView,
    topic: Seq<char>,
    ps: Seq<FetchPartition>,
    rs: Seq<Option<(i64, u64)>>,
) -> bool {
    &&& rs.len() == ps.len()
    &&& forall|i: int| 0 <= i < ps.len() ==> position_of(m, topic, ps[i], #[trigger] rs[i])
}

} // verus!
