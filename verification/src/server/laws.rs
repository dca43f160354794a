//! What holds of a broker's answers, whatever it is asked.

use vstd::prelude::*;
use vstd::utf8::encode_utf8;

use crate::buf::bytes_view;
use crate::group::coordinator::{
    after_sync, answer_to_join, assigned, commit_refusal_of, groups_after_join, heartbeat_says,
    lemma_assigned_ids, lemma_member_at, lemma_same_ids, lists_groups, member_at, member_refusal,
    state_name, GroupModel, GroupState, MemberModel,
};
use crate::group::laws::law_leave_drops_one_member;
use crate::group::offset_store::{
    commit_batch, group_partition, OffsetKey, OffsetModel, OffsetValue, CONSUMER_OFFSETS_TOPIC,
};
use crate::maps::goes_through;
use crate::order::{bytes_ordered, ordered};
use crate::protocol::error_codes;
use crate::protocol::compression::Compression;
use crate::protocol::header::{sp_request_header, RequestHeaderModel};
use crate::protocol::messages::api_versions::ApiVersionsResponse;
use crate::protocol::messages::fetch::{
    sp_fetch_request, FetchPartition, FetchRequestModel, FetchResponse, FetchResponsePartition,
    FetchResponseTopic,
};
use crate::protocol::messages::groups::{
    sp_describe_groups_request, sp_heartbeat_request, sp_join_group_request, sp_leave_group_request,
    sp_list_groups_request, sp_sync_group_request, DescribeGroupsResponse, DescribedGroup,
    FindCoordinatorResponse, JoinGroupRequestModel, JoinGroupResponse, LeaveGroupRequestModel,
    ListGroupsResponse, SyncGroupRequestModel, SyncGroupResponse,
};
use crate::protocol::messages::metadata::{sp_metadata_request, MetadataResponse};
use crate::protocol::messages::offsets::{
    sp_list_offsets_request, sp_offset_commit_request, sp_offset_fetch_request,
    OffsetCommitRequestModel, OffsetFetchResponse,
};
use crate::protocol::messages::produce::{
    sp_produce_request, ProducePartitionModel, ProduceRequestModel, ProduceResponse,
    ProduceResponseTopic, ProduceTopicModel,
};
use crate::protocol::messages::topics::{
    sp_create_topics_request, sp_delete_topics_request, CreateTopicsRequestModel,
    DeleteTopicsRequestModel,
};
use crate::protocol::primitive::{cursor, sp_nullable_string, sp_string, Cursor, Modeled};
use crate::protocol::recordbatch::{algorithm, batch_fits, frame_len, parsed, BatchModel};
use crate::protocol::run::{all_read, one_batch, reads, RunModel};
use crate::protocol::wire::{enc_i16, enc_i32};
use crate::server::groups::{
    after_commit, after_commits, after_topic_commits, all_listed, all_offset_answers, commits_at,
    commits_in, enc_commit_response, enc_outcome, groups_listed, join_asked,
    law_committed_is_fetched, listed, offset_answer, says_group, says_groups, says_joined,
    says_member, Commit, CommitState, Listed,
};
use crate::server::handler::{
    answer_with, commit_state, fetch_served, groups_after_leave, groups_after_sync, produce_served,
    served, wants_of, Context, ReplyModel, State,
};
use crate::server::metadata::{
    default_partitions_of, missing, offset_pairs, records_appended, topic_or_bare, values_of,
    with_partition, MetaView, PartitionKey, TopicModel,
};
use crate::server::records::{
    after_partition, after_partitions, after_topics, any_error, bytes_in, bytes_in_topics,
    fetch_answered, fetch_is_due, fetched, law_bad_acks_write_nothing, law_fetch_gives_back_produce,
    marked, partition_limit, produced, tail_at, topics_answered, topics_read, wait_limit,
    ProduceState, ReadPartitionModel, ReadTopicModel,
};
use crate::server::request::{body_at, request_of, RequestModel};
use crate::server::state::{writes_of, PartitionWriteModel, RequestHandler, Setup};
use crate::server::topics::{
    latest_offsets, law_deleted_topics_are_unknown, lemma_missing, metadata_answered,
    metadata_wants_of, partition_wants_of, produce_wants_of, says_partition, says_topic,
    says_topics, with_topics, without_topics, Want,
};
use crate::storage::laws::{gives_back, law_read_begins_at_the_offset, lemma_stored};
use crate::storage::log::{
    append_all, append_start, append_step, law_offsets_are_consecutive, lemma_one_batch,
    lemma_rebased_follows, log_append, log_read, log_sound, log_wf, rebased_raw, LogView,
};
use crate::storage::offsets::{
    after_calls, batches_of, batches_of_calls, law_appends_tile, none_empty, record_count,
};
use crate::storage::scan::{
    frame_base, frames, from_offset, law_read_is_whole, law_read_within_limit, selected, whole,
};
use crate::storage::segment::WriteModel;
use crate::supported::SUPPORTED_API_KEYS;

verus! {

// ---------------------------------------------------------------------------
// What is produced

/// What is produced is fetched with its records intact: the batch that a fetch
/// from the offset in the answer gives has as many records, each with the
/// attributes, the time, the key, the value and the headers that it was brought
/// with, numbered from that offset on.
pub proof fn law_fetched_records_are_intact(
    st: ProduceState,
    acks: i16,
    topic: Seq<char>,
    p: ReadPartitionModel,
    b: BatchModel,
    now: i64,
    q: FetchPartition,
    tail: Seq<u8>,
)
    requires
        acks == 0 || acks == 1 || acks == -1,
        st.meta.logs.contains_key((topic, p.partition_index)),
        ({
            let l = st.meta.logs[(topic, p.partition_index)];
            let m = after_partition(st, acks, topic, p, now).meta;
            &&& log_sound(l)
            &&& p.runs == seq![one_batch(b)]
            &&& log_append(l, b, now) is Ok
            &&& log_append(l, b, now)->Ok_0.2.log.len() <= q.partition_max_bytes
            &&& q.partition_index == p.partition_index
            &&& q.fetch_offset == produced(st.meta, acks, topic, p, now).base_offset
            &&& selected(tail, q.fetch_offset, q.partition_max_bytes as int) == log_read(
                m.logs[(topic, p.partition_index)],
                q.fetch_offset,
                q.partition_max_bytes as int,
            )
        }),
        algorithm(b.attributes) == Compression::Plain || gives_back(algorithm(b.attributes)),
    ensures
        ({
            let l = st.meta.logs[(topic, p.partition_index)];
            let r = produced(st.meta, acks, topic, p, now);
            let f = fetched(
                after_partition(st, acks, topic, p, now).meta,
                topic,
                q,
                tail,
            );
            &&& r.error_code == 0
            &&& r.base_offset == l.high_watermark
            &&& f.error_code == 0
            &&& parsed(f.records) matches Ok(m) && {
                &&& m.base_offset == r.base_offset
                &&& m.records.len() == b.records.len()
                &&& forall|i: int|
                    0 <= i < b.records.len() ==> {
                        &&& (#[trigger] m.records[i]).attributes == b.records[i].attributes
                        &&& m.records[i].timestamp_delta == b.records[i].timestamp_delta
                        &&& m.records[i].offset_delta == i
                        &&& m.records[i].key == b.records[i].key
                        &&& m.records[i].value == b.records[i].value
                        &&& m.records[i].headers == b.records[i].headers
                    }
                &&& m.base_timestamp == b.base_timestamp
                &&& m.producer_id == b.producer_id
                &&& m.producer_epoch == b.producer_epoch
                &&& m.base_sequence == b.base_sequence
            }
        }),
{
    let l = st.meta.logs[(topic, p.partition_index)];
    assert(log_append(l, b, now)->Ok_0.2.log == rebased_raw(b, l.high_watermark)) by {
        reveal(log_append);
    }
    assert(log_append(l, b, now)->Ok_0.2.log.len() > 1) by {
        lemma_rebased_follows(l, b, now);
    }
    assert(partition_limit(q) == q.partition_max_bytes);
    let s0 = append_start(l, Seq::empty());
    lemma_one_batch(s0, b, now);
    law_offsets_are_consecutive(l, b, now);
    let (u, r, w) = log_append(l, b, now)->Ok_0;
    let s1 = append_step(s0, b, now);
    assert(s1.results =~= seq![r]);
    assert(offset_pairs(s1.results).last() == (
        r.base_offset,
        r.last_offset,
    ));
    assert(produced(st.meta, acks, topic, p, now).base_offset == l.high_watermark);
    law_fetch_gives_back_produce(st, acks, topic, p, b, now, q, tail);
    assert(parsed(rebased_raw(b, l.high_watermark)) is Ok) by {
        reveal(log_append);
        lemma_stored(b, l.high_watermark);
    }
    reveal(log_append);
    lemma_stored(b, l.high_watermark);
}

/// A partition that took batches is as much longer as they have records, and its
/// answer gives the offset of the first record of the last one: as far from the
/// end as that batch has records.
pub proof fn law_produce_answers_the_offset(
    m: MetaView,
    acks: i16,
    topic: Seq<char>,
    p: ReadPartitionModel,
    writes: Seq<PartitionWriteModel>,
    now: i64,
)
    requires
        acks == 0 || acks == 1 || acks == -1,
        m.logs.contains_key((topic, p.partition_index)),
        log_wf(m.logs[(topic, p.partition_index)]),
        none_empty(batches_of(p.runs)),
        batches_of(p.runs).len() > 0,
        produced(m, acks, topic, p, now).error_code == 0,
    ensures
        ({
            let k = (topic, p.partition_index);
            let st = ProduceState { meta: m, writes };
            let after = after_partition(st, acks, topic, p, now).meta.logs[k].high_watermark;
            let bs = batches_of(p.runs);
            let r = produced(m, acks, topic, p, now);
            &&& after == m.logs[k].high_watermark + record_count(bs)
            &&& r.base_offset == after - bs.last().records.len()
            &&& r.partition_index == p.partition_index
            &&& r.log_append_time_ms == now
        }),
{
    let k = (topic, p.partition_index);
    let l = m.logs[k];
    let bs = batches_of(p.runs);
    let calls = seq![(p.runs, now)];
    let none = Seq::<(Seq<RunModel>, i64)>::empty();
    let st = append_all(append_start(l, Seq::empty()), p.runs, now);
    assert(calls.drop_last() =~= none);
    let g = after_calls(l, Seq::empty(), calls);
    assert(after_calls(l, Seq::empty(), calls.drop_last()).log == l);
    assert(batches_of_calls(calls.drop_last()) =~= Seq::empty());
    assert(batches_of_calls(calls) =~= bs);
    assert(st.err is None);
    assert(g.results =~= st.results);
    law_appends_tile(l, Seq::empty(), calls);
    let n = bs.len() - 1;
    assert(g.results[n].base_offset == l.high_watermark + record_count(bs.take(n)));
    assert(bs.take(n) =~= bs.drop_last());
    assert(g.results.last() == g.results[n]);
}

/// How a produce request is acknowledged decides nothing about what is stored: 0,
/// 1 and -1 store the same. With 0 there is no answer, with the others there is.
pub proof fn law_acks_decide_the_answer_alone(
    st: ProduceState,
    acks: i16,
    ts: Seq<ReadTopicModel>,
    now: i64,
    version: i16,
    id: i32,
    reply: ReplyModel,
)
    requires
        produce_served(st, acks, ts, now, version, id, reply),
    ensures
        acks == 0 || acks == 1 || acks == -1 ==> after_topics(st, acks, ts, now) == after_topics(
            st,
            1,
            ts,
            now,
        ),
        !(acks == 0 || acks == 1 || acks == -1) ==> after_topics(st, acks, ts, now) == st,
        acks == 0 <==> reply == ReplyModel::Silence,
        acks != 0 ==> (reply matches ReplyModel::Body(b) && enc_i32(id).is_prefix_of(b)),
{
    if acks == 0 || acks == 1 || acks == -1 {
        lemma_same_topics(st, acks, ts, now);
    } else {
        law_bad_acks_write_nothing(st, acks, ts, now);
    }
}

proof fn lemma_same_topics(st: ProduceState, acks: i16, ts: Seq<ReadTopicModel>, now: i64)
    requires
        acks == 0 || acks == 1 || acks == -1,
    ensures
        after_topics(st, acks, ts, now) == after_topics(st, 1, ts, now),
    decreases ts.len(),
{
    if ts.len() > 0 {
        lemma_same_topics(st, acks, ts.drop_last(), now);
        lemma_same_partitions(
            after_topics(st, 1, ts.drop_last(), now),
            acks,
            ts.last().topic,
            ts.last().partitions,
            now,
        );
    }
}

proof fn lemma_same_partitions(
    st: ProduceState,
    acks: i16,
    topic: Seq<char>,
    ps: Seq<ReadPartitionModel>,
    now: i64,
)
    requires
        acks == 0 || acks == 1 || acks == -1,
    ensures
        after_partitions(st, acks, topic, ps, now) == after_partitions(st, 1, topic, ps, now),
    decreases ps.len(),
{
    if ps.len() > 0 {
        lemma_same_partitions(st, acks, topic, ps.drop_last(), now);
    }
}

/// An acknowledgement that there is not is refused for every partition, with the
/// code 21; a partition that there is not, with the code 3. Neither is given an
/// offset.
pub proof fn law_when_nothing_is_produced(
    m: MetaView,
    acks: i16,
    topic: Seq<char>,
    p: ReadPartitionModel,
    now: i64,
)
    ensures
        ({
            let r = produced(m, acks, topic, p, now);
            let bad = !(acks == 0 || acks == 1 || acks == -1);
            &&& r.partition_index == p.partition_index
            &&& bad <==> r.error_code == 21
            &&& !bad && !m.logs.contains_key((topic, p.partition_index)) ==> r.error_code == 3
            &&& r.error_code != 0 ==> r.base_offset == -1 && r.log_append_time_ms == -1
            &&& !bad && m.logs.contains_key((topic, p.partition_index)) ==> (r.error_code == 0)
                == (append_all(
                append_start(m.logs[(topic, p.partition_index)], Seq::empty()),
                p.runs,
                now,
            ).err is None)
        }),
{
}

/// What is produced to a partition concerns no other, and what is to be written
/// for it stands behind what was, marked with its topic and number.
pub proof fn law_produce_concerns_one_partition(
    st: ProduceState,
    acks: i16,
    topic: Seq<char>,
    p: ReadPartitionModel,
    now: i64,
    k: PartitionKey,
)
    requires
        k != (topic, p.partition_index),
    ensures
        ({
            let t = after_partition(st, acks, topic, p, now);
            &&& t.meta.logs.get(k) == st.meta.logs.get(k)
            &&& t.meta.topics == st.meta.topics
            &&& st.writes.is_prefix_of(t.writes)
            &&& forall|i: int|
                st.writes.len() <= i < t.writes.len() ==> (#[trigger] t.writes[i]).topic == topic
                    && t.writes[i].partition == p.partition_index
        }),
{
    let t = after_partition(st, acks, topic, p, now);
    assert(st.writes.is_prefix_of(t.writes));
}

/// What is to be written for a partition is what its log grew by.
pub proof fn law_what_is_stored_is_written(
    st: ProduceState,
    acks: i16,
    topic: Seq<char>,
    p: ReadPartitionModel,
    b: BatchModel,
    now: i64,
)
    requires
        acks == 0 || acks == 1 || acks == -1,
        st.meta.logs.contains_key((topic, p.partition_index)),
        p.runs == seq![one_batch(b)],
        log_append(st.meta.logs[(topic, p.partition_index)], b, now) is Ok,
    ensures
        ({
            let (u, r, w) = log_append(st.meta.logs[(topic, p.partition_index)], b, now)->Ok_0;
            let t = after_partition(st, acks, topic, p, now);
            &&& t.meta.logs[(topic, p.partition_index)] == u
            &&& t.writes.len() == st.writes.len() + 1
            &&& t.writes.last().topic == topic
            &&& t.writes.last().partition == p.partition_index
            &&& t.writes.last().write == w
        }),
{
    let l = st.meta.logs[(topic, p.partition_index)];
    let s0 = append_start(l, Seq::empty());
    lemma_one_batch(s0, b, now);
    let t = after_partition(st, acks, topic, p, now);
    assert(t.writes.last() == t.writes[st.writes.len() as int]);
}

/// What is to be written stands under the name and the number of its partition, in
/// the order in which it was appended.
pub proof fn law_writes_name_their_partition(
    topic: Seq<char>,
    partition: i32,
    ws: Seq<WriteModel>,
    i: int,
)
    requires
        0 <= i < ws.len(),
    ensures
        writes_of(topic, partition, ws).len() == ws.len(),
        writes_of(topic, partition, ws)[i].topic == topic,
        writes_of(topic, partition, ws)[i].partition == partition,
        writes_of(topic, partition, ws)[i].write == ws[i],
{
}

/// What is read of a produce request stands for the topics and partitions that it
/// names, in its order, and each is read from the bytes that it brings for it.
pub proof fn law_read_as_it_was_brought(
    ts: Seq<ProduceTopicModel>,
    read: Seq<ReadTopicModel>,
    i: int,
    j: int,
)
    requires
        topics_read(ts, read),
        0 <= i < ts.len(),
        0 <= j < ts[i].partitions.len(),
    ensures
        read.len() == ts.len(),
        read[i].topic == ts[i].topic,
        read[i].partitions.len() == ts[i].partitions.len(),
        read[i].partitions[j].partition_index == ts[i].partitions[j].partition_index,
        read[i].partitions[j].runs.len() == 1,
        reads(ts[i].partitions[j].records, read[i].partitions[j].runs[0]),
{
    let t = read[i];
    let p = t.partitions[j];
    let raws = seq![ts[i].partitions[j].records];
    assert(all_read(raws, p.runs));
    assert(reads(raws[0], p.runs[0]));
}

/// Topics, and the partitions of a topic, are produced to one after the other, in
/// the order of the request.
pub proof fn law_produced_in_turn(
    st: ProduceState,
    acks: i16,
    a: Seq<ReadTopicModel>,
    t: ReadTopicModel,
    ps: Seq<ReadPartitionModel>,
    p: ReadPartitionModel,
    topic: Seq<char>,
    now: i64,
)
    ensures
        after_topics(st, acks, Seq::empty(), now) == st,
        after_topics(st, acks, a.push(t), now) == after_partitions(
            after_topics(st, acks, a, now),
            acks,
            t.topic,
            t.partitions,
            now,
        ),
        after_partitions(st, acks, topic, Seq::empty(), now) == st,
        after_partitions(st, acks, topic, ps.push(p), now) == after_partition(
            after_partitions(st, acks, topic, ps, now),
            acks,
            topic,
            p,
            now,
        ),
{
    assert(a.push(t).drop_last() =~= a);
    assert(ps.push(p).drop_last() =~= ps);
}

/// The answers to a produce request stand in its order, topic by topic and
/// partition by partition.
pub proof fn law_produce_answers_in_order(
    st: ProduceState,
    acks: i16,
    ts: Seq<ReadTopicModel>,
    now: i64,
    rs: Seq<ProduceResponseTopic>,
    i: int,
    j: int,
)
    requires
        topics_answered(st, acks, ts, now, rs),
        0 <= i < ts.len(),
        0 <= j < ts[i].partitions.len(),
    ensures
        rs.len() == ts.len(),
        rs[i].topic@ == ts[i].topic,
        rs[i].partitions@.len() == ts[i].partitions.len(),
        rs[i].partitions@[j].partition_index == ts[i].partitions[j].partition_index,
        rs[i].partitions@[j] == produced(
            after_partitions(
                after_topics(st, acks, ts.take(i), now),
                acks,
                ts[i].topic,
                ts[i].partitions.take(j),
                now,
            ).meta,
            acks,
            ts[i].topic,
            ts[i].partitions[j],
            now,
        ),
{
    let r = rs[i];
    let x = r.partitions@[j];
}

/// Where nothing is brought nothing is appended, and the offset that is told is 0.
pub proof fn law_nothing_is_brought(
    m: MetaView,
    acks: i16,
    topic: Seq<char>,
    p: ReadPartitionModel,
    now: i64,
)
    requires
        acks == 0 || acks == 1 || acks == -1,
        m.logs.contains_key((topic, p.partition_index)),
        p.runs.len() == 0,
    ensures
        produced(m, acks, topic, p, now).error_code == 0,
        produced(m, acks, topic, p, now).base_offset == 0,
        records_appended(m, topic, p.partition_index, p.runs, Seq::empty(), now).meta.logs
            == m.logs,
{
    let out = records_appended(m, topic, p.partition_index, p.runs, Seq::empty(), now);
    assert(out.meta.logs =~= m.logs);
}

/// A partition whose write failed is answered as one that there is not; every other
/// answer stays.
pub proof fn law_failed_write_is_told(
    failed: Seq<PartitionKey>,
    before: ProduceResponseTopic,
    after: ProduceResponseTopic,
    i: int,
)
    requires
        marked(failed, before, after),
        0 <= i < before.partitions@.len(),
    ensures
        after.topic@ == before.topic@,
        after.partitions@.len() == before.partitions@.len(),
        ({
            let x = before.partitions@[i];
            let y = after.partitions@[i];
            &&& y.partition_index == x.partition_index
            &&& !failed.contains((before.topic@, x.partition_index)) ==> y == x
            &&& x.error_code != 0 ==> y == x
            &&& x.error_code == 0 && failed.contains((before.topic@, x.partition_index)) ==> {
                &&& y.error_code == 3
                &&& y.base_offset == -1
                &&& y.log_append_time_ms == -1
                &&& y.log_start_offset == -1
            }
        }),
{
    let y = after.partitions@[i];
}

// ---------------------------------------------------------------------------
// What is fetched

/// Before the beginning of a log there is nothing, nor behind its end, and that is no
/// error up to the end.
pub proof fn law_nothing_outside_is_fetched(
    m: MetaView,
    topic: Seq<char>,
    p: FetchPartition,
    tail: Seq<u8>,
)
    requires
        m.logs.contains_key((topic, p.partition_index)),
        log_wf(m.logs[(topic, p.partition_index)]),
    ensures
        ({
            let l = m.logs[(topic, p.partition_index)];
            let a = fetched(m, topic, p, tail);
            &&& p.fetch_offset < l.log_start_offset ==> a.records.len() == 0
            &&& p.fetch_offset >= l.high_watermark && p.fetch_offset > l.segments.last().base_offset
                ==> a.records.len() == 0
            &&& a.error_code == 0 <==> p.fetch_offset <= l.high_watermark
        }),
{
}

/// What was read of the file of a partition is used for that partition.
pub proof fn law_tails_by_place(tails: Seq<Seq<Seq<u8>>>, i: int, j: int)
    ensures
        0 <= i < tails.len() && 0 <= j < tails[i].len() ==> tail_at(tails, i, j) == tails[i][j],
        !(0 <= i < tails.len() && 0 <= j < tails[i].len()) ==> tail_at(tails, i, j).len() == 0,
{
}

/// The bytes of records that response partitions carry, added up.
pub open spec fn carried_by(ps: Seq<FetchResponsePartition>) -> int {
    ps.fold_left(0int, |n: int, p: FetchResponsePartition| n + bytes_view(p.records).len())
}

/// The bytes of records that response topics carry, added up.
pub open spec fn carried(ts: Seq<FetchResponseTopic>) -> int {
    ts.fold_left(0int, |n: int, t: FetchResponseTopic| n + carried_by(t.partitions@))
}

/// The bytes up to the greatest number that is counted.
pub open spec fn counted_bytes(n: int) -> int {
    if n > u64::MAX {
        u64::MAX as int
    } else {
        n
    }
}

proof fn lemma_carried_by(ps: Seq<FetchResponsePartition>)
    requires
        forall|i: int|
            0 <= i < ps.len() ==> bytes_view((#[trigger] ps[i]).records).len() <= u64::MAX,
    ensures
        carried_by(ps) >= 0,
        bytes_in(ps) == counted_bytes(carried_by(ps)),
    decreases ps.len(),
{
    reveal(Seq::fold_left);
    if ps.len() > 0 {
        let front = ps.drop_last();
        assert forall|i: int| 0 <= i < front.len() implies bytes_view(
            (#[trigger] front[i]).records,
        ).len() <= u64::MAX by {
            assert(front[i] == ps[i]);
        }
        lemma_carried_by(front);
        assert(ps[ps.len() - 1] == ps.last());
    }
}

proof fn lemma_carried(ts: Seq<FetchResponseTopic>)
    requires
        forall|i: int, j: int|
            0 <= i < ts.len() && 0 <= j < ts[i].partitions@.len() ==> bytes_view(
                (#[trigger] ts[i].partitions@[j]).records,
            ).len() <= u64::MAX,
    ensures
        carried(ts) >= 0,
        bytes_in_topics(ts) == counted_bytes(carried(ts)),
    decreases ts.len(),
{
    reveal(Seq::fold_left);
    if ts.len() > 0 {
        let front = ts.drop_last();
        assert forall|i: int, j: int|
            0 <= i < front.len() && 0 <= j < front[i].partitions@.len() implies bytes_view(
            (#[trigger] front[i].partitions@[j]).records,
        ).len() <= u64::MAX by {
            assert(front[i] == ts[i]);
            assert(bytes_view(ts[i].partitions@[j].records).len() <= u64::MAX);
        }
        lemma_carried(front);
        let last = ts[ts.len() - 1];
        assert(last == ts.last());
        assert forall|j: int| 0 <= j < last.partitions@.len() implies bytes_view(
            (#[trigger] last.partitions@[j]).records,
        ).len() <= u64::MAX by {
            assert(bytes_view(ts[ts.len() - 1].partitions@[j].records).len() <= u64::MAX);
        }
        lemma_carried_by(last.partitions@);
    }
}

/// What a fetch is answered before its time is up, if no partition of it fails,
/// carries at least as many bytes of records as it asks for, over all topics and
/// partitions. It waits for as long as there are fewer, and no longer.
pub proof fn law_fetch_waits_for_enough(
    m: MetaView,
    r: FetchRequestModel,
    tails: Seq<Seq<Seq<u8>>>,
    time_is_up: bool,
    version: i16,
    id: i32,
    reply: ReplyModel,
)
    requires
        fetch_served(m, r, tails, time_is_up, version, id, reply),
    ensures
        exists|resp: FetchResponse|
            {
                let fails = exists|i: int, j: int|
                    0 <= i < resp.topics@.len() && 0 <= j < resp.topics@[i].partitions@.len() && (
                    #[trigger] resp.topics@[i].partitions@[j]).error_code != 0;
                &&& #[trigger] fetch_answered(m, r.topics, tails, resp)
                &&& reply == ReplyModel::Later <==> !time_is_up && !fails && carried(resp.topics@)
                    < r.min_bytes
                &&& reply != ReplyModel::Later ==> reply == answer_with(id, resp.encoded(version))
            },
{
    let resp = choose|resp: FetchResponse|
        {
            &&& #[trigger] fetch_answered(m, r.topics, tails, resp)
            &&& reply == if fetch_is_due(
                r.min_bytes,
                resp.topics@,
                time_is_up,
            ) {
                answer_with(id, resp.encoded(version))
            } else {
                ReplyModel::Later
            }
        };
    assert forall|i: int, j: int|
        0 <= i < resp.topics@.len() && 0 <= j < resp.topics@[i].partitions@.len() implies bytes_view(
        (#[trigger] resp.topics@[i].partitions@[j]).records,
    ).len() <= u64::MAX by {
        let t = resp.topics@[i];
        let x = t.partitions@[j];
        let q = r.topics[i].partitions[j];
        law_fetch_within_limits(m, r.topics[i].topic, q, tail_at(tails, i, j));
    }
    lemma_carried(resp.topics@);
    assert(any_error(resp.topics@) <==> exists|i: int, j: int|
        0 <= i < resp.topics@.len() && 0 <= j < resp.topics@[i].partitions@.len() && (
        #[trigger] resp.topics@[i].partitions@[j]).error_code != 0);
}

/// No partition is given more bytes than the request allows, nor a part of a
/// batch, nor a batch that begins before the offset it asks for.
pub proof fn law_fetch_within_limits(
    m: MetaView,
    topic: Seq<char>,
    q: FetchPartition,
    tail: Seq<u8>,
)
    ensures
        ({
            let f = fetched(m, topic, q, tail);
            &&& f.records.len() <= if q.partition_max_bytes > 1 {
                q.partition_max_bytes as int
            } else {
                1
            }
            &&& whole(f.records)
            &&& f.records.len() > 0 ==> frame_base(f.records) >= q.fetch_offset
        }),
{
    law_read_within_limit(tail, q.fetch_offset, partition_limit(q));
    law_read_is_whole(tail, q.fetch_offset, partition_limit(q));
    let fs = frames(tail);
    law_read_begins_at_the_offset(fs, q.fetch_offset);
    let k = choose|k: int|
        {
            &&& 0 <= k <= fs.len()
            &&& from_offset(fs, q.fetch_offset) == #[trigger] fs.skip(k)
            &&& forall|i: int| 0 <= i < k ==> frame_base(#[trigger] fs[i]) < q.fetch_offset
            &&& k < fs.len() ==> frame_base(fs[k]) >= q.fetch_offset
        };
    let s = selected(tail, q.fetch_offset, partition_limit(q));
    let gs = fs.skip(k);
    if s.len() > 0 {
        assert(gs.len() > 0 && gs[0].len() <= partition_limit(q));
        assert(gs[0] == fs[k]);
        lemma_frame_is_long(tail, k);
        assert(s.subrange(0, 8) =~= gs[0].subrange(0, 8));
    }
}

proof fn lemma_frame_is_long(s: Seq<u8>, k: int)
    requires
        0 <= k < frames(s).len(),
    ensures
        frames(s)[k].len() >= 12,
    decreases s.len(),
{
    match frame_len(s) {
        Some(n) if n > 0 => {
            if k > 0 {
                lemma_frame_is_long(s.skip(n as int), k - 1);
                assert(frames(s)[k] == frames(s.skip(n as int))[k - 1]);
            } else {
                assert(frames(s)[0] == s.take(n as int));
            }
        },
        _ => {},
    }
}

/// What a fetch says of a partition: one that there is not is answered 3, an offset
/// beyond the end 1, and nothing else is refused. It says where the log ends and
/// where it starts.
pub proof fn law_fetch_says_where_the_log_is(
    m: MetaView,
    topic: Seq<char>,
    q: FetchPartition,
    tail: Seq<u8>,
)
    ensures
        ({
            let f = fetched(m, topic, q, tail);
            let k = (topic, q.partition_index);
            &&& f.partition_index == q.partition_index
            &&& !m.logs.contains_key(k) ==> f.error_code == 3 && f.high_watermark == -1
            &&& m.logs.contains_key(k) ==> {
                &&& f.high_watermark == m.logs[k].high_watermark
                &&& f.log_start_offset == m.logs[k].log_start_offset
                &&& f.error_code == 1 <==> q.fetch_offset > m.logs[k].high_watermark
                &&& f.error_code == 0 <==> q.fetch_offset <= m.logs[k].high_watermark
            }
            &&& f.error_code != 0 ==> f.records.len() == 0
        }),
{
}

/// The answers stand in the order of the request, topic by topic and partition by
/// partition.
pub proof fn law_fetch_answers_in_order(
    m: MetaView,
    r: FetchRequestModel,
    tails: Seq<Seq<Seq<u8>>>,
    resp: FetchResponse,
    i: int,
    j: int,
)
    requires
        fetch_answered(m, r.topics, tails, resp),
        0 <= i < r.topics.len(),
        0 <= j < r.topics[i].partitions.len(),
    ensures
        resp.topics@.len() == r.topics.len(),
        resp.topics@[i].topic@ == r.topics[i].topic,
        resp.topics@[i].partitions@.len() == r.topics[i].partitions.len(),
        ({
            let p = resp.topics@[i].partitions@[j];
            let q = r.topics[i].partitions[j];
            let k = (r.topics[i].topic, q.partition_index);
            &&& p.partition_index == q.partition_index
            &&& m.logs.contains_key(k) ==> p.high_watermark == m.logs[k].high_watermark
                && p.last_stable_offset == m.logs[k].high_watermark && p.log_start_offset
                == m.logs[k].log_start_offset
            &&& p.error_code == 0 <==> m.logs.contains_key(k) && q.fetch_offset
                <= m.logs[k].high_watermark
            &&& bytes_view(p.records) == fetched(
                m,
                r.topics[i].topic,
                q,
                tail_at(tails, i, j),
            ).records
        }),
{
    let t = resp.topics@[i];
    let p = t.partitions@[j];
}

/// A fetch is kept waiting no longer than it says, and not at all if it says a
/// negative time.
pub proof fn law_fetch_waits_as_long_as_it_says(max_wait_ms: i32)
    ensures
        max_wait_ms >= 0 ==> wait_limit(max_wait_ms) == max_wait_ms,
        max_wait_ms < 0 ==> wait_limit(max_wait_ms) == 0,
{
}

// ---------------------------------------------------------------------------
// Topics

/// The partitions that a topic lacks are those below the number that have no log,
/// in their order.
pub proof fn law_missing_partitions(m: MetaView, topic: Seq<char>, n: i32)
    ensures
        forall|p: i32| #[trigger]
            missing(m, topic, n as int).contains(p) <==> 0 <= p < n && !m.logs.contains_key(
                (topic, p),
            ),
        forall|i: int, j: int|
            0 <= i < j < missing(m, topic, n as int).len() ==> #[trigger] missing(
                m,
                topic,
                n as int,
            )[i] < #[trigger] missing(m, topic, n as int)[j],
{
    lemma_missing(m, topic, n as int);
    lemma_missing_in_order(m, topic, n as int);
}

proof fn lemma_missing_in_order(m: MetaView, topic: Seq<char>, n: int)
    requires
        n <= i32::MAX,
    ensures
        forall|i: int| 0 <= i < missing(m, topic, n).len() ==> #[trigger] missing(m, topic, n)[i]
            < n,
        forall|i: int, j: int|
            0 <= i < j < missing(m, topic, n).len() ==> #[trigger] missing(m, topic, n)[i]
                < #[trigger] missing(m, topic, n)[j],
    decreases n,
{
    if n > 0 {
        let before = missing(m, topic, n - 1);
        let all = missing(m, topic, n);
        lemma_missing_in_order(m, topic, n - 1);
        assert(forall|i: int| 0 <= i < before.len() ==> #[trigger] all[i] == before[i]);
        assert forall|i: int, j: int| 0 <= i < j < all.len() implies #[trigger] all[i]
            < #[trigger] all[j] by {
            assert(all[i] == before[i]);
            if j < before.len() {
                assert(all[j] == before[j]);
            }
        }
    }
}

/// What is created because it is asked for: the topics of a metadata request that
/// are not known, if it allows that, with the default number of partitions; of a
/// produce request those that it has partitions of without a log; and what a
/// request to create names, with the number that it names. No other request
/// creates anything.
pub proof fn law_what_is_created(m: MetaView, setup: Setup, req: RequestModel, w: Want)
    requires
        wants_of(m, setup, req).contains(w),
    ensures
        match req {
            RequestModel::Metadata(r) => {
                &&& r.allow_auto_topic_creation
                &&& r.topics.contains(w.0)
                &&& !m.topics.contains_key(w.0)
                &&& w.1 == default_partitions_of(setup.config.num_partitions)
            },
            RequestModel::Produce(r) => {
                &&& r.acks == 0 || r.acks == 1 || r.acks == -1
                &&& exists|i: int, j: int|
                    {
                        &&& 0 <= i < r.topic_data.len()
                        &&& 0 <= j < r.topic_data[i].partitions.len()
                        &&& r.topic_data[i].topic == w.0
                        &&& !m.logs.contains_key(
                            (
                                w.0,
                                (#[trigger] r.topic_data[i].partitions[j]).partition_index,
                            ),
                        )
                    }
                &&& w.1 == default_partitions_of(setup.config.num_partitions)
            },
            RequestModel::CreateTopics(r) => exists|i: int|
                0 <= i < r.topics.len() && (#[trigger] r.topics[i]).0 == w.0 && r.topics[i].1
                    == w.1,
            _ => false,
        },
{
    let all = wants_of(m, setup, req);
    let k = choose|k: int| 0 <= k < all.len() && all[k] == w;
    let n = default_partitions_of(setup.config.num_partitions);
    match req {
        RequestModel::Metadata(r) => {
            lemma_metadata_wants(m, r.topics, n, k);
        },
        RequestModel::Produce(r) => {
            lemma_produce_wants(m, r.topic_data, n, k);
        },
        RequestModel::CreateTopics(r) => {
            assert(r.topics[k].0 == w.0);
        },
        _ => {},
    }
}

/// Every topic that a request to create names is to be created, in its order, with the
/// number of partitions that the request names.
pub proof fn law_named_topics_are_created(
    m: MetaView,
    setup: Setup,
    r: CreateTopicsRequestModel,
    i: int,
)
    requires
        0 <= i < r.topics.len(),
    ensures
        ({
            let all = wants_of(m, setup, RequestModel::CreateTopics(r));
            &&& all.len() == r.topics.len()
            &&& all[i].0 == r.topics[i].0
            &&& all[i].1 == r.topics[i].1
        }),
{
}

proof fn lemma_metadata_wants(m: MetaView, names: Seq<Seq<char>>, n: i32, k: int)
    requires
        0 <= k < metadata_wants_of(m, names, n).len(),
    ensures
        names.contains(metadata_wants_of(m, names, n)[k].0),
        !m.topics.contains_key(metadata_wants_of(m, names, n)[k].0),
        metadata_wants_of(m, names, n)[k].1 == n,
    decreases names.len(),
{
    let front = names.drop_last();
    let before = metadata_wants_of(m, front, n);
    let all = metadata_wants_of(m, names, n);
    if k < before.len() {
        lemma_metadata_wants(m, front, n, k);
        assert(all[k] == before[k]);
        let i = choose|i: int| 0 <= i < front.len() && front[i] == before[k].0;
        assert(names[i] == before[k].0);
    } else {
        assert(names[names.len() - 1] == names.last());
    }
}

proof fn lemma_partition_wants(
    m: MetaView,
    topic: Seq<char>,
    ps: Seq<ProducePartitionModel>,
    n: i32,
    k: int,
)
    requires
        0 <= k < partition_wants_of(m, topic, ps, n).len(),
    ensures
        partition_wants_of(m, topic, ps, n)[k] == (topic, n),
        exists|j: int|
            0 <= j < ps.len() && !m.logs.contains_key((topic, (#[trigger] ps[j]).partition_index)),
    decreases ps.len(),
{
    let front = ps.drop_last();
    let before = partition_wants_of(m, topic, front, n);
    if k < before.len() {
        lemma_partition_wants(m, topic, front, n, k);
        let j = choose|j: int|
            0 <= j < front.len() && !m.logs.contains_key(
                (topic, (#[trigger] front[j]).partition_index),
            );
        assert(ps[j] == front[j]);
    } else {
        assert(ps[ps.len() - 1] == ps.last());
    }
}

proof fn lemma_produce_wants(m: MetaView, ts: Seq<ProduceTopicModel>, n: i32, k: int)
    requires
        0 <= k < produce_wants_of(m, ts, n).len(),
    ensures
        produce_wants_of(m, ts, n)[k].1 == n,
        exists|i: int, j: int|
            {
                &&& 0 <= i < ts.len()
                &&& 0 <= j < ts[i].partitions.len()
                &&& ts[i].topic == produce_wants_of(m, ts, n)[k].0
                &&& !m.logs.contains_key(
                    (ts[i].topic, (#[trigger] ts[i].partitions[j]).partition_index),
                )
            },
    decreases ts.len(),
{
    let front = ts.drop_last();
    let before = produce_wants_of(m, front, n);
    let all = produce_wants_of(m, ts, n);
    if k < before.len() {
        lemma_produce_wants(m, front, n, k);
        assert(all[k] == before[k]);
        let (i, j) = choose|i: int, j: int|
            {
                &&& 0 <= i < front.len()
                &&& 0 <= j < front[i].partitions.len()
                &&& front[i].topic == before[k].0
                &&& !m.logs.contains_key(
                    (front[i].topic, (#[trigger] front[i].partitions[j]).partition_index),
                )
            };
        assert(ts[i] == front[i]);
        assert(!m.logs.contains_key((ts[i].topic, ts[i].partitions[j].partition_index)));
    } else {
        let i = ts.len() - 1;
        let last = ts[i];
        assert(last == ts.last());
        lemma_partition_wants(m, last.topic, last.partitions, n, k - before.len());
        let j = choose|j: int|
            0 <= j < last.partitions.len() && !m.logs.contains_key(
                (last.topic, (#[trigger] last.partitions[j]).partition_index),
            );
        assert(!m.logs.contains_key((ts[i].topic, ts[i].partitions[j].partition_index)));
    }
}

/// Every topic that a metadata request names and that is not known is created, if
/// the request allows it.
pub proof fn law_asked_topics_are_created(m: MetaView, names: Seq<Seq<char>>, n: i32, i: int)
    requires
        0 <= i < names.len(),
        !m.topics.contains_key(names[i]),
    ensures
        metadata_wants_of(m, names, n).contains((names[i], n)),
    decreases names.len(),
{
    let front = names.drop_last();
    let before = metadata_wants_of(m, front, n);
    let all = metadata_wants_of(m, names, n);
    if i < front.len() {
        assert(front[i] == names[i]);
        law_asked_topics_are_created(m, front, n, i);
        let k = choose|k: int| 0 <= k < before.len() && before[k] == (names[i], n);
        assert(all[k] == (names[i], n));
    } else {
        assert(all[before.len() as int] == (names[i], n));
    }
}

/// The default number of partitions is that of the configuration, but at least
/// one.
pub proof fn law_default_partitions(n: i32)
    ensures
        n >= 1 ==> default_partitions_of(n) == n,
        n < 1 ==> default_partitions_of(n) == 1,
{
}

/// A topic that was created is known, not as an internal one; nothing changes
/// about others.
pub proof fn law_created_topics_are_known(m: MetaView, wants: Seq<Want>, t: Seq<char>)
    ensures
        with_topics(m, wants).topics.contains_key(t) <==> m.topics.contains_key(t) || exists|
            i: int,
        |
            0 <= i < wants.len() && (#[trigger] wants[i]).0 == t,
        m.topics.contains_key(t) ==> with_topics(m, wants).topics[t] == m.topics[t],
        !m.topics.contains_key(t) && with_topics(m, wants).topics.contains_key(t) ==> with_topics(
            m,
            wants,
        ).topics[t] == (TopicModel { name: t, is_internal: false, partitions: Seq::empty() }),
        with_topics(m, wants).logs == m.logs,
    decreases wants.len(),
{
    if wants.len() > 0 {
        let front = wants.drop_last();
        law_created_topics_are_known(m, front, t);
        assert(wants[wants.len() - 1] == wants.last());
        if exists|i: int| 0 <= i < front.len() && (#[trigger] front[i]).0 == t {
            let i = choose|i: int| 0 <= i < front.len() && (#[trigger] front[i]).0 == t;
            assert(wants[i].0 == t);
        }
        if exists|i: int| 0 <= i < wants.len() && (#[trigger] wants[i]).0 == t {
            let i = choose|i: int| 0 <= i < wants.len() && (#[trigger] wants[i]).0 == t;
            if i < front.len() {
                assert(front[i].0 == t);
            }
        }
    }
}

/// A partition that was opened has its log, and its topic lists it last, led and
/// held by this broker. Nothing changes about other partitions and topics.
pub proof fn law_opened_partition_is_listed(
    m: MetaView,
    topic: Seq<char>,
    partition: i32,
    broker_id: i32,
    log: LogView,
    other: PartitionKey,
)
    requires
        other != (topic, partition),
    ensures
        ({
            let w = with_partition(m, topic, partition, broker_id, log);
            let ps = w.topics[topic].partitions;
            &&& w.logs.get((topic, partition)) == Some(log)
            &&& w.logs.get(other) == m.logs.get(other)
            &&& other.0 != topic ==> w.topics.get(other.0) == m.topics.get(other.0)
            &&& w.topics.contains_key(topic)
            &&& ps.len() > 0
            &&& ps.last().topic == topic
            &&& ps.last().partition == partition
            &&& ps.last().leader == broker_id
            &&& ps.last().replicas == seq![broker_id]
            &&& ps.last().isr == seq![broker_id]
            &&& m.topics.contains_key(topic) ==> ps.drop_last() == m.topics[topic].partitions
                && w.topics[topic].is_internal == m.topics[topic].is_internal
            &&& !m.topics.contains_key(topic) ==> ps.len() == 1 && w.topics[topic].name == topic
                && !w.topics[topic].is_internal
        }),
{
    let w = with_partition(m, topic, partition, broker_id, log);
    if m.topics.contains_key(topic) {
        assert(w.topics[topic].partitions.drop_last() =~= m.topics[topic].partitions);
    }
}

/// What every metadata request is told: of one broker, which is the one that is
/// asked and controls the cluster, and how the cluster is named.
pub proof fn law_metadata_tells_of_the_broker(
    m: MetaView,
    setup: Setup,
    names: Seq<Seq<char>>,
    r: MetadataResponse,
)
    requires
        metadata_answered(m, setup, names, r),
    ensures
        r.brokers@.len() == 1,
        r.brokers@[0].node_id == setup.id,
        r.brokers@[0].host@ == setup.host,
        r.brokers@[0].port == setup.port,
        r.controller_id == setup.id,
        r.cluster_id.model() == Some("rivine-cluster"@),
{
}

/// What a metadata request is told of a topic that it names: what the broker knows
/// of it, or that it is unknown; in the order in which it names them.
pub proof fn law_metadata_tells_of_topics(
    m: MetaView,
    setup: Setup,
    names: Seq<Seq<char>>,
    r: MetadataResponse,
    i: int,
)
    requires
        metadata_answered(m, setup, names, r),
        0 <= i < names.len(),
    ensures
        r.brokers@.len() == 1,
        r.brokers@[0].node_id == setup.id,
        r.controller_id == setup.id,
        r.topics@.len() == names.len(),
        r.topics@[i].name@ == topic_or_bare(m, names[i], false).name,
        !m.topics.contains_key(names[i]) ==> r.topics@[i].error_code == 3
            && r.topics@[i].partitions@.len() == 0 && r.topics@[i].name@ == names[i]
            && !r.topics@[i].is_internal,
        m.topics.contains_key(names[i]) ==> {
            let t = m.topics[names[i]];
            &&& r.topics@[i].is_internal == t.is_internal
            &&& r.topics@[i].partitions@.len() == t.partitions.len()
            &&& r.topics@[i].error_code == if t.partitions.len() == 0 {
                3i16
            } else {
                0i16
            }
            &&& forall|j: int|
                0 <= j < t.partitions.len() ==> {
                    let p = #[trigger] r.topics@[i].partitions@[j];
                    &&& p.error_code == 0
                    &&& p.partition_index == t.partitions[j].partition
                    &&& p.leader_id == t.partitions[j].leader
                    &&& p.replica_nodes@ == t.partitions[j].replicas
                    &&& p.isr_nodes@ == t.partitions[j].isr
                }
        },
{
    let t = r.topics@[i];
    if m.topics.contains_key(names[i]) {
        let k = m.topics[names[i]];
        assert forall|j: int| 0 <= j < k.partitions.len() implies {
            let p = #[trigger] t.partitions@[j];
            &&& p.error_code == 0
            &&& p.partition_index == k.partitions[j].partition
            &&& p.leader_id == k.partitions[j].leader
            &&& p.replica_nodes@ == k.partitions[j].replicas
            &&& p.isr_nodes@ == k.partitions[j].isr
        } by {
            let p = t.partitions@[j];
            assert(says_partition(p, k.partitions[j]));
        }
    }
}

/// A metadata request that names no topic is told of every topic, each once.
pub proof fn law_metadata_tells_of_all(
    m: MetaView,
    setup: Setup,
    r: MetadataResponse,
    t: Seq<char>,
)
    requires
        metadata_answered(m, setup, Seq::empty(), r),
        m.topics.contains_key(t),
    ensures
        exists|i: int|
            {
                &&& 0 <= i < r.topics@.len()
                &&& (#[trigger] r.topics@[i]).name@ == m.topics[t].name
                &&& r.topics@[i].is_internal == m.topics[t].is_internal
                &&& r.topics@[i].partitions@.len() == m.topics[t].partitions.len()
            },
{
    let list = choose|list: Seq<(Seq<char>, TopicModel)>| #[trigger]
        goes_through(list, m.topics) && says_topics(
            r.topics@,
            values_of(list),
        );
    let i = choose|i: int| 0 <= i < list.len() && (#[trigger] list[i]).0 == t;
    assert(values_of(list)[i] == m.topics[t]);
    let x = r.topics@[i];
    assert(says_topic(x, m.topics[t]));
}

/// The last offsets of a log, latest first: as many as are asked for, if there
/// are that many.
pub proof fn law_latest_offsets(leo: i64, log_start: i64, n: int)
    requires
        n >= 1,
        0 <= log_start <= leo <= i32::MAX,
    ensures
        ({
            let os = latest_offsets(leo, log_start, n);
            &&& os.len() <= n
            &&& os.len() <= leo - log_start
            &&& os.len() == n || os.len() == leo - log_start
            &&& forall|i: int| 0 <= i < os.len() ==> #[trigger] os[i] == leo - 1 - i
            &&& forall|i: int| 0 <= i < os.len() ==> log_start <= #[trigger] os[i] < leo
        }),
{
}

// ---------------------------------------------------------------------------
// Groups

/// A commit that is taken is remembered for its group, topic and partition, and
/// what is to be written for it goes to the topic of commits.
pub proof fn law_commit_is_remembered(
    st: CommitState,
    group: Seq<char>,
    topic: Seq<char>,
    c: Commit,
    partitions: i32,
    now: i64,
)
    ensures
        ({
            let t = after_commit(st, group, topic, c, partitions, now);
            &&& t.offsets.get((group, topic, c.0)) == Some((c.1, c.2))
            &&& forall|k: OffsetKey|
                k != (group, topic, c.0) ==> #[trigger] t.offsets.get(k) == st.offsets.get(k)
            &&& st.writes.is_prefix_of(t.writes)
            &&& forall|i: int|
                st.writes.len() <= i < t.writes.len() ==> (#[trigger] t.writes[i]).topic
                    == CONSUMER_OFFSETS_TOPIC@
        }),
{
    let t = after_commit(st, group, topic, c, partitions, now);
    assert(st.writes.is_prefix_of(t.writes));
}

/// A commit is written to the partition of its group, if there is one that takes it.
pub proof fn law_commit_is_written_down(
    st: CommitState,
    group: Seq<char>,
    topic: Seq<char>,
    c: Commit,
    partitions: i32,
    now: i64,
)
    requires
        ({
            let k = (CONSUMER_OFFSETS_TOPIC@, group_partition(group, partitions));
            let b = commit_batch((group, topic, c.0), (c.1, c.2), 0, now);
            &&& st.meta.logs.contains_key(k)
            &&& batch_fits(b, Compression::Plain)
            &&& log_append(st.meta.logs[k], b, now) is Ok
        }),
    ensures
        ({
            let k = (CONSUMER_OFFSETS_TOPIC@, group_partition(group, partitions));
            let b = commit_batch((group, topic, c.0), (c.1, c.2), 0, now);
            let (u, r, w) = log_append(st.meta.logs[k], b, now)->Ok_0;
            let t = after_commit(st, group, topic, c, partitions, now);
            &&& t.meta.logs == st.meta.logs.insert(k, u)
            &&& t.writes.len() == st.writes.len() + 1
            &&& t.writes.last().topic == k.0
            &&& t.writes.last().partition == k.1
            &&& t.writes.last().write == w
        }),
{
    let k = (CONSUMER_OFFSETS_TOPIC@, group_partition(group, partitions));
    let b = commit_batch((group, topic, c.0), (c.1, c.2), 0, now);
    let s0 = append_start(st.meta.logs[k], Seq::empty());
    lemma_one_batch(s0, b, now);
    let t = after_commit(st, group, topic, c, partitions, now);
    assert(t.writes.last() == t.writes[st.writes.len() as int]);
}

/// Groups are listed in the order of their ids, each in one of the states that were
/// asked for.
pub proof fn law_groups_are_listed_in_order(
    r: Seq<Listed>,
    groups: Map<Seq<char>, GroupModel>,
    commits: Seq<OffsetModel>,
    states: Seq<Seq<char>>,
    i: int,
    j: int,
)
    requires
        groups_listed(r, groups, commits, states),
        0 <= i <= j < r.len(),
    ensures
        bytes_ordered(encode_utf8(r[i].0), encode_utf8(r[j].0)),
        groups.contains_key(r[i].0) ==> r[i].2 == state_name(groups[r[i].0].state),
        !groups.contains_key(r[i].0) ==> r[i].2 == "Empty"@,
        states.len() > 0 ==> states.contains(r[i].2),
{
    let entries = choose|entries: Seq<(Seq<char>, Seq<char>)>| #[trigger]
        lists_groups(entries, groups, commits) && r.to_multiset() == all_listed(
            groups,
            entries,
            states,
        ).to_multiset();
    let all = all_listed(groups, entries, states);
    r.to_multiset_ensures();
    all.to_multiset_ensures();
    assert(r.contains(r[i]));
    assert(r.to_multiset().count(r[i]) > 0);
    assert(all.contains(r[i]));
    law_listed_by_state(groups, entries, states, r[i]);
    assert(ordered(r[i].0, r[j].0));
}

/// What is answered for an offset that was committed, and for one that was not.
pub proof fn law_offset_answers(
    offsets: Map<OffsetKey, OffsetValue>,
    group: Seq<char>,
    topic: Seq<char>,
    partition: i32,
)
    ensures
        ({
            let a = offset_answer(offsets, group, topic, partition);
            let k = (group, topic, partition);
            &&& a.0 == partition
            &&& a.3 == 0
            &&& offsets.contains_key(k) ==> a.1 == offsets[k].0 && a.2 == offsets[k].1
            &&& !offsets.contains_key(k) ==> a.1 == -1 && a.2 is None
        }),
{
}

/// A listed group is told with its type and its state; one that only committed is
/// empty. A list for given states has the groups in those states, and no others; a
/// list for none has all.
pub proof fn law_listed_by_state(
    groups: Map<Seq<char>, GroupModel>,
    entries: Seq<(Seq<char>, Seq<char>)>,
    states: Seq<Seq<char>>,
    x: Listed,
)
    ensures
        all_listed(groups, entries, states).contains(x) <==> {
            &&& entries.contains((x.0, x.1))
            &&& groups.contains_key(x.0) ==> x.2 == state_name(groups[x.0].state)
            &&& !groups.contains_key(x.0) ==> x.2 == "Empty"@
            &&& states.len() == 0 || states.contains(x.2)
        },
    decreases entries.len(),
{
    if entries.len() > 0 {
        let front = entries.drop_last();
        let before = all_listed(groups, front, states);
        let all = all_listed(groups, entries, states);
        let last = listed(groups, entries.last());
        law_listed_by_state(groups, front, states, x);
        let e = (x.0, x.1);
        assert(entries.contains(e) <==> front.contains(e) || entries.last() == e) by {
            if front.contains(e) {
                let i = choose|i: int| 0 <= i < front.len() && front[i] == e;
                assert(entries[i] == e);
            }
            assert(entries[entries.len() - 1] == entries.last());
            if entries.contains(e) && entries.last() != e {
                let i = choose|i: int| 0 <= i < entries.len() && entries[i] == e;
                assert(front[i] == e);
            }
        }
        assert(entries.last() == (entries.last().0, entries.last().1));
        assert(all.contains(x) <==> before.contains(x) || (x == last && (states.len() == 0
            || states.contains(last.2)))) by {
            if before.contains(x) {
                let i = choose|i: int| 0 <= i < before.len() && before[i] == x;
                assert(all[i] == x);
            }
            if states.len() == 0 || states.contains(last.2) {
                assert(all[before.len() as int] == last);
            }
            if all.contains(x) {
                let i = choose|i: int| 0 <= i < all.len() && all[i] == x;
                if i < before.len() {
                    assert(before[i] == x);
                }
            }
        }
        assert(x == (x.0, x.1, x.2));
    }
}

/// A request to leave a group, or for an assignment, concerns no other group.
pub proof fn law_requests_concern_one_group(
    groups: Map<Seq<char>, GroupModel>,
    leave: LeaveGroupRequestModel,
    sync: SyncGroupRequestModel,
    other: Seq<char>,
)
    ensures
        other != leave.group_id ==> groups_after_leave(groups, leave).get(other) == groups.get(
            other,
        ),
        !groups.contains_key(leave.group_id) ==> groups_after_leave(groups, leave) == groups,
        other != sync.group_id ==> groups_after_sync(groups, sync).get(other) == groups.get(other),
{
}

/// Commits are taken one after the other, in the order of the request.
pub proof fn law_committed_in_turn(
    st: CommitState,
    group: Seq<char>,
    a: Seq<(Seq<char>, Seq<Commit>)>,
    t: (Seq<char>, Seq<Commit>),
    cs: Seq<Commit>,
    c: Commit,
    topic: Seq<char>,
    partitions: i32,
    now: i64,
)
    ensures
        after_commits(st, group, Seq::empty(), partitions, now) == st,
        after_commits(st, group, a.push(t), partitions, now)
            == after_topic_commits(
            after_commits(st, group, a, partitions, now),
            group,
            t.0,
            t.1,
            partitions,
            now,
        ),
        after_topic_commits(
            st,
            group,
            topic,
            cs.push(c),
            partitions,
            now,
        ) == after_commit(
            after_topic_commits(st, group, topic, cs, partitions, now),
            group,
            topic,
            c,
            partitions,
            now,
        ),
{
    assert(a.push(t).drop_last() =~= a);
    assert(cs.push(c).drop_last() =~= cs);
}

/// What is told of a group: its id, state and type, and of every member its id,
/// metadata and assignment, in the order of the members. A group that is not known
/// is dead and has no members.
pub proof fn law_group_is_described(
    rs: Seq<DescribedGroup>,
    groups: Map<Seq<char>, GroupModel>,
    ids: Seq<Seq<char>>,
    i: int,
)
    requires
        says_groups(rs, groups, ids),
        0 <= i < ids.len(),
    ensures
        rs.len() == ids.len(),
        rs[i].error_code == 0,
        rs[i].group_id@ == ids[i],
        !groups.contains_key(ids[i]) ==> rs[i].group_state@ == "Dead"@ && rs[i].members@.len() == 0
            && rs[i].protocol_type@.len() == 0,
        groups.contains_key(ids[i]) ==> {
            let g = groups[ids[i]];
            &&& rs[i].group_state@ == state_name(g.state)
            &&& rs[i].protocol_type@ == g.protocol_type
            &&& rs[i].members@.len() == g.members.len()
            &&& forall|k: int|
                0 <= k < g.members.len() ==> {
                    let m = #[trigger] rs[i].members@[k];
                    &&& m.member_id@ == g.members[k].member_id
                    &&& bytes_view(m.member_metadata) == g.members[k].metadata
                    &&& bytes_view(m.member_assignment) == g.members[k].assignment
                }
        },
{
    let r = rs[i];
    assert(says_group(r, groups, ids[i]));
    if groups.contains_key(ids[i]) {
        let g = groups[ids[i]];
        assert forall|k: int| 0 <= k < g.members.len() implies {
            let m = #[trigger] r.members@[k];
            &&& m.member_id@ == g.members[k].member_id
            &&& bytes_view(m.member_metadata) == g.members[k].metadata
            &&& bytes_view(m.member_assignment) == g.members[k].assignment
        } by {
            let m = r.members@[k];
            assert(says_member(m, g.members[k]));
        }
    }
}

/// Who joins is told what the coordinator decided, and the type that it asked with.
pub proof fn law_join_is_told(
    groups: Map<Seq<char>, GroupModel>,
    r: JoinGroupRequestModel,
    elapsed: u128,
    resp: JoinGroupResponse,
)
    requires
        says_joined(
            resp,
            r.protocol_type,
            answer_to_join(
                groups,
                join_asked(r),
                elapsed,
            ),
        ),
    ensures
        ({
            let q = join_asked(r);
            let a = answer_to_join(groups, q, elapsed);
            &&& q.group_id == r.group_id
            &&& q.member_id == r.member_id
            &&& q.session_timeout_ms == r.session_timeout_ms
            &&& q.rebalance_timeout_ms == r.rebalance_timeout_ms
            &&& q.protocol_type == r.protocol_type
            &&& q.protocols == r.group_protocols
            &&& resp.error_code == a.error_code
            &&& resp.generation_id == a.generation_id
            &&& resp.leader@ == a.leader
            &&& resp.member_id@ == a.member_id
            &&& resp.members.model() == a.members
            &&& resp.protocol_name.model() == a.protocol
            &&& resp.protocol_type.model() == Some(r.protocol_type)
            &&& resp.throttle_time_ms == 0
        }),
{
}

/// Who asks for its assignment is told it, once it is a member in the generation
/// that it says; else why not, and nothing changes.
pub proof fn law_sync_is_told(
    h: RequestHeaderModel,
    r: SyncGroupRequestModel,
    cx: Context,
    a: State,
    b: State,
    reply: ReplyModel,
)
    requires
        served(h, RequestModel::SyncGroup(r), cx, a, b, reply),
    ensures
        exists|resp: SyncGroupResponse|
            {
                let g = a.view.groups.get(r.group_id);
                let refusal = member_refusal(
                    g,
                    r.generation_id,
                    r.member_id,
                );
                &&& reply == answer_with(h.correlation_id, #[trigger] resp.encoded(h.api_version))
                &&& refusal matches Some(code) ==> resp.error_code == code && bytes_view(
                    resp.assignment,
                ).len() == 0 && b.view.groups == a.view.groups
                &&& refusal is None ==> {
                    &&& resp.error_code == 0
                    &&& b.view.groups.contains_key(r.group_id)
                    &&& b.view.groups[r.group_id].state == GroupState::Stable
                    &&& exists|k: int|
                        {
                            &&& 0 <= k < b.view.groups[r.group_id].members.len()
                            &&& (#[trigger] b.view.groups[r.group_id].members[k]).member_id
                                == r.member_id
                            &&& b.view.groups[r.group_id].members[k].assignment == bytes_view(
                                resp.assignment,
                            )
                        }
                }
            },
{
    let g = a.view.groups.get(r.group_id);
    let refusal = member_refusal(g, r.generation_id, r.member_id);
    let resp = choose|resp: SyncGroupResponse|
        {
            &&& resp.throttle_time_ms == 0
            &&& match refusal {
                Some(code) => resp.error_code == code && bytes_view(resp.assignment).len() == 0,
                None => {
                    let ms = after_sync(
                        g->Some_0,
                        r.member_id,
                        r.assignments,
                    ).members;
                    &&& resp.error_code == error_codes::NONE
                    &&& bytes_view(resp.assignment)
                        == ms[member_at(ms, r.member_id)].assignment
                },
            }
            &&& reply == answer_with(h.correlation_id, #[trigger] resp.encoded(h.api_version))
        };
    if refusal is None {
        let before = g->Some_0.members;
        let ms = b.view.groups[r.group_id].members;
        lemma_assigned_ids(before, r.assignments);
        lemma_same_ids(
            before,
            assigned(before, r.assignments),
            r.member_id,
        );
        lemma_member_at(ms, r.member_id);
        let k = member_at(ms, r.member_id);
        assert(ms[k].member_id == r.member_id);
    }
}

// ---------------------------------------------------------------------------
// All requests

/// What a request may change: a produce request the logs, a request to delete the
/// topics, one that commits the logs and the offsets, one for a producer's id the
/// ids, and what concerns groups the groups. Nothing else changes anything.
pub proof fn law_what_a_request_may_change(
    h: RequestHeaderModel,
    req: RequestModel,
    cx: Context,
    a: State,
    b: State,
    reply: ReplyModel,
)
    requires
        served(h, req, cx, a, b, reply),
    ensures
        b.view.groups == a.view.groups || req is JoinGroup || req is SyncGroup || req is Heartbeat
            || req is LeaveGroup,
        b.view.offsets == a.view.offsets || req is OffsetCommit,
        b.view.meta == a.view.meta || req is Produce || req is DeleteTopics || req is OffsetCommit,
        b.view.meta.topics == a.view.meta.topics || req is Produce || req is DeleteTopics
            || req is OffsetCommit,
        b.next_producer_id == a.next_producer_id || req is InitProducerId,
        b.gone == a.gone || req is DeleteTopics,
        b.writes == a.writes || req is Produce || req is OffsetCommit,
        req is Fetch || req is Metadata || req is ListOffsets || req is ApiVersions
            || req is FindCoordinator || req is OffsetFetch || req is ListGroups
            || req is DescribeGroups || req is CreateTopics ==> b == a,
        reply is Later ==> req is Fetch,
        reply is Silence ==> req is Produce || req is Malformed,
{
}

/// Requests are answered from what the broker holds when they come: a fetch from its
/// logs, as long as there is time; a request for metadata from its topics; one for
/// offsets from those committed; and one on groups from the groups.
pub proof fn law_answered_from_what_is_held(
    h: RequestHeaderModel,
    req: RequestModel,
    cx: Context,
    a: State,
    b: State,
    reply: ReplyModel,
)
    requires
        served(h, req, cx, a, b, reply),
    ensures
        ({
            let v = h.api_version;
            let id = h.correlation_id;
            &&& req matches RequestModel::Fetch(r) ==> fetch_served(
                a.view.meta,
                r,
                cx.tails,
                cx.time_is_up,
                v,
                id,
                reply,
            )
            &&& req matches RequestModel::Metadata(r) ==> exists|resp: MetadataResponse|
                metadata_answered(a.view.meta, cx.setup, r.topics, resp) && reply == answer_with(
                    id,
                    #[trigger] resp.encoded(v),
                )
            &&& req matches RequestModel::OffsetFetch(r) ==> exists|resp: OffsetFetchResponse|
                {
                    &&& reply == answer_with(id, #[trigger] resp.encoded(v))
                    &&& resp.throttle_time_ms == 0
                    &&& resp.error_code == 0
                    &&& resp.topics.model().len() == r.topics.len()
                    &&& forall|i: int, j: int|
                        0 <= i < r.topics.len() && 0 <= j < r.topics[i].1.len() ==> {
                            &&& resp.topics.model()[i].0 == r.topics[i].0
                            &&& resp.topics.model()[i].1.len() == r.topics[i].1.len()
                            &&& #[trigger] resp.topics.model()[i].1[j] == offset_answer(
                                a.view.offsets,
                                r.group_id,
                                r.topics[i].0,
                                r.topics[i].1[j],
                            )
                        }
                }
            &&& req matches RequestModel::ListGroups(states) ==> exists|resp: ListGroupsResponse|
                {
                    &&& reply == answer_with(id, #[trigger] resp.encoded(v))
                    &&& resp.throttle_time_ms == 0
                    &&& resp.error_code == 0
                    &&& groups_listed(resp.groups.model(), a.view.groups, cx.commits, states)
                }
            &&& req matches RequestModel::DescribeGroups(ids) ==> exists|
                resp: DescribeGroupsResponse,
            |
                {
                    &&& reply == answer_with(id, #[trigger] resp.encoded(v))
                    &&& resp.throttle_time_ms == 0
                    &&& says_groups(resp.groups@, a.view.groups, ids)
                }
        }),
{
    match req {
        RequestModel::OffsetFetch(r) => {
            let resp = choose|resp: OffsetFetchResponse|
                {
                    &&& resp.throttle_time_ms == 0
                    &&& resp.error_code == error_codes::NONE
                    &&& resp.topics.model() == all_offset_answers(
                        a.view.offsets,
                        r.group_id,
                        r.topics,
                    )
                    &&& reply == answer_with(
                        h.correlation_id,
                        #[trigger] resp.encoded(h.api_version),
                    )
                };
            assert(reply == answer_with(h.correlation_id, resp.encoded(h.api_version)));
        },
        _ => {},
    }
}

/// Requests on groups change the group that they name, at the time at which they
/// come: who joins is told what its joining came to, and whose heartbeat is taken has
/// been heard.
pub proof fn law_groups_change_as_asked(
    h: RequestHeaderModel,
    req: RequestModel,
    cx: Context,
    a: State,
    b: State,
    reply: ReplyModel,
)
    requires
        served(h, req, cx, a, b, reply),
    ensures
        ({
            let v = h.api_version;
            let id = h.correlation_id;
            &&& req matches RequestModel::JoinGroup(r) ==> {
                let q = join_asked(r);
                &&& b.view.groups == groups_after_join(a.view.groups, q, cx.elapsed)
                &&& exists|resp: JoinGroupResponse|
                    says_joined(
                        resp,
                        r.protocol_type,
                        answer_to_join(a.view.groups, q, cx.elapsed),
                    ) && reply == answer_with(id, #[trigger] resp.encoded(v))
            }
            &&& req matches RequestModel::Heartbeat(r) ==> exists|code: i16|
                {
                    &&& #[trigger] heartbeat_says(
                        a.view.groups,
                        r.group_id,
                        r.generation_id,
                        r.member_id,
                        cx.elapsed,
                        b.view.groups,
                        code,
                    )
                    &&& v < 1 ==> reply == answer_with(id, enc_i16(code))
                    &&& v >= 1 ==> reply == answer_with(id, enc_i32(0) + enc_i16(code))
                }
        }),
{
    match req {
        RequestModel::Heartbeat(r) => {
            let code = choose|code: i16|
                {
                    &&& #[trigger] heartbeat_says(
                        a.view.groups,
                        r.group_id,
                        r.generation_id,
                        r.member_id,
                        cx.elapsed,
                        b.view.groups,
                        code,
                    )
                    &&& reply == answer_with(h.correlation_id, enc_outcome(h.api_version, code))
                };
            assert(Seq::<u8>::empty() + enc_i16(code) =~= enc_i16(code));
        },
        _ => {},
    }
}

/// What a request brings is stored, whether it is to be answered or not.
pub proof fn law_what_is_brought_is_stored(
    h: RequestHeaderModel,
    r: ProduceRequestModel,
    cx: Context,
    a: State,
    b: State,
    reply: ReplyModel,
)
    requires
        served(h, RequestModel::Produce(r), cx, a, b, reply),
    ensures
        ({
            let st = ProduceState { meta: a.view.meta, writes: a.writes };
            let t = after_topics(st, r.acks, cx.read, cx.now);
            &&& b.view.meta == t.meta
            &&& b.writes == t.writes
            &&& r.acks == 0 <==> reply == ReplyModel::Silence
            &&& r.acks != 0 ==> exists|resp: ProduceResponse|
                {
                    &&& reply == answer_with(
                        h.correlation_id,
                        #[trigger] resp.encoded(h.api_version),
                    )
                    &&& resp.throttle_time_ms == 0
                    &&& topics_answered(st, r.acks, cx.read, cx.now, resp.topics@)
                }
        }),
{
}

/// What is deleted is gone: the broker knows neither the topics nor their logs, and
/// the logs are to be removed. What was to be removed before still is.
pub proof fn law_deleted_logs_are_gone(
    h: RequestHeaderModel,
    r: DeleteTopicsRequestModel,
    cx: Context,
    a: State,
    b: State,
    reply: ReplyModel,
    k: PartitionKey,
)
    requires
        served(h, RequestModel::DeleteTopics(r), cx, a, b, reply),
    ensures
        r.topic_names.contains(k.0) ==> !b.view.meta.topics.contains_key(k.0)
            && !b.view.meta.logs.contains_key(k),
        !r.topic_names.contains(k.0) ==> b.view.meta.topics.get(k.0) == a.view.meta.topics.get(k.0)
            && b.view.meta.logs.get(k) == a.view.meta.logs.get(k),
        b.gone.contains(k) <==> a.gone.contains(k) || (r.topic_names.contains(k.0)
            && a.view.meta.logs.contains_key(k)),
{
    law_deleted_topics_are_unknown(a.view.meta, r.topic_names, k.0);
    assert(k == (k.0, k.1));
    let w = without_topics(a.view.meta, r.topic_names);
    if r.topic_names.contains(k.0) {
        assert(!w.logs.contains_key((k.0, k.1)));
    } else {
        assert(w.logs.get((k.0, k.1)) == a.view.meta.logs.get((k.0, k.1)));
    }
}

/// A broker answers as it was set up: with its own address and number.
pub proof fn law_set_up_as_it_was(h: RequestHandler)
    ensures
        h.setup().host == h.broker_host@,
        h.setup().port == h.broker_port,
        h.setup().id == h.broker_id,
        h.setup().config == h.metadata.config,
        h.setup().offsets_partitions == h.groups.offset_store.offsets_topic_partitions,
{
}

/// Which request is which: the number in the header decides, and one that is not
/// known is not supported.
pub proof fn law_kinds_of_requests(c: Cursor, key: i16, version: i16)
    ensures
        ({
            let r = body_at(c, key, version);
            let bad = r is Malformed;
            &&& key == 0 ==> r is Produce || bad
            &&& key == 1 ==> r is Fetch || bad
            &&& key == 2 ==> r is ListOffsets || bad
            &&& key == 3 ==> r is Metadata || bad
            &&& key == 8 ==> r is OffsetCommit || bad
            &&& key == 9 ==> r is OffsetFetch || bad
            &&& key == 10 ==> r is FindCoordinator || bad
            &&& key == 11 ==> r is JoinGroup || bad
            &&& key == 12 ==> r is Heartbeat || bad
            &&& key == 13 ==> r is LeaveGroup || bad
            &&& key == 14 ==> r is SyncGroup || bad
            &&& key == 15 ==> r is DescribeGroups || bad
            &&& key == 16 ==> r is ListGroups || bad
            &&& key == 18 ==> r is ApiVersions
            &&& key == 19 ==> r is CreateTopics || bad
            &&& key == 20 ==> r is DeleteTopics || bad
            &&& key == 22 ==> r is InitProducerId || bad
            &&& r is Unsupported ==> forall|i: int|
                0 <= i < SUPPORTED_API_KEYS@.len() ==> #[trigger] SUPPORTED_API_KEYS@[i].0 != key
        }),
{
}

/// A request says what stands in it, if it can be read, and is malformed if not.
pub proof fn law_what_is_asked(c: Cursor, key: i16, version: i16)
    ensures
        ({
            let r = body_at(c, key, version);
            &&& key == 0 ==> ({
                let (m, d) = sp_produce_request(c, version);
                &&& d.err is None ==> r == RequestModel::Produce(m)
                &&& d.err is Some ==> r is Malformed
            })
            &&& key == 1 ==> ({
                let (m, d) = sp_fetch_request(c, version);
                &&& d.err is None ==> r == RequestModel::Fetch(m)
                &&& d.err is Some ==> r is Malformed
            })
            &&& key == 2 ==> ({
                let (m, d) = sp_list_offsets_request(c, version);
                &&& d.err is None ==> r == RequestModel::ListOffsets(m)
                &&& d.err is Some ==> r is Malformed
            })
            &&& key == 3 ==> ({
                let (m, d) = sp_metadata_request(c, version);
                &&& d.err is None ==> r == RequestModel::Metadata(m)
                &&& d.err is Some ==> r is Malformed
            })
            &&& key == 8 ==> ({
                let (m, d) = sp_offset_commit_request(c, version);
                &&& d.err is None ==> r == RequestModel::OffsetCommit(m)
                &&& d.err is Some ==> r is Malformed
            })
            &&& key == 9 ==> ({
                let (m, d) = sp_offset_fetch_request(c, version);
                &&& d.err is None ==> r == RequestModel::OffsetFetch(m)
                &&& d.err is Some ==> r is Malformed
            })
            &&& key == 10 ==> ({
                let (m, d) = sp_string(c);
                &&& d.err is None ==> r == RequestModel::FindCoordinator(m)
                &&& d.err is Some ==> r is Malformed
            })
            &&& key == 11 ==> ({
                let (m, d) = sp_join_group_request(c, version);
                &&& d.err is None ==> r == RequestModel::JoinGroup(m)
                &&& d.err is Some ==> r is Malformed
            })
            &&& key == 12 ==> ({
                let (m, d) = sp_heartbeat_request(c);
                &&& d.err is None ==> r == RequestModel::Heartbeat(m)
                &&& d.err is Some ==> r is Malformed
            })
            &&& key == 13 ==> ({
                let (m, d) = sp_leave_group_request(c);
                &&& d.err is None ==> r == RequestModel::LeaveGroup(m)
                &&& d.err is Some ==> r is Malformed
            })
            &&& key == 14 ==> ({
                let (m, d) = sp_sync_group_request(c, version);
                &&& d.err is None ==> r == RequestModel::SyncGroup(m)
                &&& d.err is Some ==> r is Malformed
            })
            &&& key == 15 ==> ({
                let (m, d) = sp_describe_groups_request(c, version);
                &&& d.err is None ==> r == RequestModel::DescribeGroups(m)
                &&& d.err is Some ==> r is Malformed
            })
            &&& key == 16 ==> ({
                let (m, d) = sp_list_groups_request(c, version);
                &&& d.err is None ==> r == RequestModel::ListGroups(m)
                &&& d.err is Some ==> r is Malformed
            })
            &&& key == 19 ==> ({
                let (m, d) = sp_create_topics_request(c, version);
                &&& d.err is None ==> r == RequestModel::CreateTopics(m)
                &&& d.err is Some ==> r is Malformed
            })
            &&& key == 20 ==> ({
                let (m, d) = sp_delete_topics_request(c, version);
                &&& d.err is None ==> r == RequestModel::DeleteTopics(m)
                &&& d.err is Some ==> r is Malformed
            })
            &&& key == 22 ==> ({
                let (m, d) = sp_nullable_string(c);
                &&& d.err is None ==> r == RequestModel::InitProducerId
                &&& d.err is Some ==> r is Malformed
            })
        }),
{
}

/// A request is its header and what stands behind it. Where the header cannot be
/// read there is no request.
pub proof fn law_header_comes_first(raw: Seq<u8>)
    ensures
        ({
            let (h, c) = sp_request_header(cursor(raw));
            &&& c.err is None ==> request_of(raw) == Some(
                (h, body_at(c, h.api_key, h.api_version)),
            )
            &&& c.err is Some ==> request_of(raw) is None
        }),
{
}

/// A request that cannot be read changes nothing. It is answered with its id alone,
/// and with nothing at all if it was to produce.
pub proof fn law_malformed_is_answered(
    h: RequestHeaderModel,
    cx: Context,
    a: State,
    b: State,
    reply: ReplyModel,
)
    requires
        served(h, RequestModel::Malformed, cx, a, b, reply),
    ensures
        b == a,
        h.api_key == 0 ==> reply == ReplyModel::Silence,
        h.api_key != 0 ==> reply == ReplyModel::Body(enc_i32(h.correlation_id)),
{
    assert(enc_i32(h.correlation_id) + Seq::<u8>::empty() =~= enc_i32(h.correlation_id));
}

/// A request of a kind that is not known changes nothing, and is answered with its
/// id and the error 35.
pub proof fn law_unknown_kind_is_answered(
    h: RequestHeaderModel,
    cx: Context,
    a: State,
    b: State,
    reply: ReplyModel,
)
    requires
        served(h, RequestModel::Unsupported, cx, a, b, reply),
    ensures
        b == a,
        reply == ReplyModel::Body(enc_i32(h.correlation_id) + enc_i16(35)),
{
}

/// The coordinator of every group is the broker that is asked.
pub proof fn law_coordinator_is_told(
    h: RequestHeaderModel,
    key: Seq<char>,
    cx: Context,
    a: State,
    b: State,
    reply: ReplyModel,
)
    requires
        served(h, RequestModel::FindCoordinator(key), cx, a, b, reply),
    ensures
        b == a,
        exists|resp: FindCoordinatorResponse|
            {
                &&& reply == answer_with(h.correlation_id, #[trigger] resp.encoded(h.api_version))
                &&& resp.error_code == 0
                &&& resp.throttle_time_ms == 0
                &&& resp.error_message is None
                &&& resp.node_id == cx.setup.id
                &&& resp.host@ == cx.setup.host
                &&& resp.port == cx.setup.port
            },
{
}

/// Every version that is supported is told.
pub proof fn law_versions_are_told(
    h: RequestHeaderModel,
    cx: Context,
    a: State,
    b: State,
    reply: ReplyModel,
)
    requires
        served(h, RequestModel::ApiVersions, cx, a, b, reply),
    ensures
        b == a,
        exists|resp: ApiVersionsResponse|
            {
                &&& reply == answer_with(h.correlation_id, #[trigger] resp.encoded(h.api_version))
                &&& resp.error_code == 0
                &&& resp.throttle_time_ms == 0
                &&& resp.api_keys@.len() == SUPPORTED_API_KEYS@.len()
                &&& forall|i: int|
                    0 <= i < SUPPORTED_API_KEYS@.len() ==> {
                        &&& (#[trigger] resp.api_keys@[i]).api_key == SUPPORTED_API_KEYS@[i].0
                        &&& resp.api_keys@[i].min_version == SUPPORTED_API_KEYS@[i].1
                        &&& resp.api_keys@[i].max_version == SUPPORTED_API_KEYS@[i].2
                    }
            },
{
}

/// A request to leave a group is answered 0 if there is the group, and 16 if there
/// is not; only then a member leaves.
pub proof fn law_leave_is_answered(
    h: RequestHeaderModel,
    r: LeaveGroupRequestModel,
    cx: Context,
    a: State,
    b: State,
    reply: ReplyModel,
)
    requires
        served(h, RequestModel::LeaveGroup(r), cx, a, b, reply),
    ensures
        a.view.groups.contains_key(r.group_id) ==> {
            &&& reply == answer_with(
                h.correlation_id,
                enc_outcome(h.api_version, 0),
            )
            &&& b.view.groups.contains_key(r.group_id)
            &&& forall|m: MemberModel| #[trigger]
                b.view.groups[r.group_id].members.contains(m)
                    <==> a.view.groups[r.group_id].members.contains(m) && m.member_id
                    != r.member_id
        },
        !a.view.groups.contains_key(r.group_id) ==> reply == answer_with(
            h.correlation_id,
            enc_outcome(h.api_version, 16),
        ) && b.view.groups == a.view.groups,
{
    if a.view.groups.contains_key(r.group_id) {
        law_leave_drops_one_member(
            a.view.groups[r.group_id],
            r.member_id,
        );
    }
}

/// A commit that is refused changes nothing, and says why for each of its
/// partitions; one that is taken says so, and is what is fetched.
pub proof fn law_commit_is_answered(
    h: RequestHeaderModel,
    r: OffsetCommitRequestModel,
    cx: Context,
    a: State,
    b: State,
    reply: ReplyModel,
    i: int,
    j: int,
)
    requires
        served(h, RequestModel::OffsetCommit(r), cx, a, b, reply),
        0 <= i < r.topics.len(),
        0 <= j < r.topics[i].1.len(),
        !commits_in(r.topics[i].1.skip(j + 1), r.topics[i].1[j].0),
        !commits_at(
            r.topics.skip(i + 1),
            r.topics[i].0,
            r.topics[i].1[j].0,
        ),
    ensures
        ({
            let g = a.view.groups.get(r.group_id);
            match commit_refusal_of(g, r.generation_id, r.member_id) {
                Some(code) => b == a && reply == answer_with(
                    h.correlation_id,
                    enc_commit_response(r.topics, h.api_version, code),
                ),
                None => {
                    &&& reply == answer_with(
                        h.correlation_id,
                        enc_commit_response(r.topics, h.api_version, 0),
                    )
                    &&& b.view.offsets.get((r.group_id, r.topics[i].0, r.topics[i].1[j].0)) == Some(
                        (r.topics[i].1[j].1, r.topics[i].1[j].2),
                    )
                },
            }
        }),
{
    let g = a.view.groups.get(r.group_id);
    if commit_refusal_of(g, r.generation_id, r.member_id) is None {
        let st = commit_state(a);
        let n = cx.setup.offsets_partitions;
        law_committed_is_fetched(
            st,
            r.group_id,
            r.topics,
            n,
            cx.now,
            i,
            j,
        );
    }
}

} // verus!
