//! What clients read in the broker's answers.

use bytes::Bytes;
use vstd::prelude::*;

use crate::buf::bytes_view;
use crate::protocol::codec::{only_if, sp_bytes, wire_all, wire_array, WireWrite};
use crate::protocol::header::RequestHeaderModel;
use crate::protocol::laws::name_fits;
use crate::protocol::messages::api_versions::{ApiVersion, ApiVersionsResponse};
use crate::protocol::messages::fetch::{
    enc_bytes, FetchResponse, FetchResponsePartition, FetchResponseTopic,
};
use crate::protocol::messages::groups::{
    DescribeGroupsResponse, DescribedGroup, DescribedGroupMember, FindCoordinatorResponse,
    JoinGroupResponse, ListGroupsResponse, ListedGroup, SyncGroupResponse,
};
use crate::protocol::messages::metadata::{
    BrokerMetadata, MetadataResponse, PartitionMetadata, TopicMetadata,
};
use crate::protocol::messages::offsets::OffsetFetchResponse;
use crate::protocol::messages::produce::{
    ProduceResponse, ProduceResponsePartition, ProduceResponseTopic,
};
use crate::protocol::primitive::{
    cursor, enc_compact_nullable_bytes, enc_nullable_compact_string, enc_nullable_string,
    enc_string, law_bytes_round_trip, law_i16_round_trip, law_i32_round_trip, law_i64_round_trip,
    law_i8_round_trip, law_nullable_string_round_trip, law_string_round_trip, opt_string, sp_i16,
    sp_i32, sp_i64, sp_i8, sp_nullable_string, sp_string,
};
use crate::protocol::wire::{enc_i16, enc_i32, enc_i64, enc_i8, lemma_be_len, uvarint};
use crate::server::groups::{
    enc_commit_parts, enc_commit_response, enc_commit_topics, enc_outcome, Commit,
};
use crate::server::handler::{answer_with, served, Context, ReplyModel, State};
use crate::server::metadata::{missing, MetaView};
use crate::server::request::RequestModel;
use crate::server::topics::{
    enc_all_bounds, enc_all_created, enc_all_deleted, enc_bounds, enc_created, enc_offsets,
    enc_producer_id, enc_topic_bounds, latest_offsets, lemma_missing, wants_in, BoundsQuery, Want,
};

verus! {

/// Every answer begins with the number by which the client finds its request, and
/// what there is to say follows.
pub proof fn law_answer_names_its_request(id: i32, body: Seq<u8>)
    ensures
        answer_with(id, body) matches ReplyModel::Body(b) && sp_i32(cursor(b)) == (
            id,
            cursor(body),
        ),
{
    law_i32_round_trip(id, body);
}

// ---------------------------------------------------------------------------
// Produce and fetch

/// What is read of a partition that was produced to.
pub proof fn law_produced_partition_is_read(
    p: ProduceResponsePartition,
    version: i16,
    rest: Seq<u8>,
)
    ensures
        ({
            let (index, c) = sp_i32(cursor(p.wire(version) + rest));
            let (code, c) = sp_i16(c);
            let (offset, c) = sp_i64(c);
            let (time, c) = if version >= 2 {
                sp_i64(c)
            } else {
                (p.log_append_time_ms, c)
            };
            let (start, c) = if version >= 5 {
                sp_i64(c)
            } else {
                (p.log_start_offset, c)
            };
            &&& index == p.partition_index
            &&& code == p.error_code
            &&& offset == p.base_offset
            &&& time == p.log_append_time_ms
            &&& start == p.log_start_offset
            &&& c == cursor(rest)
        }),
{
    let d = only_if(version >= 5, enc_i64(p.log_start_offset)) + rest;
    let c = only_if(version >= 2, enc_i64(p.log_append_time_ms)) + d;
    let b = enc_i64(p.base_offset) + c;
    let a = enc_i16(p.error_code) + b;
    assert(p.wire(version) + rest =~= enc_i32(p.partition_index) + a);
    law_i32_round_trip(p.partition_index, a);
    law_i16_round_trip(p.error_code, b);
    law_i64_round_trip(p.base_offset, c);
    if version >= 2 {
        law_i64_round_trip(p.log_append_time_ms, d);
    } else {
        assert(c =~= d);
    }
    if version >= 5 {
        law_i64_round_trip(p.log_start_offset, rest);
    } else {
        assert(d =~= rest);
    }
}

/// What is read of an answer to a produce request: the number of topics, each with
/// its name and the number of its partitions, and last the throttle time.
pub proof fn law_produce_response_is_read(
    r: ProduceResponse,
    t: ProduceResponseTopic,
    version: i16,
    rest: Seq<u8>,
)
    requires
        r.topics@.len() <= i32::MAX,
        t.partitions@.len() <= i32::MAX,
        name_fits(t.topic@),
    ensures
        sp_i32(cursor(r.encoded(version))).0 == r.topics@.len(),
        version >= 1 ==> r.encoded(version).skip(r.encoded(version).len() - 4) == enc_i32(
            r.throttle_time_ms,
        ),
        sp_string(cursor(t.wire(version) + rest)).0 == t.topic@,
        sp_i32(sp_string(cursor(t.wire(version) + rest)).1).0 == t.partitions@.len(),
{
    broadcast use lemma_be_len;

    let all = wire_all(r.topics@, version);
    let tail = only_if(version >= 1, enc_i32(r.throttle_time_ms));
    assert(r.encoded(version) =~= enc_i32(r.topics@.len() as i32) + (all + tail));
    law_i32_round_trip(r.topics@.len() as i32, all + tail);
    if version >= 1 {
        assert(r.encoded(version).skip(r.encoded(version).len() - 4) =~= enc_i32(
            r.throttle_time_ms,
        ));
    }
    let ps = wire_all(t.partitions@, version) + rest;
    assert(t.wire(version) + rest =~= enc_string(t.topic@) + (enc_i32(t.partitions@.len() as i32)
        + ps));
    law_string_round_trip(t.topic@, enc_i32(t.partitions@.len() as i32) + ps);
    law_i32_round_trip(t.partitions@.len() as i32, ps);
}

/// What is read of a partition that was fetched from, where no transaction was
/// aborted: the records stand last, with their length.
pub proof fn law_fetched_partition_is_read(
    p: FetchResponsePartition,
    version: i16,
    rest: Seq<u8>,
)
    requires
        p.aborted_transactions@.len() == 0,
        bytes_view(p.records).len() <= i32::MAX,
    ensures
        ({
            let (index, c) = sp_i32(cursor(p.wire(version) + rest));
            let (code, c) = sp_i16(c);
            let (end, c) = sp_i64(c);
            let (stable, c) = if version >= 4 {
                sp_i64(c)
            } else {
                (p.last_stable_offset, c)
            };
            let (start, c) = if version >= 5 {
                sp_i64(c)
            } else {
                (p.log_start_offset, c)
            };
            let (aborted, c) = if version >= 4 {
                sp_i32(c)
            } else {
                (0i32, c)
            };
            let (records, c) = sp_bytes(c);
            &&& index == p.partition_index
            &&& code == p.error_code
            &&& end == p.high_watermark
            &&& stable == p.last_stable_offset
            &&& start == p.log_start_offset
            &&& aborted == 0
            &&& records == bytes_view(p.records)
            &&& c == cursor(rest)
        }),
{
    let rs = bytes_view(p.records);
    let f = enc_i32(rs.len() as i32) + (rs + rest);
    let e = only_if(version >= 4, enc_i32(0)) + f;
    let d = only_if(version >= 5, enc_i64(p.log_start_offset)) + e;
    let c = only_if(version >= 4, enc_i64(p.last_stable_offset)) + d;
    let b = enc_i64(p.high_watermark) + c;
    let a = enc_i16(p.error_code) + b;
    lemma_fetched_parts(p, version, rest);
    law_i32_round_trip(p.partition_index, a);
    law_i16_round_trip(p.error_code, b);
    law_i64_round_trip(p.high_watermark, c);
    law_i64_round_trip(p.last_stable_offset, d);
    law_i64_round_trip(p.log_start_offset, e);
    law_i32_round_trip(0, f);
    law_i32_round_trip(rs.len() as i32, rs + rest);
    law_bytes_round_trip(rs, rs.len() as usize, rest);
    lemma_left_out(d);
    lemma_left_out(e);
    lemma_left_out(f);
}

proof fn lemma_left_out(s: Seq<u8>)
    ensures
        only_if(false, s) + s == s,
        forall|x: Seq<u8>| #[trigger] only_if(false, x) + s == s,
{
    assert forall|x: Seq<u8>| #[trigger] only_if(false, x) + s == s by {
        assert(only_if(false, x) + s =~= s);
    }
}

proof fn lemma_fetched_parts(p: FetchResponsePartition, version: i16, rest: Seq<u8>)
    requires
        p.aborted_transactions@.len() == 0,
    ensures
        ({
            let rs = bytes_view(p.records);
            let f = enc_i32(rs.len() as i32) + (rs + rest);
            let e = only_if(version >= 4, enc_i32(0)) + f;
            let d = only_if(version >= 5, enc_i64(p.log_start_offset)) + e;
            let c = only_if(version >= 4, enc_i64(p.last_stable_offset)) + d;
            p.wire(version) + rest == enc_i32(p.partition_index) + (enc_i16(p.error_code) + (
            enc_i64(p.high_watermark) + c))
        }),
{
    let rs = bytes_view(p.records);
    let none = wire_array(p.aborted_transactions@, version);
    assert(none =~= enc_i32(0)) by {
        assert(wire_all(p.aborted_transactions@, version)
            =~= Seq::empty());
    }
    let f = enc_i32(rs.len() as i32) + (rs + rest);
    let e = only_if(version >= 4, enc_i32(0)) + f;
    let d = only_if(version >= 5, enc_i64(p.log_start_offset)) + e;
    let c = only_if(version >= 4, enc_i64(p.last_stable_offset)) + d;
    assert(p.wire(version) + rest =~= enc_i32(p.partition_index) + (enc_i16(p.error_code) + (
    enc_i64(p.high_watermark) + c)));
}

/// What is read of an answer to a fetch: the throttle time, the number of topics,
/// and each with its name and the number of its partitions.
pub proof fn law_fetch_response_is_read(
    r: FetchResponse,
    t: FetchResponseTopic,
    version: i16,
    rest: Seq<u8>,
)
    requires
        r.topics@.len() <= i32::MAX,
        t.partitions@.len() <= i32::MAX,
        name_fits(t.topic@),
    ensures
        sp_i32(cursor(r.encoded(version))).0 == r.throttle_time_ms,
        sp_i32(sp_i32(cursor(r.encoded(version))).1).0 == r.topics@.len(),
        sp_string(cursor(t.wire(version) + rest)).0 == t.topic@,
        sp_i32(sp_string(cursor(t.wire(version) + rest)).1).0 == t.partitions@.len(),
{
    let all = wire_all(r.topics@, version);
    let n = enc_i32(r.topics@.len() as i32);
    assert(r.encoded(version) =~= enc_i32(r.throttle_time_ms) + (n + all));
    law_i32_round_trip(r.throttle_time_ms, n + all);
    law_i32_round_trip(r.topics@.len() as i32, all);
    let ps = wire_all(t.partitions@, version) + rest;
    assert(t.wire(version) + rest =~= enc_string(t.topic@) + (enc_i32(t.partitions@.len() as i32)
        + ps));
    law_string_round_trip(t.topic@, enc_i32(t.partitions@.len() as i32) + ps);
    law_i32_round_trip(t.partitions@.len() as i32, ps);
}

// ---------------------------------------------------------------------------
// Topics

/// What is read of a broker.
pub proof fn law_broker_is_read(b: BrokerMetadata, version: i16, rest: Seq<u8>)
    requires
        version >= 1,
        name_fits(b.host@),
    ensures
        ({
            let (id, c) = sp_i32(cursor(b.wire(version) + rest));
            let (host, c) = sp_string(c);
            let (port, c) = sp_i32(c);
            let (rack, c) = sp_nullable_string(c);
            id == b.node_id && host == b.host@ && port == b.port && rack is None && c == cursor(
                rest,
            )
        }),
{
    let b3 = enc_nullable_string(None) + rest;
    let b2 = enc_i32(b.port) + b3;
    let b1 = enc_string(b.host@) + b2;
    assert(b.wire(version) + rest =~= enc_i32(b.node_id) + b1);
    law_i32_round_trip(b.node_id, b1);
    law_string_round_trip(b.host@, b2);
    law_i32_round_trip(b.port, b3);
    law_nullable_string_round_trip(None, rest);
}

/// What is read of a topic up to its partitions.
pub proof fn law_topic_is_read(t: TopicMetadata, version: i16, rest: Seq<u8>)
    requires
        version >= 1,
        name_fits(t.name@),
        t.partitions@.len() <= i32::MAX,
    ensures
        ({
            let (code, c) = sp_i16(cursor(t.wire(version) + rest));
            let (name, c) = sp_string(c);
            let (internal, c) = sp_i8(c);
            let (n, c) = sp_i32(c);
            &&& code == t.error_code
            &&& name == t.name@
            &&& internal == if t.is_internal {
                1i8
            } else {
                0i8
            }
            &&& n == t.partitions@.len()
        }),
{
    let flag: i8 = if t.is_internal {
        1
    } else {
        0
    };
    let ps = wire_all(t.partitions@, version) + rest;
    let t3 = enc_i32(t.partitions@.len() as i32) + ps;
    let t2 = enc_i8(flag) + t3;
    let t1 = enc_string(t.name@) + t2;
    assert(t.wire(version) + rest =~= enc_i16(t.error_code) + t1);
    law_i16_round_trip(t.error_code, t1);
    law_string_round_trip(t.name@, t2);
    law_i8_round_trip(flag, t3);
    law_i32_round_trip(t.partitions@.len() as i32, ps);
}

/// What is read of a partition up to its replicas.
pub proof fn law_partition_is_read(p: PartitionMetadata, version: i16, rest: Seq<u8>)
    requires
        p.replica_nodes@.len() <= i32::MAX,
    ensures
        ({
            let (code, c) = sp_i16(cursor(p.wire(version) + rest));
            let (index, c) = sp_i32(c);
            let (leader, c) = sp_i32(c);
            let (n, c) = sp_i32(c);
            &&& code == p.error_code
            &&& index == p.partition_index
            &&& leader == p.leader_id
            &&& n == p.replica_nodes@.len()
        }),
{
    let p4 = wire_all(p.replica_nodes@, version) + (wire_array(
        p.isr_nodes@,
        version,
    ) + (only_if(version >= 5, enc_i32(0)) + rest));
    let p3 = enc_i32(p.replica_nodes@.len() as i32) + p4;
    let p2 = enc_i32(p.leader_id) + p3;
    let p1 = enc_i32(p.partition_index) + p2;
    assert(p.wire(version) + rest =~= enc_i16(p.error_code) + p1);
    law_i16_round_trip(p.error_code, p1);
    law_i32_round_trip(p.partition_index, p2);
    law_i32_round_trip(p.leader_id, p3);
    law_i32_round_trip(p.replica_nodes@.len() as i32, p4);
}

/// What is read first of an answer to a metadata request: the throttle time from
/// version 3 on, and the number of brokers.
pub proof fn law_metadata_response_is_read(r: MetadataResponse, version: i16)
    requires
        r.brokers@.len() <= i32::MAX,
    ensures
        version >= 3 ==> sp_i32(cursor(r.encoded(version))).0 == 0 && sp_i32(
            sp_i32(cursor(r.encoded(version))).1,
        ).0 == r.brokers@.len(),
        version < 3 ==> sp_i32(cursor(r.encoded(version))).0 == r.brokers@.len(),
{
    let tail = wire_all(r.brokers@, version) + only_if(
        version >= 2,
        enc_nullable_string(opt_string(r.cluster_id)),
    ) + only_if(version >= 1, enc_i32(r.controller_id)) + wire_array(r.topics@, version);
    let n = enc_i32(r.brokers@.len() as i32);
    if version >= 3 {
        assert(r.encoded(version) =~= enc_i32(0) + (n + tail));
        law_i32_round_trip(0, n + tail);
    } else {
        assert(r.encoded(version) =~= n + tail);
    }
    law_i32_round_trip(r.brokers@.len() as i32, tail);
}

/// What is read of the bounds of a partition from version 1 on: for the time -2 the
/// oldest offset, for every other the offset after the last record. A partition
/// that there is not has neither, and the code 3.
pub proof fn law_bounds_are_read(
    m: MetaView,
    topic: Seq<char>,
    q: BoundsQuery,
    version: i16,
    rest: Seq<u8>,
)
    requires
        version >= 1,
    ensures
        ({
            let k = (topic, q.0);
            let (index, c) = sp_i32(cursor(enc_bounds(m, topic, q, version) + rest));
            let (code, c) = sp_i16(c);
            let (time, c) = sp_i64(c);
            let (offset, c) = sp_i64(c);
            &&& index == q.0
            &&& c == cursor(rest)
            &&& !m.logs.contains_key(k) ==> code == 3 && time == -1 && offset == -1
            &&& m.logs.contains_key(k) ==> {
                &&& code == 0
                &&& q.2 == -2 ==> offset == m.logs[k].log_start_offset && time == -1
                &&& q.2 != -2 ==> offset == m.logs[k].high_watermark && time == q.2
            }
        }),
{
    let k = (topic, q.0);
    let code: i16 = if m.logs.contains_key(k) {
        0
    } else {
        3
    };
    let time: i64 = if m.logs.contains_key(k) && q.2 != -2 {
        q.2
    } else {
        -1i64
    };
    let offset: i64 = if !m.logs.contains_key(k) {
        -1i64
    } else if q.2 == -2 {
        m.logs[k].log_start_offset
    } else {
        m.logs[k].high_watermark
    };
    let c = enc_i64(offset) + rest;
    let b = enc_i64(time) + c;
    let a = enc_i16(code) + b;
    assert(enc_bounds(m, topic, q, version) + rest =~= enc_i32(q.0) + a);
    law_i32_round_trip(q.0, a);
    law_i16_round_trip(code, b);
    law_i64_round_trip(time, c);
    law_i64_round_trip(offset, rest);
}

/// What is read of the bounds of a partition in version 0: the number of offsets,
/// and the first of them. For the time -2 it is the oldest one alone, for every
/// other the last ones, latest first, as many as are asked for.
pub proof fn law_old_bounds_are_read(
    m: MetaView,
    topic: Seq<char>,
    q: BoundsQuery,
    rest: Seq<u8>,
)
    requires
        m.logs.contains_key((topic, q.0)),
        0 <= m.logs[(topic, q.0)].log_start_offset < m.logs[(topic, q.0)].high_watermark
            <= i32::MAX,
    ensures
        ({
            let l = m.logs[(topic, q.0)];
            let (index, c) = sp_i32(cursor(enc_bounds(m, topic, q, 0) + rest));
            let (code, c) = sp_i16(c);
            let (n, c) = sp_i32(c);
            let (first, c) = sp_i32(c);
            &&& index == q.0
            &&& code == 0
            &&& q.2 == -2 ==> n == 1 && first == l.log_start_offset
            &&& q.2 != -2 ==> {
                &&& first == l.high_watermark - 1
                &&& 1 <= n <= l.high_watermark - l.log_start_offset
                &&& n == l.high_watermark - l.log_start_offset || n == q.3 || (n == 1 && q.3 < 1)
                &&& q.3 >= 1 ==> n <= q.3
            }
        }),
{
    let l = m.logs[(topic, q.0)];
    let os = if q.2 == -2 {
        seq![l.log_start_offset as i32]
    } else {
        latest_offsets(
            l.high_watermark,
            l.log_start_offset,
            if q.3 > 1 {
                q.3 as int
            } else {
                1
            },
        )
    };
    let rest_of = os.skip(1);
    lemma_offsets_first(os);
    let d = enc_offsets(rest_of) + rest;
    let c = enc_i32(os[0]) + d;
    let b = enc_i32(os.len() as i32) + c;
    let a = enc_i16(0) + b;
    assert(enc_bounds(m, topic, q, 0) + rest =~= enc_i32(q.0) + a);
    law_i32_round_trip(q.0, a);
    law_i16_round_trip(0, b);
    law_i32_round_trip(os.len() as i32, c);
    law_i32_round_trip(os[0], d);
}

proof fn lemma_offsets_first(os: Seq<i32>)
    requires
        os.len() > 0,
    ensures
        enc_offsets(os) == enc_i32(os[0]) + enc_offsets(os.skip(1)),
    decreases os.len(),
{
    if os.len() == 1 {
        assert(os.drop_last() =~= Seq::<i32>::empty());
        assert(os.skip(1) =~= Seq::<i32>::empty());
        assert(enc_offsets(os) =~= enc_i32(os[0]) + enc_offsets(os.skip(1)));
    } else {
        let front = os.drop_last();
        lemma_offsets_first(front);
        assert(front.skip(1) =~= os.skip(1).drop_last());
        assert(os.skip(1).last() == os.last());
        assert(enc_offsets(os) =~= enc_i32(os[0]) + enc_offsets(os.skip(1)));
    }
}

/// The answers for partitions stand in the order of the questions.
pub proof fn law_bounds_in_order(
    m: MetaView,
    topic: Seq<char>,
    qs: Seq<BoundsQuery>,
    q: BoundsQuery,
    version: i16,
)
    ensures
        enc_topic_bounds(m, topic, Seq::empty(), version).len() == 0,
        enc_topic_bounds(m, topic, qs.push(q), version) == enc_topic_bounds(m, topic, qs, version)
            + enc_bounds(m, topic, q, version),
{
    assert(qs.push(q).drop_last() =~= qs);
}

/// What is read of a topic that was to be created: its name, and the code 0 if and
/// only if all of its partitions are there; from version 2 on, how many it was to
/// have, and that each is held once.
#[verifier::spinoff_prover]
#[verifier::rlimit(40)]
pub proof fn law_created_is_read(
    m: MetaView,
    name: Seq<char>,
    n: i32,
    version: i16,
    rest: Seq<u8>,
)
    requires
        name_fits(name),
        version >= 2,
    ensures
        ({
            let (s, c) = sp_string(cursor(enc_created(m, name, n, version) + rest));
            let (code, c) = sp_i16(c);
            let (message, c) = sp_nullable_string(c);
            let (partitions, c) = sp_i32(c);
            let (replicas, c) = sp_i16(c);
            let c = if version >= 5 {
                sp_i32(c).1
            } else {
                c
            };
            &&& s == name
            &&& code == 0 <==> forall|p: i32|
                0 <= p < n ==> #[trigger] m.logs.contains_key((name, p))
            &&& code != 0 ==> code == -1
            &&& message is None
            &&& partitions == n
            &&& replicas == 1
            &&& c == cursor(rest)
        }),
{
    lemma_missing(m, name, n as int);
    let gone = missing(m, name, n as int);
    assert(gone.len() == 0 <==> forall|p: i32|
        0 <= p < n ==> #[trigger] m.logs.contains_key((name, p))) by {
        if gone.len() > 0 {
            assert(gone.contains(gone[0]));
            assert(!m.logs.contains_key((name, gone[0])));
        } else {
            assert forall|p: i32| 0 <= p < n implies #[trigger] m.logs.contains_key((name, p)) by {
                assert(!gone.contains(p));
            }
        }
    }
    let code: i16 = if gone.len() == 0 {
        0
    } else {
        -1i16
    };
    let e = only_if(version >= 5, enc_i32(0)) + rest;
    let d = enc_i16(1) + e;
    let c = enc_i32(n) + d;
    let b = enc_i16(-1i16) + c;
    let a = enc_i16(code) + b;
    assert(enc_created(m, name, n, version) + rest =~= enc_string(name) + a);
    law_string_round_trip(name, a);
    law_i16_round_trip(code, b);
    law_nullable_string_round_trip(None, c);
    law_i32_round_trip(n, d);
    law_i16_round_trip(1, e);
    if version >= 5 {
        law_i32_round_trip(0, rest);
    } else {
        assert(e =~= rest);
    }
}

/// The answers for topics that were to be created or deleted stand in the order of
/// the request; a deletion is answered with the topic's name and the code 0.
pub proof fn law_topics_are_answered_in_order(
    m: MetaView,
    wants: Seq<Want>,
    w: Want,
    names: Seq<Seq<char>>,
    name: Seq<char>,
    version: i16,
)
    requires
        name_fits(name),
    ensures
        enc_all_created(m, wants.push(w), version) == enc_all_created(m, wants, version)
            + enc_created(m, w.0, w.1, version),
        enc_all_created(m, Seq::empty(), version).len() == 0,
        enc_all_deleted(Seq::empty()).len() == 0,
        enc_all_deleted(names.push(name)) == enc_all_deleted(names) + (enc_string(name) + enc_i16(
            0,
        )),
{
    assert(wants.push(w).drop_last() =~= wants);
    assert(names.push(name).drop_last() =~= names);
    assert(enc_all_deleted(names.push(name)) =~= enc_all_deleted(names) + (enc_string(name)
        + enc_i16(0)));
}

/// What is read of an answer that gives a producer its id: no throttling, no error,
/// the id, and the epoch 0.
pub proof fn law_producer_id_is_read(id: i64)
    ensures
        ({
            let (throttle, c) = sp_i32(cursor(enc_producer_id(id)));
            let (code, c) = sp_i16(c);
            let (given, c) = sp_i64(c);
            let (epoch, c) = sp_i16(c);
            throttle == 0 && code == 0 && given == id && epoch == 0 && c == cursor(Seq::empty())
        }),
{
    let none = Seq::<u8>::empty();
    let c = enc_i16(0) + none;
    let b = enc_i64(id) + c;
    let a = enc_i16(0) + b;
    assert(enc_producer_id(id) =~= enc_i32(0) + a);
    law_i32_round_trip(0, a);
    law_i16_round_trip(0, b);
    law_i64_round_trip(id, c);
    law_i16_round_trip(0, none);
}

// ---------------------------------------------------------------------------
// Groups

/// What is read of an answer that is an error code alone.
pub proof fn law_outcome_is_read(version: i16, code: i16)
    ensures
        version >= 1 ==> sp_i32(cursor(enc_outcome(version, code))).0 == 0 && sp_i16(
            sp_i32(cursor(enc_outcome(version, code))).1,
        ) == (code, cursor(Seq::empty())),
        version < 1 ==> sp_i16(cursor(enc_outcome(version, code))) == (
            code,
            cursor(Seq::empty()),
        ),
{
    let none = Seq::<u8>::empty();
    if version >= 1 {
        assert(enc_outcome(version, code) =~= enc_i32(0) + (enc_i16(code) + none));
        law_i32_round_trip(0, enc_i16(code) + none);
    } else {
        assert(enc_outcome(version, code) =~= enc_i16(code) + none);
    }
    law_i16_round_trip(code, none);
}

/// What is read of an answer to a request to join, up to the members, before the
/// protocol type was part of it.
pub proof fn law_join_response_is_read(r: JoinGroupResponse, version: i16)
    requires
        version < 7,
        opt_string(r.protocol_name) matches Some(s) ==> name_fits(s),
        name_fits(r.leader@),
        name_fits(r.member_id@),
        r.members@.len() <= i32::MAX,
    ensures
        ({
            let (throttle, c) = sp_i32(cursor(r.encoded(version)));
            let (code, c) = sp_i16(c);
            let (generation, c) = sp_i32(c);
            let (protocol, c) = sp_nullable_string(c);
            let (leader, c) = sp_string(c);
            let (id, c) = sp_string(c);
            let (n, c) = sp_i32(c);
            &&& throttle == r.throttle_time_ms
            &&& code == r.error_code
            &&& generation == r.generation_id
            &&& protocol == opt_string(r.protocol_name)
            &&& leader == r.leader@
            &&& id == r.member_id@
            &&& n == r.members@.len()
        }),
{
    let g = wire_all(r.members@, version);
    let f = enc_i32(r.members@.len() as i32) + g;
    let e = enc_string(r.member_id@) + f;
    let d = enc_string(r.leader@) + e;
    let c = enc_nullable_string(opt_string(r.protocol_name)) + d;
    let b = enc_i32(r.generation_id) + c;
    let a = enc_i16(r.error_code) + b;
    assert(r.encoded(version) =~= enc_i32(r.throttle_time_ms) + a);
    law_i32_round_trip(r.throttle_time_ms, a);
    law_i16_round_trip(r.error_code, b);
    law_i32_round_trip(r.generation_id, c);
    law_nullable_string_round_trip(opt_string(r.protocol_name), d);
    law_string_round_trip(r.leader@, e);
    law_string_round_trip(r.member_id@, f);
    law_i32_round_trip(r.members@.len() as i32, g);
}

/// What is read of an answer to a request for an assignment, in the traditional
/// format.
pub proof fn law_sync_response_is_read(r: SyncGroupResponse, version: i16)
    requires
        version < 5,
        bytes_view(r.assignment).len() <= i32::MAX,
    ensures
        ({
            let (throttle, c) = sp_i32(cursor(r.encoded(version)));
            let (code, c) = sp_i16(c);
            let (assignment, c) = sp_bytes(c);
            &&& throttle == r.throttle_time_ms
            &&& code == r.error_code
            &&& assignment == bytes_view(r.assignment)
            &&& c == cursor(Seq::empty())
        }),
{
    let none = Seq::<u8>::empty();
    let s = bytes_view(r.assignment);
    let b = enc_i32(s.len() as i32) + (s + none);
    let a = enc_i16(r.error_code) + b;
    assert(r.encoded(version) =~= enc_i32(r.throttle_time_ms) + a);
    law_i32_round_trip(r.throttle_time_ms, a);
    law_i16_round_trip(r.error_code, b);
    law_i32_round_trip(s.len() as i32, s + none);
    law_bytes_round_trip(s, s.len() as usize, none);
}

/// What is read of an answer that names the coordinator.
pub proof fn law_coordinator_is_read(r: FindCoordinatorResponse, version: i16)
    requires
        version >= 1,
        opt_string(r.error_message) matches Some(s) ==> name_fits(s),
        name_fits(r.host@),
    ensures
        ({
            let (throttle, c) = sp_i32(cursor(r.encoded(version)));
            let (code, c) = sp_i16(c);
            let (message, c) = sp_nullable_string(c);
            let (id, c) = sp_i32(c);
            let (host, c) = sp_string(c);
            let (port, c) = sp_i32(c);
            &&& throttle == r.throttle_time_ms
            &&& code == r.error_code
            &&& message == opt_string(r.error_message)
            &&& id == r.node_id
            &&& host == r.host@
            &&& port == r.port
            &&& c == cursor(Seq::empty())
        }),
{
    let none = Seq::<u8>::empty();
    let e = enc_i32(r.port) + none;
    let d = enc_string(r.host@) + e;
    let c = enc_i32(r.node_id) + d;
    let b = enc_nullable_string(opt_string(r.error_message)) + c;
    let a = enc_i16(r.error_code) + b;
    assert(r.encoded(version) =~= enc_i32(r.throttle_time_ms) + a);
    law_i32_round_trip(r.throttle_time_ms, a);
    law_i16_round_trip(r.error_code, b);
    law_nullable_string_round_trip(opt_string(r.error_message), c);
    law_i32_round_trip(r.node_id, d);
    law_string_round_trip(r.host@, e);
    law_i32_round_trip(r.port, none);
}

/// What is read of a committed offset that was asked for.
pub proof fn law_committed_offset_is_read(
    x: (i32, i64, Option<String>, i16),
    version: i16,
    rest: Seq<u8>,
)
    requires
        opt_string(x.2) matches Some(s) ==> name_fits(s),
    ensures
        ({
            let (partition, c) = sp_i32(cursor(x.wire(version) + rest));
            let (offset, c) = sp_i64(c);
            let (note, c) = sp_nullable_string(c);
            let (code, c) = sp_i16(c);
            &&& partition == x.0
            &&& offset == x.1
            &&& note == opt_string(x.2)
            &&& code == x.3
            &&& c == cursor(rest)
        }),
{
    let c = enc_i16(x.3) + rest;
    let b = enc_nullable_string(opt_string(x.2)) + c;
    let a = enc_i64(x.1) + b;
    assert(x.wire(version) + rest =~= enc_i32(x.0) + a);
    law_i32_round_trip(x.0, a);
    law_i64_round_trip(x.1, b);
    law_nullable_string_round_trip(opt_string(x.2), c);
    law_i16_round_trip(x.3, rest);
}

/// What is read first of an answer to a request for committed offsets, and of one
/// for the list of groups.
pub proof fn law_lists_are_read(
    o: OffsetFetchResponse,
    l: ListGroupsResponse,
    d: DescribeGroupsResponse,
    version: i16,
)
    requires
        version >= 1,
        o.topics@.len() <= i32::MAX,
        l.groups@.len() <= i32::MAX,
        d.groups@.len() <= i32::MAX,
    ensures
        ({
            let (throttle, c) = sp_i32(cursor(o.encoded(version)));
            throttle == o.throttle_time_ms && sp_i32(c).0 == o.topics@.len()
        }),
        ({
            let (throttle, c) = sp_i32(cursor(l.encoded(version)));
            let (code, c) = sp_i16(c);
            throttle == l.throttle_time_ms && code == l.error_code && sp_i32(c).0
                == l.groups@.len()
        }),
        ({
            let (throttle, c) = sp_i32(cursor(d.encoded(version)));
            throttle == d.throttle_time_ms && sp_i32(c).0 == d.groups@.len()
        }),
{
    let o2 = wire_all(o.topics@, version) + only_if(
        version >= 2,
        enc_i16(o.error_code),
    );
    let o1 = enc_i32(o.topics@.len() as i32) + o2;
    assert(o.encoded(version) =~= enc_i32(o.throttle_time_ms) + o1);
    law_i32_round_trip(o.throttle_time_ms, o1);
    law_i32_round_trip(o.topics@.len() as i32, o2);
    let l3 = wire_all(l.groups@, version);
    let l2 = enc_i32(l.groups@.len() as i32) + l3;
    let l1 = enc_i16(l.error_code) + l2;
    assert(l.encoded(version) =~= enc_i32(l.throttle_time_ms) + l1);
    law_i32_round_trip(l.throttle_time_ms, l1);
    law_i16_round_trip(l.error_code, l2);
    law_i32_round_trip(l.groups@.len() as i32, l3);
    let d2 = wire_all(d.groups@, version);
    let d1 = enc_i32(d.groups@.len() as i32) + d2;
    assert(d.encoded(version) =~= enc_i32(d.throttle_time_ms) + d1);
    law_i32_round_trip(d.throttle_time_ms, d1);
    law_i32_round_trip(d.groups@.len() as i32, d2);
}

/// What is read of a group in the list.
pub proof fn law_listed_group_is_read(l: ListedGroup, version: i16, rest: Seq<u8>)
    requires
        version < 4,
        name_fits(l.group_id@),
        name_fits(l.protocol_type@),
    ensures
        ({
            let (id, c) = sp_string(cursor(l.wire(version) + rest));
            let (kind, c) = sp_string(c);
            id == l.group_id@ && kind == l.protocol_type@ && c == cursor(rest)
        }),
{
    let l1 = enc_string(l.protocol_type@) + rest;
    assert(l.wire(version) + rest =~= enc_string(l.group_id@) + l1);
    law_string_round_trip(l.group_id@, l1);
    law_string_round_trip(l.protocol_type@, rest);
}

/// What is read of a group that is described, up to its members.
#[verifier::rlimit(40)]
pub proof fn law_described_group_is_read(g: DescribedGroup, version: i16, rest: Seq<u8>)
    requires
        name_fits(g.group_id@),
        name_fits(g.group_state@),
        name_fits(g.protocol_type@),
        name_fits(g.protocol_data@),
        g.members@.len() <= i32::MAX,
    ensures
        ({
            let (code, c) = sp_i16(cursor(g.wire(version) + rest));
            let (id, c) = sp_string(c);
            let (state, c) = sp_string(c);
            let (kind, c) = sp_string(c);
            let (data, c) = sp_string(c);
            let (n, c) = sp_i32(c);
            &&& code == g.error_code
            &&& id == g.group_id@
            &&& state == g.group_state@
            &&& kind == g.protocol_type@
            &&& data == g.protocol_data@
            &&& n == g.members@.len()
        }),
{
    let g6 = wire_all(g.members@, version) + (only_if(
        version >= 3,
        enc_i32(g.authorized_operations),
    ) + rest);
    let g5 = enc_i32(g.members@.len() as i32) + g6;
    let g4 = enc_string(g.protocol_data@) + g5;
    let g3 = enc_string(g.protocol_type@) + g4;
    let g2 = enc_string(g.group_state@) + g3;
    let g1 = enc_string(g.group_id@) + g2;
    assert(g.wire(version) + rest =~= enc_i16(g.error_code) + g1);
    law_i16_round_trip(g.error_code, g1);
    law_string_round_trip(g.group_id@, g2);
    law_string_round_trip(g.group_state@, g3);
    law_string_round_trip(g.protocol_type@, g4);
    law_string_round_trip(g.protocol_data@, g5);
    law_i32_round_trip(g.members@.len() as i32, g6);
}

/// What is read of a member of a group that is described.
#[verifier::rlimit(40)]
pub proof fn law_described_member_is_read(m: DescribedGroupMember, version: i16, rest: Seq<u8>)
    requires
        version < 4,
        name_fits(m.member_id@),
        name_fits(m.client_id@),
        name_fits(m.client_host@),
        bytes_view(m.member_metadata).len() <= i32::MAX,
        bytes_view(m.member_assignment).len() <= i32::MAX,
    ensures
        ({
            let (id, c) = sp_string(cursor(m.wire(version) + rest));
            let (client, c) = sp_string(c);
            let (host, c) = sp_string(c);
            let (metadata, c) = sp_bytes(c);
            let (assignment, c) = sp_bytes(c);
            &&& id == m.member_id@
            &&& client == m.client_id@
            &&& host == m.client_host@
            &&& metadata == bytes_view(m.member_metadata)
            &&& assignment == bytes_view(m.member_assignment)
            &&& c == cursor(rest)
        }),
{
    let x = bytes_view(m.member_metadata);
    let y = bytes_view(m.member_assignment);
    let m4 = enc_i32(y.len() as i32) + (y + rest);
    let m3 = enc_i32(x.len() as i32) + (x + m4);
    let m2 = enc_string(m.client_host@) + m3;
    let m1 = enc_string(m.client_id@) + m2;
    assert(m.wire(version) + rest =~= enc_string(m.member_id@) + m1);
    law_string_round_trip(m.member_id@, m1);
    law_string_round_trip(m.client_id@, m2);
    law_string_round_trip(m.client_host@, m3);
    law_i32_round_trip(x.len() as i32, x + m4);
    law_bytes_round_trip(x, x.len() as usize, m4);
    law_i32_round_trip(y.len() as i32, y + rest);
    law_bytes_round_trip(y, y.len() as usize, rest);
}

/// What is read of an answer to a request to commit: the number of topics, and of
/// every commit its partition and the code, in their order.
pub proof fn law_commit_response_is_read(
    ts: Seq<(Seq<char>, Seq<Commit>)>,
    version: i16,
    code: i16,
    cs: Seq<Commit>,
    c: Commit,
)
    requires
        ts.len() <= i32::MAX,
    ensures
        version < 3 ==> sp_i32(cursor(enc_commit_response(ts, version, code))).0 == ts.len(),
        version >= 3 ==> sp_i32(cursor(enc_commit_response(ts, version, code))).0 == 0 && sp_i32(
            sp_i32(cursor(enc_commit_response(ts, version, code))).1,
        ).0 == ts.len(),
        enc_commit_parts(cs.push(c), code) == enc_commit_parts(cs, code) + (enc_i32(c.0) + enc_i16(
            code,
        )),
        enc_commit_parts(Seq::empty(), code).len() == 0,
{
    let all = enc_commit_topics(ts, code);
    let n = enc_i32(ts.len() as i32);
    if version >= 3 {
        assert(enc_commit_response(ts, version, code) =~= enc_i32(0) + (n + all));
        law_i32_round_trip(0, n + all);
    } else {
        assert(enc_commit_response(ts, version, code) =~= n + all);
    }
    law_i32_round_trip(ts.len() as i32, all);
    assert(cs.push(c).drop_last() =~= cs);
    assert(enc_commit_parts(cs.push(c), code) =~= enc_commit_parts(cs, code) + (enc_i32(c.0)
        + enc_i16(code)));
}

/// Commits are answered topic by topic, each with its name and the number of its
/// partitions in front.
pub proof fn law_commits_by_topic(
    ts: Seq<(Seq<char>, Seq<Commit>)>,
    t: (Seq<char>, Seq<Commit>),
    code: i16,
)
    ensures
        enc_commit_topics(Seq::empty(), code).len() == 0,
        enc_commit_topics(ts.push(t), code) == enc_commit_topics(ts, code) + enc_string(t.0)
            + enc_i32(t.1.len() as i32) + enc_commit_parts(t.1, code),
{
    assert(ts.push(t).drop_last() =~= ts);
}

/// What is read of a supported request, and first of the answer that lists them,
/// before the compact format.
pub proof fn law_versions_are_read(
    r: ApiVersionsResponse,
    x: ApiVersion,
    version: i16,
    rest: Seq<u8>,
)
    requires
        version < 3,
        r.api_keys@.len() <= i32::MAX,
    ensures
        ({
            let (key, c) = sp_i16(cursor(x.wire(version) + rest));
            let (min, c) = sp_i16(c);
            let (max, c) = sp_i16(c);
            key == x.api_key && min == x.min_version && max == x.max_version && c == cursor(rest)
        }),
        ({
            let (code, c) = sp_i16(cursor(r.encoded(version)));
            code == r.error_code && sp_i32(c).0 == r.api_keys@.len()
        }),
{
    let b = enc_i16(x.max_version) + rest;
    let a = enc_i16(x.min_version) + b;
    assert(x.wire(version) + rest =~= enc_i16(x.api_key) + a);
    law_i16_round_trip(x.api_key, a);
    law_i16_round_trip(x.min_version, b);
    law_i16_round_trip(x.max_version, rest);
    let all = wire_all(r.api_keys@, version) + enc_i32(r.throttle_time_ms);
    let n = enc_i32(r.api_keys@.len() as i32);
    assert(r.encoded(version) =~= enc_i16(r.error_code) + (n + all));
    law_i16_round_trip(r.error_code, n + all);
    law_i32_round_trip(r.api_keys@.len() as i32, all);
}

// ---------------------------------------------------------------------------
// What came with which version

/// The metadata of a broker, a topic and a partition, version by version: whether a
/// topic is internal and where a broker stands are told from version 1 on, and which
/// replicas are missing from version 5 on.
pub proof fn law_metadata_by_version(
    b: BrokerMetadata,
    t: TopicMetadata,
    p: PartitionMetadata,
    v: i16,
)
    ensures
        v < 1 ==> b.wire(v) == enc_i32(b.node_id) + enc_string(b.host@) + enc_i32(b.port),
        v >= 1 ==> b.wire(v) == enc_i32(b.node_id) + enc_string(b.host@) + enc_i32(b.port)
            + enc_i16(-1i16),
        v < 1 ==> t.wire(v) == enc_i16(t.error_code) + enc_string(t.name@) + wire_array(
            t.partitions@,
            v,
        ),
        v >= 1 ==> t.wire(v) == enc_i16(t.error_code) + enc_string(t.name@) + enc_i8(
            if t.is_internal {
                1i8
            } else {
                0i8
            },
        ) + wire_array(t.partitions@, v),
        v < 5 ==> p.wire(v) == enc_i16(p.error_code) + enc_i32(p.partition_index) + enc_i32(
            p.leader_id,
        ) + wire_array(p.replica_nodes@, v) + wire_array(p.isr_nodes@, v),
        v >= 5 ==> p.wire(v) == enc_i16(p.error_code) + enc_i32(p.partition_index) + enc_i32(
            p.leader_id,
        ) + wire_array(p.replica_nodes@, v) + wire_array(p.isr_nodes@, v) + enc_i32(0),
{
}

/// An answer to a metadata request, version by version: who controls the cluster is
/// told from version 1 on, its name from version 2 on, and the throttle time from
/// version 3 on.
pub proof fn law_metadata_response_by_version(r: MetadataResponse, v: i16)
    ensures
        v < 1 ==> r.encoded(v) == wire_array(r.brokers@, v) + wire_array(r.topics@, v),
        v == 1 ==> r.encoded(v) == wire_array(r.brokers@, v) + enc_i32(r.controller_id)
            + wire_array(r.topics@, v),
        v == 2 ==> r.encoded(v) == wire_array(r.brokers@, v) + enc_nullable_string(
            opt_string(r.cluster_id),
        ) + enc_i32(r.controller_id) + wire_array(r.topics@, v),
        v >= 3 ==> r.encoded(v) == enc_i32(0) + wire_array(r.brokers@, v) + enc_nullable_string(
            opt_string(r.cluster_id),
        ) + enc_i32(r.controller_id) + wire_array(r.topics@, v),
{
}

/// Answers to produce requests, version by version: the throttle time is told from
/// version 1 on, at the end.
pub proof fn law_produce_response_by_version(r: ProduceResponse, v: i16)
    ensures
        v < 1 ==> r.encoded(v) == wire_array(r.topics@, v),
        v >= 1 ==> r.encoded(v) == wire_array(r.topics@, v) + enc_i32(r.throttle_time_ms),
{
}

/// Answers on groups, version by version.
pub proof fn law_group_responses_by_version(
    c: FindCoordinatorResponse,
    o: OffsetFetchResponse,
    l: ListGroupsResponse,
    d: DescribeGroupsResponse,
    v: i16,
)
    ensures
        v < 1 ==> c.encoded(v) == enc_i32(c.throttle_time_ms) + enc_i32(c.node_id) + enc_string(
            c.host@,
        ) + enc_i32(c.port),
        v < 2 ==> o.encoded(v) == enc_i32(o.throttle_time_ms) + wire_array(o.topics@, v),
        v >= 2 ==> o.encoded(v) == enc_i32(o.throttle_time_ms) + wire_array(o.topics@, v)
            + enc_i16(o.error_code),
        v < 1 ==> l.encoded(v) == enc_i16(l.error_code) + wire_array(l.groups@, v),
        v >= 1 ==> l.encoded(v) == enc_i32(l.throttle_time_ms) + enc_i16(l.error_code)
            + wire_array(l.groups@, v),
        v < 1 ==> d.encoded(v) == wire_array(d.groups@, v),
        v >= 1 ==> d.encoded(v) == enc_i32(d.throttle_time_ms) + wire_array(d.groups@, v),
{
}

/// What is told of a group and of its members, version by version: what may be done
/// with a group from version 3 on, its state and the name of a member's instance
/// from version 4 on.
pub proof fn law_groups_by_version(
    l: ListedGroup,
    g: DescribedGroup,
    m: DescribedGroupMember,
    v: i16,
)
    ensures
        v >= 4 ==> l.wire(v) == enc_string(l.group_id@) + enc_string(l.protocol_type@)
            + enc_string(l.group_state@),
        v < 3 ==> g.wire(v) == enc_i16(g.error_code) + enc_string(g.group_id@) + enc_string(
            g.group_state@,
        ) + enc_string(g.protocol_type@) + enc_string(g.protocol_data@) + wire_array(
            g.members@,
            v,
        ),
        v >= 3 ==> g.wire(v) == enc_i16(g.error_code) + enc_string(g.group_id@) + enc_string(
            g.group_state@,
        ) + enc_string(g.protocol_type@) + enc_string(g.protocol_data@) + wire_array(
            g.members@,
            v,
        ) + enc_i32(g.authorized_operations),
        v >= 4 ==> m.wire(v) == enc_string(m.member_id@) + enc_nullable_string(
            opt_string(m.group_instance_id),
        ) + enc_string(m.client_id@) + enc_string(m.client_host@) + enc_bytes(
            bytes_view(m.member_metadata),
        ) + enc_bytes(bytes_view(m.member_assignment)),
{
}

/// Answers to requests to join, version by version: the type of the protocols is told
/// from version 7 on, and whether the leader is to be left alone from version 9 on.
pub proof fn law_join_response_by_version(
    r: JoinGroupResponse,
    m: (String, Bytes),
    s: SyncGroupResponse,
    v: i16,
)
    ensures
        ({
            let head = enc_i32(r.throttle_time_ms) + enc_i16(r.error_code) + enc_i32(
                r.generation_id,
            );
            &&& v < 7 ==> r.encoded(v) == head + enc_nullable_string(opt_string(r.protocol_name))
                + enc_string(r.leader@) + enc_string(r.member_id@) + wire_array(r.members@, v)
            &&& 7 <= v < 9 ==> r.encoded(v) == head + enc_nullable_compact_string(
                opt_string(r.protocol_type),
            ) + enc_nullable_compact_string(opt_string(r.protocol_name)) + enc_string(r.leader@)
                + enc_string(r.member_id@) + wire_array(r.members@, v)
            &&& v >= 9 ==> r.encoded(v) == head + enc_nullable_compact_string(
                opt_string(r.protocol_type),
            ) + enc_nullable_compact_string(opt_string(r.protocol_name)) + enc_string(r.leader@)
                + enc_i8(0) + enc_string(r.member_id@) + wire_array(r.members@, v)
        }),
        v < 5 ==> m.wire(v) == enc_string(m.0@) + enc_bytes(bytes_view(m.1)),
        v >= 5 ==> m.wire(v) == enc_string(m.0@) + enc_i16(-1i16) + enc_bytes(bytes_view(m.1)),
        v >= 5 ==> s.encoded(v) == enc_i32(s.throttle_time_ms) + enc_i16(s.error_code)
            + enc_compact_nullable_bytes(Some(bytes_view(s.assignment))),
{
    if v < 7 {
        assert(r.encoded(v) =~= enc_i32(r.throttle_time_ms) + enc_i16(r.error_code) + enc_i32(
            r.generation_id,
        ) + enc_nullable_string(opt_string(r.protocol_name)) + enc_string(r.leader@) + enc_string(
            r.member_id@,
        ) + wire_array(r.members@, v));
    } else if v < 9 {
        assert(r.encoded(v) =~= enc_i32(r.throttle_time_ms) + enc_i16(r.error_code) + enc_i32(
            r.generation_id,
        ) + enc_nullable_compact_string(opt_string(r.protocol_type)) + enc_nullable_compact_string(
            opt_string(r.protocol_name),
        ) + enc_string(r.leader@) + enc_string(r.member_id@) + wire_array(r.members@, v));
    } else {
        assert(r.encoded(v) =~= enc_i32(r.throttle_time_ms) + enc_i16(r.error_code) + enc_i32(
            r.generation_id,
        ) + enc_nullable_compact_string(opt_string(r.protocol_type)) + enc_nullable_compact_string(
            opt_string(r.protocol_name),
        ) + enc_string(r.leader@) + enc_i8(0) + enc_string(r.member_id@) + wire_array(
            r.members@,
            v,
        ));
    }
}

/// The supported versions, version by version: from version 3 on in the compact
/// format, with the tags that there are none of.
pub proof fn law_versions_by_version(r: ApiVersionsResponse, x: ApiVersion, v: i16)
    requires
        r.api_keys@.len() < u64::MAX,
    ensures
        v < 3 ==> r.encoded(v) == enc_i16(r.error_code) + wire_array(r.api_keys@, v) + enc_i32(
            r.throttle_time_ms,
        ),
        v >= 3 ==> r.encoded(v) == enc_i16(r.error_code) + (uvarint(
            (r.api_keys@.len() + 1) as u64,
        ) + wire_all(r.api_keys@, v)) + enc_i32(r.throttle_time_ms) + seq![0u8],
        v < 3 ==> x.wire(v) == enc_i16(x.api_key) + enc_i16(x.min_version) + enc_i16(
            x.max_version,
        ),
        v >= 3 ==> x.wire(v) == enc_i16(x.api_key) + enc_i16(x.min_version) + enc_i16(
            x.max_version,
        ) + seq![0u8],
{
}

/// What is told of a topic that was to be created, before version 2: its name and the
/// code, and in version 1 that there is no message.
pub proof fn law_created_by_version(m: MetaView, name: Seq<char>, n: i32, v: i16)
    requires
        v < 2,
    ensures
        ({
            let code: i16 = if missing(m, name, n as int).len() == 0 {
                0
            } else {
                -1i16
            };
            &&& v < 1 ==> enc_created(m, name, n, v) == enc_string(name) + enc_i16(code)
            &&& v == 1 ==> enc_created(m, name, n, v) == enc_string(name) + enc_i16(code)
                + enc_i16(-1i16)
        }),
{
    let code: i16 = if missing(m, name, n as int).len() == 0 {
        0
    } else {
        -1i16
    };
    if v < 1 {
        assert(enc_created(m, name, n, v) =~= enc_string(name) + enc_i16(code));
    } else {
        assert(enc_created(m, name, n, v) =~= enc_string(name) + enc_i16(code) + enc_i16(-1i16));
    }
}

/// Where the throttle time stands in answers on topics: in front for the bounds of
/// partitions from version 2 on, at the end for new topics from version 2 on, and at
/// the end for deleted topics from version 1 on.
pub proof fn law_throttle_times(
    h: RequestHeaderModel,
    req: RequestModel,
    cx: Context,
    a: State,
    b: State,
    reply: ReplyModel,
)
    requires
        served(h, req, cx, a, b, reply),
    ensures
        ({
            let v = h.api_version;
            let id = h.correlation_id;
            &&& req matches RequestModel::ListOffsets(r) ==> {
                let all = enc_i32(r.topics.len() as i32) + enc_all_bounds(
                    a.view.meta,
                    r.topics,
                    v,
                );
                &&& v < 2 ==> reply == answer_with(id, all)
                &&& v >= 2 ==> reply == answer_with(id, enc_i32(0) + all)
            }
            &&& req matches RequestModel::CreateTopics(r) ==> {
                let all = enc_i32(r.topics.len() as i32) + enc_all_created(
                    a.view.meta,
                    wants_in(r.topics),
                    v,
                );
                &&& v < 2 ==> reply == answer_with(id, all)
                &&& v >= 2 ==> reply == answer_with(id, all + enc_i32(0))
            }
            &&& req matches RequestModel::DeleteTopics(r) ==> {
                let all = enc_i32(r.topic_names.len() as i32) + enc_all_deleted(r.topic_names);
                &&& v < 1 ==> reply == answer_with(id, all)
                &&& v >= 1 ==> reply == answer_with(id, all + enc_i32(0))
            }
        }),
{
    let v = h.api_version;
    match req {
        RequestModel::ListOffsets(r) => {
            let n = enc_i32(r.topics.len() as i32);
            let all = enc_all_bounds(a.view.meta, r.topics, v);
            assert(Seq::<u8>::empty() + n + all =~= n + all);
            assert(enc_i32(0) + n + all =~= enc_i32(0) + (n + all));
        },
        RequestModel::CreateTopics(r) => {
            let all = enc_i32(r.topics.len() as i32) + enc_all_created(
                a.view.meta,
                wants_in(r.topics),
                v,
            );
            assert(all + Seq::<u8>::empty() =~= all);
        },
        RequestModel::DeleteTopics(r) => {
            let all = enc_i32(r.topic_names.len() as i32) + enc_all_deleted(r.topic_names);
            assert(all + Seq::<u8>::empty() =~= all);
        },
        _ => {},
    }
}

/// The bounds of partitions are told topic by topic, each with its name and the number
/// of its partitions in front.
pub proof fn law_bounds_by_topic(
    m: MetaView,
    ts: Seq<(Seq<char>, Seq<BoundsQuery>)>,
    t: (Seq<char>, Seq<BoundsQuery>),
    v: i16,
)
    ensures
        enc_all_bounds(m, Seq::empty(), v).len() == 0,
        enc_all_bounds(m, ts.push(t), v) == enc_all_bounds(m, ts, v) + enc_string(t.0) + enc_i32(
            t.1.len() as i32,
        ) + enc_topic_bounds(m, t.0, t.1, v),
{
    assert(ts.push(t).drop_last() =~= ts);
}

} // verus!
