//! Versions, topics, the bounds of partitions, and the ids of producers.

use vstd::prelude::*;

use crate::internals::topics::lemma_missing_same_logs;
use crate::maps::goes_through;
use crate::protocol::codec::only_if;
use crate::protocol::error_codes;
use crate::protocol::messages::api_versions::{ApiVersion, ApiVersionsResponse};
use crate::protocol::messages::groups::FindCoordinatorResponse;
use crate::protocol::messages::metadata::{
    BrokerMetadata, MetadataRequest, MetadataResponse, PartitionMetadata, TopicMetadata,
};
use crate::protocol::messages::offsets::ListOffsetsRequest;
use crate::protocol::messages::produce::{ProducePartitionModel, ProduceRequest, ProduceTopicModel};
use crate::protocol::messages::topics::{CreateTopicsRequest, DeleteTopicsRequest};
use crate::protocol::primitive::{enc_string, Encoder, Modeled};
use crate::protocol::wire::{enc_i16, enc_i32, enc_i64};
use crate::server::metadata::{
    copy_ints, default_partitions_of, missing, topic_or_bare, values_of, with_topic, without_topic,
    MetaView, PartitionKey, PartitionModel, TopicInfo, TopicModel,
};
use crate::server::records::acks_known;
use crate::server::state::{ProducerIds, RequestHandler, Setup};
use crate::supported::SUPPORTED_API_KEYS;

verus! {

// ---------------------------------------------------------------------------
// Topics to create

/// A topic to create and the number of its partitions.
pub type Want = (Seq<char>, i32);

/// The topics that a metadata request asks for and that do not exist, if it lets
/// them be created.
pub open spec fn metadata_wants_of(m: MetaView, topics: Seq<Seq<char>>, n: i32) -> Seq<Want>
    decreases topics.len(),
{
    if topics.len() == 0 {
        Seq::empty()
    } else {
        let before = metadata_wants_of(m, topics.drop_last(), n);
        if m.topics.contains_key(topics.last()) {
            before
        } else {
            before.push((topics.last(), n))
        }
    }
}

/// For every partition of a topic that does not exist, the topic.
pub open spec fn partition_wants_of(
    m: MetaView,
    topic: Seq<char>,
    ps: Seq<ProducePartitionModel>,
    n: i32,
) -> Seq<Want>
    decreases ps.len(),
{
    if ps.len() == 0 {
        Seq::empty()
    } else {
        let before = partition_wants_of(m, topic, ps.drop_last(), n);
        if m.logs.contains_key((topic, ps.last().partition_index)) {
            before
        } else {
            before.push((topic, n))
        }
    }
}

/// For every partition that is to be produced to and does not exist, its topic.
pub open spec fn produce_wants_of(m: MetaView, ts: Seq<ProduceTopicModel>, n: i32) -> Seq<Want>
    decreases ts.len(),
{
    if ts.len() == 0 {
        Seq::empty()
    } else {
        produce_wants_of(m, ts.drop_last(), n) + partition_wants_of(
            m,
            ts.last().topic,
            ts.last().partitions,
            n,
        )
    }
}

/// After topics were created, their partitions not opened yet.
pub open spec fn with_topics(m: MetaView, wants: Seq<Want>) -> MetaView
    decreases wants.len(),
{
    if wants.len() == 0 {
        m
    } else {
        with_topic(with_topics(m, wants.drop_last()), wants.last().0, false)
    }
}

/// Whether a partition is one of those wanted and has no log.
pub open spec fn is_wanted(m: MetaView, wants: Seq<Want>, k: PartitionKey) -> bool {
    !m.logs.contains_key(k) && exists|i: int|
        0 <= i < wants.len() && (#[trigger] wants[i]).0 == k.0 && 0 <= k.1 < wants[i].1
}

pub proof fn lemma_missing(m: MetaView, topic: Seq<char>, n: int)
    requires
        n <= i32::MAX,
    ensures
        forall|p: i32| #[trigger]
            missing(m, topic, n).contains(p) <==> 0 <= p < n && !m.logs.contains_key((topic, p)),
        missing(m, topic, n).no_duplicates(),
    decreases n,
{
    let s = missing(m, topic, n);
    if n > 0 {
        let before = missing(m, topic, n - 1);
        lemma_missing(m, topic, n - 1);
        let q = (n - 1) as i32;
        assert forall|p: i32| #[trigger] s.contains(p) <==> 0 <= p < n && !m.logs.contains_key(
            (topic, p),
        ) by {
            if before.contains(p) {
                let k = choose|k: int| 0 <= k < before.len() && before[k] == p;
                assert(s[k] == p);
            }
            if p == q && !m.logs.contains_key((topic, q)) {
                assert(s[before.len() as int] == p);
            }
            if s.contains(p) {
                let k = choose|k: int| 0 <= k < s.len() && s[k] == p;
                if k < before.len() {
                    assert(before[k] == p);
                    assert(before.contains(p));
                }
            }
        }
        assert(!before.contains(q));
    }
}

proof fn lemma_with_topics_logs(m: MetaView, wants: Seq<Want>)
    ensures
        with_topics(m, wants).logs == m.logs,
    decreases wants.len(),
{
    if wants.len() > 0 {
        lemma_with_topics_logs(m, wants.drop_last());
    }
}

/// Whether a partition is among others.
pub fn has_partition(v: &Vec<(String, i32)>, topic: &str, partition: i32) -> (r: bool)
    ensures
        r == v.model().contains((topic@, partition)),
{
    let t = topic.to_string();
    let mut i: usize = 0;
    while i < v.len()
        invariant
            i <= v@.len(),
            t@ == topic@,
            forall|j: int| 0 <= j < i ==> #[trigger] v.model()[j] != (topic@, partition),
        decreases v@.len() - i,
    {
        if v[i].1 == partition && v[i].0 == t {
            assert(v.model()[i as int] == (topic@, partition));
            return true;
        }
        i = i + 1;
    }
    false
}

// ---------------------------------------------------------------------------
// Answers

/// Whether a response says of a partition what it is.
pub open spec fn says_partition(r: PartitionMetadata, p: PartitionModel) -> bool {
    &&& r.error_code == error_codes::NONE
    &&& r.partition_index == p.partition
    &&& r.leader_id == p.leader
    &&& r.replica_nodes@ == p.replicas
    &&& r.isr_nodes@ == p.isr
}

/// Whether a response says of a topic what it is. One without partitions is
/// unknown.
pub open spec fn says_topic(r: TopicMetadata, t: TopicModel) -> bool {
    &&& r.name@ == t.name
    &&& r.is_internal == t.is_internal
    &&& r.error_code == if t.partitions.len() == 0 {
        error_codes::UNKNOWN_TOPIC_OR_PARTITION
    } else {
        error_codes::NONE
    }
    &&& r.partitions@.len() == t.partitions.len()
    &&& forall|i: int|
        0 <= i < t.partitions.len() ==> says_partition(#[trigger] r.partitions@[i], t.partitions[i])
}

/// Whether a response says of topics what they are.
pub open spec fn says_topics(rs: Seq<TopicMetadata>, ts: Seq<TopicModel>) -> bool {
    &&& rs.len() == ts.len()
    &&& forall|i: int| 0 <= i < ts.len() ==> says_topic(#[trigger] rs[i], ts[i])
}

/// The topics of given names.
pub open spec fn topics_named(m: MetaView, names: Seq<Seq<char>>) -> Seq<TopicModel> {
    Seq::new(names.len(), |i: int| topic_or_bare(m, names[i], false))
}

/// Whether a metadata response is right: all topics, in some order, if the
/// request names none.
pub open spec fn metadata_answered(
    m: MetaView,
    setup: Setup,
    names: Seq<Seq<char>>,
    r: MetadataResponse,
) -> bool {
    &&& r.brokers@.len() == 1
    &&& r.brokers@[0].node_id == setup.id
    &&& r.brokers@[0].host@ == setup.host
    &&& r.brokers@[0].port == setup.port
    &&& r.cluster_id.model() == Some("rivine-cluster"@)
    &&& r.controller_id == setup.id
    &&& if names.len() == 0 {
        exists|list: Seq<(Seq<char>, TopicModel)>| #[trigger]
            goes_through(list, m.topics) && says_topics(r.topics@, values_of(list))
    } else {
        says_topics(r.topics@, topics_named(m, names))
    }
}

/// The bytes that answer for a topic that was to be created.
pub open spec fn enc_created(m: MetaView, name: Seq<char>, n: i32, version: i16) -> Seq<u8> {
    enc_string(name) + enc_i16(
        if missing(m, name, n as int).len() == 0 {
            error_codes::NONE
        } else {
            error_codes::UNKNOWN_SERVER_ERROR
        },
    ) + only_if(version >= 1, enc_i16(-1i16)) + only_if(version >= 2, enc_i32(n)) + only_if(
        version >= 2,
        enc_i16(1),
    ) + only_if(version >= 5, enc_i32(0))
}

/// The bytes that answer for topics that were to be created.
pub open spec fn enc_all_created(m: MetaView, wants: Seq<Want>, version: i16) -> Seq<u8>
    decreases wants.len(),
{
    if wants.len() == 0 {
        Seq::empty()
    } else {
        enc_all_created(m, wants.drop_last(), version) + enc_created(
            m,
            wants.last().0,
            wants.last().1,
            version,
        )
    }
}

/// The names and partition numbers of topics that are to be created.
pub open spec fn wants_in(
    topics: Seq<(Seq<char>, i32, i16, Seq<(Seq<char>, Seq<char>)>)>,
) -> Seq<Want> {
    Seq::new(topics.len(), |i: int| (topics[i].0, topics[i].1))
}

/// After topics were deleted.
pub open spec fn without_topics(m: MetaView, names: Seq<Seq<char>>) -> MetaView
    decreases names.len(),
{
    if names.len() == 0 {
        m
    } else {
        without_topic(without_topics(m, names.drop_last()), names.last())
    }
}

/// The bytes that answer for topics that were to be deleted.
pub open spec fn enc_all_deleted(names: Seq<Seq<char>>) -> Seq<u8>
    decreases names.len(),
{
    if names.len() == 0 {
        Seq::empty()
    } else {
        enc_all_deleted(names.drop_last()) + enc_string(names.last()) + enc_i16(error_codes::NONE)
    }
}

/// The last `n` offsets of a log, latest first, cut off at 32 bits.
pub open spec fn latest_offsets(leo: i64, log_start: i64, n: int) -> Seq<i32> {
    let k = if leo - log_start < n {
        leo - log_start
    } else {
        n
    };
    Seq::new(
        if k < 0 {
            0
        } else {
            k as nat
        },
        |i: int| ((leo - 1 - i) as i64) as i32,
    )
}

/// The bytes of offsets.
pub open spec fn enc_offsets(os: Seq<i32>) -> Seq<u8>
    decreases os.len(),
{
    if os.len() == 0 {
        Seq::empty()
    } else {
        enc_offsets(os.drop_last()) + enc_i32(os.last())
    }
}

/// The bytes that give a producer an id, of epoch zero.
pub open spec fn enc_producer_id(id: i64) -> Seq<u8> {
    enc_i32(0) + enc_i16(error_codes::NONE) + enc_i64(id) + enc_i16(0)
}

/// What is asked of the bounds of a partition: its number, a byte that does not
/// matter, a timestamp and a number of offsets.
pub type BoundsQuery = (i32, i8, i64, i32);

/// The bytes that answer for the bounds of a partition: the oldest offset if the
/// timestamp is -2, else the offset after the last record.
pub open spec fn enc_bounds(
    m: MetaView,
    topic: Seq<char>,
    q: BoundsQuery,
    version: i16,
) -> Seq<u8> {
    match m.logs.get((topic, q.0)) {
        None => enc_i32(q.0) + enc_i16(error_codes::UNKNOWN_TOPIC_OR_PARTITION) + if version >= 1 {
            enc_i64(-1i64) + enc_i64(-1i64)
        } else {
            enc_i32(0)
        },
        Some(l) => enc_i32(q.0) + enc_i16(error_codes::NONE) + if version >= 1 {
            if q.2 == -2 {
                enc_i64(-1i64) + enc_i64(l.log_start_offset)
            } else {
                enc_i64(q.2) + enc_i64(l.high_watermark)
            }
        } else {
            let os = if q.2 == -2 {
                seq![l.log_start_offset as i32]
            } else {
                latest_offsets(
                    l.high_watermark,
                    l.log_start_offset,
                    if q.3 > 1 {
                        q.3 as int
                    } else {
                        1
                    },
                )
            };
            enc_i32(os.len() as i32) + enc_offsets(os)
        },
    }
}

/// The bytes that answer for the bounds of partitions of a topic.
pub open spec fn enc_topic_bounds(
    m: MetaView,
    topic: Seq<char>,
    qs: Seq<BoundsQuery>,
    version: i16,
) -> Seq<u8>
    decreases qs.len(),
{
    if qs.len() == 0 {
        Seq::empty()
    } else {
        enc_topic_bounds(m, topic, qs.drop_last(), version) + enc_bounds(
            m,
            topic,
            qs.last(),
            version,
        )
    }
}

/// The bytes that answer for the bounds of partitions.
pub open spec fn enc_all_bounds(
    m: MetaView,
    ts: Seq<(Seq<char>, Seq<BoundsQuery>)>,
    version: i16,
) -> Seq<u8>
    decreases ts.len(),
{
    if ts.len() == 0 {
        Seq::empty()
    } else {
        enc_all_bounds(m, ts.drop_last(), version) + enc_string(ts.last().0) + enc_i32(
            ts.last().1.len() as i32,
        ) + enc_topic_bounds(m, ts.last().0, ts.last().1, version)
    }
}

// ---------------------------------------------------------------------------
// Laws

/// Every topic that a metadata request asks for is there once those that it
/// wants have been created.
pub proof fn law_asked_topics_exist(m: MetaView, names: Seq<Seq<char>>, n: i32, i: int)
    requires
        0 <= i < names.len(),
    ensures
        with_topics(m, metadata_wants_of(m, names, n)).topics.contains_key(names[i]),
    decreases names.len(),
{
    let wants = metadata_wants_of(m, names, n);
    let before = metadata_wants_of(m, names.drop_last(), n);
    if i < names.len() - 1 {
        law_asked_topics_exist(m, names.drop_last(), n, i);
        assert(names.drop_last()[i] == names[i]);
    } else if m.topics.contains_key(names[i]) {
        lemma_topics_stay(m, wants, names[i]);
    }
    if wants != before {
        assert(wants.drop_last() =~= before);
    }
}

proof fn lemma_topics_stay(m: MetaView, wants: Seq<Want>, t: Seq<char>)
    requires
        m.topics.contains_key(t),
    ensures
        with_topics(m, wants).topics.get(t) == m.topics.get(t),
    decreases wants.len(),
{
    if wants.len() > 0 {
        lemma_topics_stay(m, wants.drop_last(), t);
    }
}

/// Creating topics changes nothing about those that exist.
pub proof fn law_existing_topics_stay(m: MetaView, wants: Seq<Want>, t: Seq<char>)
    requires
        m.topics.contains_key(t),
    ensures
        with_topics(m, wants).topics.get(t) == m.topics.get(t),
        with_topics(m, wants).logs == m.logs,
{
    lemma_topics_stay(m, wants, t);
    lemma_with_topics_logs(m, wants);
}

/// Every partition that a produce request names either has a log or is wanted,
/// if it is one that a topic is created with.
pub proof fn law_produced_partitions_are_wanted(
    m: MetaView,
    ts: Seq<ProduceTopicModel>,
    n: i32,
    i: int,
    j: int,
)
    requires
        0 <= i < ts.len(),
        0 <= j < ts[i].partitions.len(),
        0 <= ts[i].partitions[j].partition_index < n,
    ensures
        ({
            let k = (ts[i].topic, ts[i].partitions[j].partition_index);
            m.logs.contains_key(k) || is_wanted(m, produce_wants_of(m, ts, n), k)
        }),
    decreases ts.len(),
{
    let before = produce_wants_of(m, ts.drop_last(), n);
    let last = partition_wants_of(m, ts.last().topic, ts.last().partitions, n);
    let all = produce_wants_of(m, ts, n);
    let k = (ts[i].topic, ts[i].partitions[j].partition_index);
    if !m.logs.contains_key(k) {
        if i < ts.len() - 1 {
            assert(ts.drop_last()[i] == ts[i]);
            law_produced_partitions_are_wanted(m, ts.drop_last(), n, i, j);
            let x = choose|x: int|
                0 <= x < before.len() && (#[trigger] before[x]).0 == k.0 && 0 <= k.1 < before[x].1;
            assert(all[x] == before[x]);
        } else {
            lemma_partition_wanted(m, ts[i].topic, ts[i].partitions, n, j);
            let x = choose|x: int| 0 <= x < last.len() && #[trigger] last[x] == (ts[i].topic, n);
            assert(all[before.len() + x] == last[x]);
        }
    }
}

proof fn lemma_partition_wanted(
    m: MetaView,
    topic: Seq<char>,
    ps: Seq<ProducePartitionModel>,
    n: i32,
    j: int,
)
    requires
        0 <= j < ps.len(),
        !m.logs.contains_key((topic, ps[j].partition_index)),
    ensures
        exists|x: int|
            0 <= x < partition_wants_of(m, topic, ps, n).len() && #[trigger] partition_wants_of(
                m,
                topic,
                ps,
                n,
            )[x] == (topic, n),
    decreases ps.len(),
{
    let before = partition_wants_of(m, topic, ps.drop_last(), n);
    let all = partition_wants_of(m, topic, ps, n);
    if j == ps.len() - 1 {
        assert(all[before.len() as int] == (topic, n));
    } else {
        assert(ps.drop_last()[j] == ps[j]);
        lemma_partition_wanted(m, topic, ps.drop_last(), n, j);
        let x = choose|x: int| 0 <= x < before.len() && #[trigger] before[x] == (topic, n);
        assert(all[x] == (topic, n));
    }
}

/// A deleted topic is unknown, and so are its partitions. Nothing changes about
/// other topics.
pub proof fn law_deleted_topics_are_unknown(m: MetaView, names: Seq<Seq<char>>, t: Seq<char>)
    ensures
        ({
            let w = without_topics(m, names);
            if names.contains(t) {
                &&& topic_or_bare(w, t, false).partitions.len() == 0
                &&& !w.topics.contains_key(t)
                &&& forall|p: i32| !#[trigger] w.logs.contains_key((t, p))
            } else {
                &&& w.topics.get(t) == m.topics.get(t)
                &&& forall|p: i32| #[trigger] w.logs.get((t, p)) == m.logs.get((t, p))
            }
        }),
    decreases names.len(),
{
    if names.len() > 0 {
        let before = names.drop_last();
        law_deleted_topics_are_unknown(m, before, t);
        if names.contains(t) && t != names.last() {
            let i = choose|i: int| 0 <= i < names.len() && names[i] == t;
            assert(before[i] == t);
        }
        if before.contains(t) {
            let i = choose|i: int| 0 <= i < before.len() && before[i] == t;
            assert(names[i] == t);
        }
        assert(names[names.len() - 1] == names.last());
        let wb = without_topics(m, before);
        let w = without_topics(m, names);
        if names.contains(t) {
            assert forall|p: i32| !#[trigger] w.logs.contains_key((t, p)) by {
                if t != names.last() {
                    assert(!wb.logs.contains_key((t, p)));
                }
            }
        } else {
            assert forall|p: i32| #[trigger] w.logs.get((t, p)) == m.logs.get((t, p)) by {
                assert(wb.logs.get((t, p)) == m.logs.get((t, p)));
                assert(w.logs.contains_key((t, p)) == wb.logs.contains_key((t, p)));
            }
        }
    }
}

// ---------------------------------------------------------------------------

/// Whether a response names this broker as the coordinator.
pub open spec fn says_coordinator(r: FindCoordinatorResponse, setup: Setup) -> bool {
    &&& r.throttle_time_ms == 0
    &&& r.error_code == error_codes::NONE
    &&& r.error_message is None
    &&& r.node_id == setup.id
    &&& r.host@ == setup.host
    &&& r.port == setup.port
}

/// Whether a response gives the versions that the broker supports.
pub open spec fn says_versions(r: ApiVersionsResponse) -> bool {
    &&& r.error_code == error_codes::NONE
    &&& r.throttle_time_ms == 0
    &&& r.api_keys@.len() == SUPPORTED_API_KEYS@.len()
    &&& forall|i: int|
        0 <= i < r.api_keys@.len() ==> (#[trigger] r.api_keys@[i]) == (ApiVersion {
            api_key: SUPPORTED_API_KEYS@[i].0,
            min_version: SUPPORTED_API_KEYS@[i].1,
            max_version: SUPPORTED_API_KEYS@[i].2,
        })
}

/// The versions that the broker supports.
pub fn handle_api_versions() -> (r: ApiVersionsResponse)
    ensures
        says_versions(r),
{
    let all = SUPPORTED_API_KEYS;
    let mut api_keys: Vec<ApiVersion> = Vec::new();
    let mut i: usize = 0;
    while i < 17
        invariant
            i <= 17,
            all == SUPPORTED_API_KEYS,
            api_keys@.len() == i,
            forall|j: int|
                0 <= j < i ==> (#[trigger] api_keys@[j]) == (ApiVersion {
                    api_key: SUPPORTED_API_KEYS@[j].0,
                    min_version: SUPPORTED_API_KEYS@[j].1,
                    max_version: SUPPORTED_API_KEYS@[j].2,
                }),
        decreases 17 - i,
    {
        let (api_key, min_version, max_version) = all[i];
        api_keys.push(ApiVersion { api_key, min_version, max_version });
        i = i + 1;
    }
    ApiVersionsResponse { error_code: error_codes::NONE, api_keys, throttle_time_ms: 0 }
}

/// What a response says of a topic.
fn describe_topic(t: &TopicInfo) -> (r: TopicMetadata)
    ensures
        says_topic(r, t.model()),
{
    let mut partitions: Vec<PartitionMetadata> = Vec::new();
    let ghost ps = t.partitions.model();
    let mut i: usize = 0;
    while i < t.partitions.len()
        invariant
            i <= t.partitions@.len(),
            ps == t.partitions.model(),
            partitions@.len() == i,
            forall|j: int| 0 <= j < i ==> says_partition(#[trigger] partitions@[j], ps[j]),
        decreases t.partitions@.len() - i,
    {
        let p = &t.partitions[i];
        assert(ps[i as int] == p.model());
        partitions.push(
            PartitionMetadata {
                error_code: error_codes::NONE,
                partition_index: p.partition,
                leader_id: p.leader,
                replica_nodes: copy_ints(&p.replicas),
                isr_nodes: copy_ints(&p.isr),
            },
        );
        i = i + 1;
    }
    let error_code = if t.partitions.len() == 0 {
        error_codes::UNKNOWN_TOPIC_OR_PARTITION
    } else {
        error_codes::NONE
    };
    TopicMetadata { error_code, name: t.name.clone(), is_internal: t.is_internal, partitions }
}

impl RequestHandler {
    /// The topics to create before a metadata request is answered.
    pub fn metadata_wants(&self, req: &MetadataRequest) -> (r: Vec<(String, i32)>)
        ensures
            r.model() == if req.allow_auto_topic_creation {
                metadata_wants_of(
                    self@.meta,
                    req.model().topics,
                    default_partitions_of(self.setup().config.num_partitions),
                )
            } else {
                Seq::empty()
            },
    {
        let mut out: Vec<(String, i32)> = Vec::new();
        assert(out.model() =~= Seq::empty());
        if !req.allow_auto_topic_creation {
            return out;
        }
        let n = self.metadata.default_partitions();
        let ghost names = req.topics.model();
        let mut i: usize = 0;
        assert(names.take(0) =~= Seq::empty());
        while i < req.topics.len()
            invariant
                i <= req.topics@.len(),
                names == req.topics.model(),
                out.model() == metadata_wants_of(self@.meta, names.take(i as int), n),
            decreases req.topics@.len() - i,
        {
            proof {
                assert(names.take(i as int + 1).drop_last() =~= names.take(i as int));
                assert(names.take(i as int + 1).last() == names[i as int]);
            }
            let ghost before = out.model();
            if self.metadata.get_topic(req.topics[i].as_str()).is_none() {
                out.push((req.topics[i].clone(), n));
                assert(out.model() =~= before.push((names[i as int], n)));
            }
            i = i + 1;
        }
        assert(names.take(i as int) =~= names);
        out
    }

    /// The topics to create before a produce request is answered.
    pub fn produce_wants(&self, req: &ProduceRequest) -> (r: Vec<(String, i32)>)
        ensures
            r.model() == if acks_known(req.acks) {
                produce_wants_of(
                    self@.meta,
                    req.model().topic_data,
                    default_partitions_of(self.setup().config.num_partitions),
                )
            } else {
                Seq::empty()
            },
    {
        let mut out: Vec<(String, i32)> = Vec::new();
        assert(out.model() =~= Seq::empty());
        if req.acks != 0 && req.acks != 1 && req.acks != -1 {
            return out;
        }
        let n = self.metadata.default_partitions();
        let ghost ts = req.topic_data.model();
        let mut i: usize = 0;
        assert(ts.take(0) =~= Seq::empty());
        while i < req.topic_data.len()
            invariant
                i <= req.topic_data@.len(),
                ts == req.topic_data.model(),
                out.model() == produce_wants_of(self@.meta, ts.take(i as int), n),
            decreases req.topic_data@.len() - i,
        {
            let t = &req.topic_data[i];
            proof {
                assert(ts.take(i as int + 1).drop_last() =~= ts.take(i as int));
                assert(ts.take(i as int + 1).last() == ts[i as int]);
                assert(ts[i as int] == t.model());
            }
            let ghost before = out.model();
            let ghost ps = t.partitions.model();
            let mut j: usize = 0;
            assert(ps.take(0) =~= Seq::empty());
            assert(before + partition_wants_of(self@.meta, t.topic@, ps.take(0), n) =~= before);
            while j < t.partitions.len()
                invariant
                    j <= t.partitions@.len(),
                    ps == t.partitions.model(),
                    out.model() == before + partition_wants_of(
                        self@.meta,
                        t.topic@,
                        ps.take(j as int),
                        n,
                    ),
                decreases t.partitions@.len() - j,
            {
                proof {
                    assert(ps.take(j as int + 1).drop_last() =~= ps.take(j as int));
                    assert(ps.take(j as int + 1).last() == ps[j as int]);
                }
                let ghost o = out.model();
                if !self.metadata.partition_exists(
                    t.topic.as_str(),
                    t.partitions[j].partition_index,
                ) {
                    out.push((t.topic.clone(), n));
                    assert(out.model() =~= o.push((t.topic@, n)));
                    assert(out.model() =~= before + partition_wants_of(
                        self@.meta,
                        t.topic@,
                        ps.take(j as int + 1),
                        n,
                    ));
                }
                j = j + 1;
            }
            assert(ps.take(j as int) =~= ps);
            i = i + 1;
        }
        assert(ts.take(i as int) =~= ts);
        out
    }

    /// The topics that a request asks to create.
    pub fn create_wants(req: &CreateTopicsRequest) -> (r: Vec<(String, i32)>)
        ensures
            r.model() == wants_in(req.model().topics),
    {
        let mut out: Vec<(String, i32)> = Vec::new();
        let ghost all = wants_in(req.topics.model());
        let mut i: usize = 0;
        while i < req.topics.len()
            invariant
                i <= req.topics@.len(),
                all == wants_in(req.topics.model()),
                out.model() =~= all.take(i as int),
            decreases req.topics@.len() - i,
        {
            let ghost before = out.model();
            out.push((req.topics[i].0.clone(), req.topics[i].1));
            assert(req.topics.model()[i as int] == req.topics@[i as int].model());
            assert(out.model() =~= before.push(all[i as int]));
            i = i + 1;
        }
        assert(all.take(i as int) =~= all);
        out
    }

    /// Creates topics. What is returned are the partitions that have to be
    /// opened, each once.
    pub fn create_all(&mut self, wants: &Vec<(String, i32)>) -> (r: Vec<(String, i32)>)
        requires
            old(self).wf(),
        ensures
            final(self).wf(),
            final(self).setup() == old(self).setup(),
            final(self).groups == old(self).groups,
            final(self)@.meta == with_topics(old(self)@.meta, wants.model()),
            r.model().no_duplicates(),
            forall|k: PartitionKey| #[trigger]
                r.model().contains(k) <==> is_wanted(old(self)@.meta, wants.model(), k),
    {
        let mut out: Vec<(String, i32)> = Vec::new();
        let ghost ws = wants.model();
        let ghost m = self@.meta;
        let mut i: usize = 0;
        assert(ws.take(0) =~= Seq::empty());
        while i < wants.len()
            invariant
                i <= wants@.len(),
                ws == wants.model(),
                m == old(self)@.meta,
                self.wf(),
                self.setup() == old(self).setup(),
                self.groups == old(self).groups,
                self@.meta == with_topics(m, ws.take(i as int)),
                out.model().no_duplicates(),
                forall|k: PartitionKey| #[trigger]
                    out.model().contains(k) <==> is_wanted(m, ws.take(i as int), k),
            decreases wants@.len() - i,
        {
            let ghost t = ws.take(i as int);
            let ghost u = ws.take(i as int + 1);
            let ghost had = out.model();
            let topic = wants[i].0.as_str();
            let n = wants[i].1;
            proof {
                assert(u.drop_last() =~= t);
                assert(u.last() == ws[i as int]);
                assert(ws[i as int] == (topic@, n));
                lemma_with_topics_logs(m, t);
                lemma_missing_same_logs(m, self@.meta, topic@, n as int);
                lemma_missing(m, topic@, n as int);
            }
            let lacking = self.metadata.create_topic(topic, n, false);
            let ghost lack = lacking@;
            let mut j: usize = 0;
            assert(lack.take(0) =~= Seq::empty());
            while j < lacking.len()
                invariant
                    j <= lacking@.len(),
                    lack == lacking@,
                    out.model().no_duplicates(),
                    forall|k: PartitionKey| #[trigger]
                        out.model().contains(k) <==> had.contains(k) || (k.0 == topic@
                            && lack.take(j as int).contains(k.1)),
                decreases lacking@.len() - j,
            {
                let ghost o = out.model();
                let ghost p = lack[j as int];
                let ghost key = (topic@, p);
                if !has_partition(&out, topic, lacking[j]) {
                    out.push((topic.to_string(), lacking[j]));
                    assert(out.model() =~= o.push(key));
                }
                proof {
                    let a = lack.take(j as int);
                    let b = lack.take(j as int + 1);
                    assert forall|k: PartitionKey| #[trigger] out.model().contains(k)
                        <==> had.contains(k) || (k.0 == topic@ && b.contains(k.1)) by {
                        lemma_push_contains(o, key, k);
                        assert(b =~= a.push(p));
                        lemma_push_contains(a, p, k.1);
                        assert(k == (k.0, k.1));
                    }
                }
                j = j + 1;
            }
            proof {
                assert(lack.take(j as int) =~= lack);
                assert forall|k: PartitionKey| #[trigger] out.model().contains(k) <==> is_wanted(
                    m,
                    u,
                    k,
                ) by {
                    assert(k == (k.0, k.1));
                    if is_wanted(m, t, k) {
                        let x = choose|x: int|
                            0 <= x < t.len() && (#[trigger] t[x]).0 == k.0 && 0 <= k.1 < t[x].1;
                        assert(u[x] == t[x]);
                    }
                    if k.0 == topic@ && lack.contains(k.1) {
                        assert(u[i as int] == (topic@, n));
                    }
                    if is_wanted(m, u, k) {
                        let x = choose|x: int|
                            0 <= x < u.len() && (#[trigger] u[x]).0 == k.0 && 0 <= k.1 < u[x].1;
                        if x < i {
                            assert(t[x] == u[x]);
                        } else {
                            assert(lack.contains(k.1));
                        }
                    }
                }
            }
            i = i + 1;
        }
        assert(ws.take(i as int) =~= ws);
        out
    }

    /// Says what topics there are.
    pub fn handle_metadata(&self, req: &MetadataRequest) -> (r: MetadataResponse)
        ensures
            metadata_answered(self@.meta, self.setup(), req.model().topics, r),
    {
        let mut topics: Vec<TopicMetadata> = Vec::new();
        if req.topics.len() == 0 {
            let all = self.metadata.topic_list();
            let ghost ts = all.model();
            let mut i: usize = 0;
            while i < all.len()
                invariant
                    i <= all@.len(),
                    ts == all.model(),
                    topics@.len() == i,
                    forall|j: int| 0 <= j < i ==> says_topic(#[trigger] topics@[j], ts[j]),
                decreases all@.len() - i,
            {
                assert(ts[i as int] == all@[i as int].model());
                topics.push(describe_topic(&all[i]));
                i = i + 1;
            }
            assert(says_topics(topics@, ts));
        } else {
            let ghost names = req.topics.model();
            let ghost ts = topics_named(self@.meta, names);
            let mut i: usize = 0;
            while i < req.topics.len()
                invariant
                    i <= req.topics@.len(),
                    names == req.topics.model(),
                    ts == topics_named(self@.meta, names),
                    topics@.len() == i,
                    forall|j: int| 0 <= j < i ==> says_topic(#[trigger] topics@[j], ts[j]),
                decreases req.topics@.len() - i,
            {
                let t = match self.metadata.get_topic(req.topics[i].as_str()) {
                    Some(t) => t,
                    None => {
                        let t = TopicInfo {
                            name: req.topics[i].clone(),
                            is_internal: false,
                            partitions: Vec::new(),
                        };
                        assert(t.partitions.model() =~= Seq::empty());
                        t
                    },
                };
                assert(t.model() == ts[i as int]);
                topics.push(describe_topic(&t));
                i = i + 1;
            }
            assert(says_topics(topics@, ts));
        }
        let mut brokers: Vec<BrokerMetadata> = Vec::new();
        brokers.push(
            BrokerMetadata {
                node_id: self.broker_id,
                host: self.broker_host.clone(),
                port: self.broker_port,
            },
        );
        MetadataResponse {
            brokers,
            cluster_id: Some("rivine-cluster".to_string()),
            controller_id: self.broker_id,
            topics,
        }
    }

    /// Answers for topics that were to be created, once their partitions have
    /// been opened.
    pub fn handle_create_topics(&self, req: &CreateTopicsRequest, version: i16, e: &mut Encoder)
        ensures
            final(e)@ == old(e)@ + enc_i32(req.topics@.len() as i32) + enc_all_created(
                self@.meta,
                wants_in(req.model().topics),
                version,
            ) + only_if(version >= 2, enc_i32(0)),
    {
        e.put_i32(req.topics.len() as i32);
        let ghost start = e@;
        let ghost all = wants_in(req.topics.model());
        let mut i: usize = 0;
        assert(all.take(0) =~= Seq::empty());
        assert(start + enc_all_created(self@.meta, all.take(0), version) =~= start);
        while i < req.topics.len()
            invariant
                i <= req.topics@.len(),
                all == wants_in(req.topics.model()),
                e@ == start + enc_all_created(self@.meta, all.take(i as int), version),
            decreases req.topics@.len() - i,
        {
            let name = req.topics[i].0.as_str();
            let n = req.topics[i].1;
            proof {
                assert(all.take(i as int + 1).drop_last() =~= all.take(i as int));
                assert(all.take(i as int + 1).last() == all[i as int]);
                assert(req.topics.model()[i as int] == req.topics@[i as int].model());
                assert(all[i as int] == (name@, n));
            }
            self.put_created(name, n, version, e);
            assert(e@ =~= start + enc_all_created(self@.meta, all.take(i as int + 1), version));
            i = i + 1;
        }
        assert(all.take(i as int) =~= all);
        if version >= 2 {
            e.put_i32(0);
        }
        assert(e@ =~= old(e)@ + enc_i32(req.topics@.len() as i32) + enc_all_created(
            self@.meta,
            all,
            version,
        ) + only_if(version >= 2, enc_i32(0)));
    }

    /// Answers for a topic that was to be created.
    fn put_created(&self, name: &str, n: i32, version: i16, e: &mut Encoder)
        ensures
            final(e)@ == old(e)@ + enc_created(self@.meta, name@, n, version),
    {
        let err = if self.has_all(name, n) {
            error_codes::NONE
        } else {
            error_codes::UNKNOWN_SERVER_ERROR
        };
        e.put_string(name);
        e.put_i16(err);
        if version >= 1 {
            e.put_i16(-1);
        }
        if version >= 2 {
            e.put_i32(n);
            e.put_i16(1);
        }
        if version >= 5 {
            e.put_i32(0);
        }
        assert(e@ =~= old(e)@ + enc_created(self@.meta, name@, n, version));
    }

    /// Whether all partitions of a topic below a number have a log.
    fn has_all(&self, topic: &str, n: i32) -> (r: bool)
        ensures
            r == (missing(self@.meta, topic@, n as int).len() == 0),
    {
        proof {
            lemma_missing(self@.meta, topic@, n as int);
        }
        let mut p: i32 = 0;
        while p < n
            invariant
                0 <= p,
                forall|q: i32| 0 <= q < p ==> self@.meta.logs.contains_key((topic@, q)),
                forall|q: i32| #[trigger]
                    missing(self@.meta, topic@, n as int).contains(q) <==> 0 <= q < n
                        && !self@.meta.logs.contains_key((topic@, q)),
            decreases n - p,
        {
            if !self.metadata.partition_exists(topic, p) {
                assert(missing(self@.meta, topic@, n as int).contains(p));
                return false;
            }
            p = p + 1;
        }
        proof {
            let s = missing(self@.meta, topic@, n as int);
            if s.len() > 0 {
                assert(s.contains(s[0]));
            }
        }
        true
    }

    /// Deletes topics. What is added to `gone` are the partitions whose
    /// directories are to be deleted.
    pub fn handle_delete_topics(
        &mut self,
        req: &DeleteTopicsRequest,
        version: i16,
        e: &mut Encoder,
        gone: &mut Vec<(String, i32)>,
    )
        requires
            old(self).wf(),
        ensures
            final(self).wf(),
            final(self).setup() == old(self).setup(),
            final(self).groups == old(self).groups,
            final(self)@.meta == without_topics(old(self)@.meta, req.model().topic_names),
            forall|k: PartitionKey| #[trigger]
                final(gone).model().contains(k) <==> old(gone).model().contains(k) || (
                old(self)@.meta.logs.contains_key(k) && !final(self)@.meta.logs.contains_key(k)),
            final(e)@ == old(e)@ + enc_i32(req.topic_names@.len() as i32) + enc_all_deleted(
                req.model().topic_names,
            ) + only_if(version >= 1, enc_i32(0)),
    {
        e.put_i32(req.topic_names.len() as i32);
        let ghost start = e@;
        let ghost names = req.topic_names.model();
        let ghost m = self@.meta;
        let ghost had = gone.model();
        let mut i: usize = 0;
        assert(names.take(0) =~= Seq::empty());
        assert(start + enc_all_deleted(names.take(0)) =~= start);
        while i < req.topic_names.len()
            invariant
                i <= req.topic_names@.len(),
                names == req.topic_names.model(),
                m == old(self)@.meta,
                had == old(gone).model(),
                self.wf(),
                self.setup() == old(self).setup(),
                self.groups == old(self).groups,
                self@.meta == without_topics(m, names.take(i as int)),
                forall|k: PartitionKey| #[trigger]
                    self@.meta.logs.contains_key(k) ==> m.logs.contains_key(k),
                forall|k: PartitionKey| #[trigger]
                    gone.model().contains(k) <==> had.contains(k) || (m.logs.contains_key(k)
                        && !self@.meta.logs.contains_key(k)),
                e@ == start + enc_all_deleted(names.take(i as int)),
            decreases req.topic_names@.len() - i,
        {
            let name = req.topic_names[i].as_str();
            let ghost before = self@.meta;
            let ghost g = gone.model();
            proof {
                assert(names.take(i as int + 1).drop_last() =~= names.take(i as int));
                assert(names.take(i as int + 1).last() == names[i as int]);
            }
            let ps = self.metadata.delete_topic(name);
            let ghost qs = ps@;
            let mut j: usize = 0;
            assert(qs.take(0) =~= Seq::empty());
            while j < ps.len()
                invariant
                    j <= ps@.len(),
                    qs == ps@,
                    forall|k: PartitionKey| #[trigger]
                        gone.model().contains(k) <==> g.contains(k) || (k.0 == name@ && qs.take(
                            j as int,
                        ).contains(k.1)),
                decreases ps@.len() - j,
            {
                let ghost o = gone.model();
                let ghost p = qs[j as int];
                gone.push((name.to_string(), ps[j]));
                proof {
                    let a = qs.take(j as int);
                    let b = qs.take(j as int + 1);
                    assert(gone.model() =~= o.push((name@, p)));
                    assert(b =~= a.push(p));
                    assert forall|k: PartitionKey| #[trigger] gone.model().contains(k)
                        <==> g.contains(k) || (k.0 == name@ && b.contains(k.1)) by {
                        lemma_push_contains(o, (name@, p), k);
                        lemma_push_contains(a, p, k.1);
                        assert(k == (k.0, k.1));
                    }
                }
                j = j + 1;
            }
            proof {
                assert(qs.take(j as int) =~= qs);
                assert forall|k: PartitionKey| #[trigger] gone.model().contains(k)
                    <==> had.contains(k) || (m.logs.contains_key(k)
                    && !self@.meta.logs.contains_key(k)) by {
                    assert(k == (k.0, k.1));
                    assert(g.contains(k) <==> had.contains(k) || (m.logs.contains_key(k)
                        && !before.logs.contains_key(k)));
                    if k.0 == name@ {
                        assert(qs.contains(k.1) <==> before.logs.contains_key((name@, k.1)));
                    }
                }
            }
            e.put_string(name);
            e.put_i16(error_codes::NONE);
            assert(e@ =~= start + enc_all_deleted(names.take(i as int + 1)));
            i = i + 1;
        }
        assert(names.take(i as int) =~= names);
        if version >= 1 {
            e.put_i32(0);
        }
        assert(e@ =~= old(e)@ + enc_i32(req.topic_names@.len() as i32) + enc_all_deleted(names)
            + only_if(version >= 1, enc_i32(0)));
    }

    /// Says where partitions begin and end.
    pub fn handle_list_offsets(&self, req: &ListOffsetsRequest, version: i16, e: &mut Encoder)
        ensures
            final(e)@ == old(e)@ + only_if(version >= 2, enc_i32(0)) + enc_i32(
                req.topics@.len() as i32,
            ) + enc_all_bounds(self@.meta, req.model().topics, version),
    {
        if version >= 2 {
            e.put_i32(0);
        }
        e.put_i32(req.topics.len() as i32);
        let ghost start = e@;
        let ghost ts = req.topics.model();
        let ghost m = self@.meta;
        let mut i: usize = 0;
        assert(ts.take(0) =~= Seq::empty());
        assert(start + enc_all_bounds(m, ts.take(0), version) =~= start);
        while i < req.topics.len()
            invariant
                i <= req.topics@.len(),
                ts == req.topics.model(),
                m == self@.meta,
                e@ == start + enc_all_bounds(m, ts.take(i as int), version),
            decreases req.topics@.len() - i,
        {
            let topic = req.topics[i].0.as_str();
            let parts = &req.topics[i].1;
            let ghost qs = parts.model();
            proof {
                assert(ts.take(i as int + 1).drop_last() =~= ts.take(i as int));
                assert(ts.take(i as int + 1).last() == ts[i as int]);
                assert(ts[i as int] == (topic@, qs));
            }
            e.put_string(topic);
            e.put_i32(parts.len() as i32);
            self.put_topic_bounds(topic, parts, version, e);
            assert(e@ =~= start + enc_all_bounds(m, ts.take(i as int + 1), version));
            i = i + 1;
        }
        assert(ts.take(i as int) =~= ts);
        assert(e@ =~= old(e)@ + only_if(version >= 2, enc_i32(0)) + enc_i32(
            req.topics@.len() as i32,
        ) + enc_all_bounds(m, ts, version));
    }

    fn put_topic_bounds(
        &self,
        topic: &str,
        parts: &Vec<BoundsQuery>,
        version: i16,
        e: &mut Encoder,
    )
        ensures
            final(e)@ == old(e)@ + enc_topic_bounds(self@.meta, topic@, parts.model(), version),
    {
        let ghost start = e@;
        let ghost m = self@.meta;
        let ghost qs = parts.model();
        let mut j: usize = 0;
        assert(qs.take(0) =~= Seq::empty());
        assert(start + enc_topic_bounds(m, topic@, qs.take(0), version) =~= start);
        while j < parts.len()
            invariant
                j <= parts@.len(),
                qs == parts.model(),
                m == self@.meta,
                e@ == start + enc_topic_bounds(m, topic@, qs.take(j as int), version),
            decreases parts@.len() - j,
        {
            proof {
                assert(qs.take(j as int + 1).drop_last() =~= qs.take(j as int));
                assert(qs.take(j as int + 1).last() == qs[j as int]);
                assert(qs[j as int] == parts@[j as int]);
            }
            self.put_bounds(topic, &parts[j], version, e);
            assert(e@ =~= start + enc_topic_bounds(m, topic@, qs.take(j as int + 1), version));
            j = j + 1;
        }
        assert(qs.take(j as int) =~= qs);
    }

    fn put_bounds(&self, topic: &str, q: &BoundsQuery, version: i16, e: &mut Encoder)
        ensures
            final(e)@ == old(e)@ + enc_bounds(self@.meta, topic@, *q, version),
    {
        let leo = self.metadata.partition_leo_sync(topic, q.0);
        let start = self.metadata.partition_log_start_sync(topic, q.0);
        e.put_i32(q.0);
        match (leo, start) {
            (Some(leo), Some(log_start)) => {
                e.put_i16(error_codes::NONE);
                if version >= 1 {
                    if q.2 == -2 {
                        e.put_i64(-1);
                        e.put_i64(log_start);
                    } else {
                        e.put_i64(q.2);
                        e.put_i64(leo);
                    }
                } else {
                    let offsets = if q.2 == -2 {
                        let mut v: Vec<i32> = Vec::new();
                        v.push(log_start as i32);
                        assert(v@ =~= seq![log_start as i32]);
                        v
                    } else {
                        offsets_back(leo, log_start, if q.3 > 1 { q.3 } else { 1 })
                    };
                    e.put_i32(offsets.len() as i32);
                    put_offsets(e, &offsets);
                }
            },
            _ => {
                e.put_i16(error_codes::UNKNOWN_TOPIC_OR_PARTITION);
                if version >= 1 {
                    e.put_i64(-1);
                    e.put_i64(-1);
                } else {
                    e.put_i32(0);
                }
            },
        }
        assert(e@ =~= old(e)@ + enc_bounds(self@.meta, topic@, *q, version));
    }

    /// Gives an idempotent producer an id.
    pub fn handle_init_producer_id(&self, ids: &mut ProducerIds, e: &mut Encoder)
        ensures
            final(ids).next == old(ids).next.wrapping_add(1),
            final(e)@ == old(e)@ + enc_producer_id(old(ids).next),
    {
        let id = ids.draw();
        e.put_i32(0);
        e.put_i16(error_codes::NONE);
        e.put_i64(id);
        e.put_i16(0);
        assert(e@ =~= old(e)@ + enc_producer_id(id));
    }

    /// Says that this broker coordinates every group.
    pub fn handle_find_coordinator(&self) -> (r: FindCoordinatorResponse)
        ensures
            says_coordinator(r, self.setup()),
    {
        FindCoordinatorResponse {
            throttle_time_ms: 0,
            error_code: error_codes::NONE,
            error_message: None,
            node_id: self.broker_id,
            host: self.broker_host.clone(),
            port: self.broker_port,
        }
    }
}

proof fn lemma_push_contains<A>(s: Seq<A>, x: A, y: A)
    ensures
        s.push(x).contains(y) <==> s.contains(y) || y == x,
{
    if s.contains(y) {
        let k = choose|k: int| 0 <= k < s.len() && s[k] == y;
        assert(s.push(x)[k] == y);
    }
    if y == x {
        assert(s.push(x)[s.len() as int] == y);
    }
    if s.push(x).contains(y) && y != x {
        let k = choose|k: int| 0 <= k < s.push(x).len() && s.push(x)[k] == y;
        assert(s[k] == y);
    }
}

/// The last `n` offsets of a log, latest first.
fn offsets_back(leo: i64, log_start: i64, n: i32) -> (r: Vec<i32>)
    requires
        n >= 1,
    ensures
        r@ == latest_offsets(leo, log_start, n as int),
{
    let mut out: Vec<i32> = Vec::new();
    let mut i: i32 = 0;
    let ghost all = latest_offsets(leo, log_start, n as int);
    while i < n && (leo as i128 - log_start as i128) > i as i128
        invariant
            0 <= i <= n,
            n >= 1,
            i <= leo - log_start || i == 0,
            all == latest_offsets(leo, log_start, n as int),
            out@.len() == i,
            forall|j: int| 0 <= j < i ==> #[trigger] out@[j] == ((leo - 1 - j) as i64) as i32,
        decreases n - i,
    {
        let o: i64 = (leo as i128 - 1 - i as i128) as i64;
        out.push(o as i32);
        i = i + 1;
    }
    assert(out@ =~= all);
    out
}

fn put_offsets(e: &mut Encoder, os: &Vec<i32>)
    ensures
        final(e)@ == old(e)@ + enc_offsets(os@),
{
    let mut i: usize = 0;
    assert(old(e)@ + enc_offsets(os@.take(0)) =~= old(e)@);
    while i < os.len()
        invariant
            i <= os@.len(),
            e@ == old(e)@ + enc_offsets(os@.take(i as int)),
        decreases os@.len() - i,
    {
        e.put_i32(os[i]);
        proof {
            let t = os@.take(i + 1);
            assert(t.drop_last() =~= os@.take(i as int));
            assert(e@ =~= old(e)@ + enc_offsets(t));
        }
        i = i + 1;
    }
    assert(os@.take(i as int) =~= os@);
}

} // verus!
