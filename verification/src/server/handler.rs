//! What is done with a request, whatever kind it is of.
//!
//! A request is served in steps. [`RequestHandler::wants`] names the topics to
//! create first, [`RequestHandler::create_all`] creates them, and whoever holds
//! the files opens the partitions that it gives. For a fetch the ends of the
//! logs are then read from the positions on that
//! [`RequestHandler::fetch_positions`] gives. [`RequestHandler::dispatch`] does the
//! rest.

use bytes::Bytes;
use vstd::prelude::*;

use crate::buf::bytes_view;
use crate::group::coordinator::{
    after_leave, after_sync, answer_to_join, commit_refusal_of, groups_after_join, heartbeat_says,
    member_at, member_refusal, GroupModel,
};
use crate::group::offset_store::{OffsetKey, OffsetModel, OffsetValue};
use crate::protocol::apikey;
use crate::protocol::codec::only_if;
use crate::protocol::error_codes;
use crate::protocol::header::{RequestHeader, RequestHeaderModel};
use crate::protocol::messages::api_versions::ApiVersionsResponse;
use crate::protocol::messages::fetch::{FetchRequest, FetchRequestModel, FetchResponse};
use crate::protocol::messages::groups::{
    DescribeGroupsRequest, DescribeGroupsResponse, FindCoordinatorResponse, HeartbeatRequest,
    HeartbeatRequestModel, JoinGroupRequest, JoinGroupRequestModel, JoinGroupResponse,
    LeaveGroupRequestModel, ListGroupsRequest, ListGroupsResponse, SyncGroupRequest,
    SyncGroupRequestModel, SyncGroupResponse,
};
use crate::protocol::messages::metadata::{MetadataRequest, MetadataResponse};
use crate::protocol::messages::offsets::{
    OffsetFetchRequest, OffsetFetchRequestModel, OffsetFetchResponse,
};
use crate::protocol::messages::produce::ProduceResponse;
use crate::protocol::primitive::{Encoder, Modeled};
use crate::protocol::wire::{enc_i16, enc_i32, lemma_be_len, unsigned32};
use crate::server::groups::{
    after_commits, all_offset_answers, enc_commit_response, enc_outcome, groups_listed, join_asked,
    says_groups, says_joined, CommitState,
};
use crate::server::metadata::{default_partitions_of, MetaView, PartitionKey};
use crate::server::records::{
    acks_known, after_topics, fetch_answered, fetch_due, fetch_is_due, read_topics,
    topics_answered, topics_read, ProduceState, ReadTopic, ReadTopicModel,
};
use crate::server::request::{read_request, request_of, Request, RequestModel};
use crate::server::state::{
    HandlerView, PartitionWrite, PartitionWriteModel, ProducerIds, RequestHandler, Setup,
};
use crate::server::topics::{
    enc_all_bounds, enc_all_created, enc_all_deleted, enc_producer_id, handle_api_versions,
    metadata_answered, metadata_wants_of, produce_wants_of, says_coordinator, says_versions,
    wants_in, without_topics, Want,
};

verus! {

/// What becomes of a request.
#[derive(Debug)]
pub enum Reply {
    /// It is answered with these bytes.
    Body(Bytes),
    /// It gets no answer.
    Silence,
    /// It is a fetch that has to wait for more records.
    Later,
}

/// The mathematical value of a [`Reply`].
pub enum ReplyModel {
    Body(Seq<u8>),
    Silence,
    Later,
}

impl Modeled for Reply {
    type M = ReplyModel;

    open spec fn model(&self) -> ReplyModel {
        match *self {
            Reply::Body(b) => ReplyModel::Body(bytes_view(b)),
            Reply::Silence => ReplyModel::Silence,
            Reply::Later => ReplyModel::Later,
        }
    }
}

/// When a request is served, what the logs hold for it, and how the broker is
/// set up.
pub struct Context {
    pub setup: Setup,
    /// The commits in the order in which they are kept.
    pub commits: Seq<OffsetModel>,
    pub tails: Seq<Seq<Seq<u8>>>,
    /// What was read of the records that a produce request brings.
    pub read: Seq<ReadTopicModel>,
    /// The milliseconds since the epoch.
    pub now: i64,
    /// The nanoseconds since the coordinator of groups was made.
    pub elapsed: u128,
    /// Whether a fetch has waited as long as it may.
    pub time_is_up: bool,
}

/// The state around a request: what the broker knows, which id a producer gets
/// next, what is to be written, and which partitions are to be deleted.
pub struct State {
    pub view: HandlerView,
    /// The id that the next idempotent producer gets.
    pub next_producer_id: i64,
    pub writes: Seq<PartitionWriteModel>,
    pub gone: Seq<PartitionKey>,
}

/// Whether that is what was read of the records that a request brings. One that
/// is not to produce brings none.
pub open spec fn brings(req: RequestModel, read: Seq<ReadTopicModel>) -> bool {
    match req {
        RequestModel::Produce(r) => topics_read(r.topic_data, read),
        _ => true,
    }
}

/// The topics to create before a request is answered.
pub open spec fn wants_of(m: MetaView, setup: Setup, req: RequestModel) -> Seq<Want> {
    let n = default_partitions_of(setup.config.num_partitions);
    match req {
        RequestModel::Metadata(r) => if r.allow_auto_topic_creation {
            metadata_wants_of(m, r.topics, n)
        } else {
            Seq::empty()
        },
        RequestModel::Produce(r) => if acks_known(r.acks) {
            produce_wants_of(m, r.topic_data, n)
        } else {
            Seq::empty()
        },
        RequestModel::CreateTopics(r) => wants_in(r.topics),
        _ => Seq::empty(),
    }
}

// ---------------------------------------------------------------------------
// Each kind of request

/// An answer: the number by which the client finds its request again, and what
/// there is to say.
pub open spec fn answer_with(id: i32, body: Seq<u8>) -> ReplyModel {
    ReplyModel::Body(enc_i32(id) + body)
}

/// A request for the versions that the broker supports.
pub open spec fn versions_served(version: i16, id: i32, reply: ReplyModel) -> bool {
    exists|resp: ApiVersionsResponse|
        says_versions(resp) && reply == answer_with(id, #[trigger] resp.encoded(version))
}

/// A request for the topics.
pub open spec fn metadata_served(
    m: MetaView,
    setup: Setup,
    names: Seq<Seq<char>>,
    version: i16,
    id: i32,
    reply: ReplyModel,
) -> bool {
    exists|resp: MetadataResponse|
        metadata_answered(m, setup, names, resp) && reply == answer_with(
            id,
            #[trigger] resp.encoded(version),
        )
}

/// A produce request. One that asks for no acknowledgement gets no answer.
pub open spec fn produce_served(
    st: ProduceState,
    acks: i16,
    read: Seq<ReadTopicModel>,
    now: i64,
    version: i16,
    id: i32,
    reply: ReplyModel,
) -> bool {
    if acks == 0 {
        reply == ReplyModel::Silence
    } else {
        exists|resp: ProduceResponse|
            {
                &&& resp.throttle_time_ms == 0
                &&& topics_answered(st, acks, read, now, resp.topics@)
                &&& reply == answer_with(id, #[trigger] resp.encoded(version))
            }
    }
}

/// A fetch. One that does not get enough bytes waits, unless its time is up.
pub open spec fn fetch_served(
    m: MetaView,
    r: FetchRequestModel,
    tails: Seq<Seq<Seq<u8>>>,
    time_is_up: bool,
    version: i16,
    id: i32,
    reply: ReplyModel,
) -> bool {
    exists|resp: FetchResponse|
        {
            &&& #[trigger] fetch_answered(m, r.topics, tails, resp)
            &&& reply == if fetch_is_due(r.min_bytes, resp.topics@, time_is_up) {
                answer_with(id, resp.encoded(version))
            } else {
                ReplyModel::Later
            }
        }
}

/// A request for the coordinator of a group.
pub open spec fn coordinator_served(
    setup: Setup,
    version: i16,
    id: i32,
    reply: ReplyModel,
) -> bool {
    exists|resp: FindCoordinatorResponse|
        says_coordinator(resp, setup) && reply == answer_with(id, #[trigger] resp.encoded(version))
}

/// A request to join a group.
pub open spec fn join_served(
    groups: Map<Seq<char>, GroupModel>,
    r: JoinGroupRequestModel,
    elapsed: u128,
    version: i16,
    id: i32,
    reply: ReplyModel,
) -> bool {
    exists|resp: JoinGroupResponse|
        {
            &&& says_joined(resp, r.protocol_type, answer_to_join(groups, join_asked(r), elapsed))
            &&& reply == answer_with(id, #[trigger] resp.encoded(version))
        }
}

/// The groups after a request for an assignment.
pub open spec fn groups_after_sync(
    groups: Map<Seq<char>, GroupModel>,
    r: SyncGroupRequestModel,
) -> Map<Seq<char>, GroupModel> {
    let g = groups.get(r.group_id);
    if member_refusal(g, r.generation_id, r.member_id) is Some {
        groups
    } else {
        groups.insert(r.group_id, after_sync(g->Some_0, r.member_id, r.assignments))
    }
}

/// A request for an assignment.
pub open spec fn sync_served(
    groups: Map<Seq<char>, GroupModel>,
    r: SyncGroupRequestModel,
    version: i16,
    id: i32,
    reply: ReplyModel,
) -> bool {
    let g = groups.get(r.group_id);
    exists|resp: SyncGroupResponse|
        {
            &&& resp.throttle_time_ms == 0
            &&& match member_refusal(g, r.generation_id, r.member_id) {
                Some(code) => resp.error_code == code && bytes_view(resp.assignment).len() == 0,
                None => {
                    let ms = after_sync(g->Some_0, r.member_id, r.assignments).members;
                    &&& resp.error_code == error_codes::NONE
                    &&& bytes_view(resp.assignment) == ms[member_at(ms, r.member_id)].assignment
                },
            }
            &&& reply == answer_with(id, #[trigger] resp.encoded(version))
        }
}

/// A sign of life.
pub open spec fn heartbeat_served(
    before: Map<Seq<char>, GroupModel>,
    r: HeartbeatRequestModel,
    elapsed: u128,
    after: Map<Seq<char>, GroupModel>,
    version: i16,
    id: i32,
    reply: ReplyModel,
) -> bool {
    exists|code: i16|
        {
            &&& #[trigger] heartbeat_says(
                before,
                r.group_id,
                r.generation_id,
                r.member_id,
                elapsed,
                after,
                code,
            )
            &&& reply == answer_with(id, enc_outcome(version, code))
        }
}

/// The groups after a request to leave one.
pub open spec fn groups_after_leave(
    groups: Map<Seq<char>, GroupModel>,
    r: LeaveGroupRequestModel,
) -> Map<Seq<char>, GroupModel> {
    match groups.get(r.group_id) {
        None => groups,
        Some(g) => groups.insert(r.group_id, after_leave(g, r.member_id)),
    }
}

/// A request for committed offsets.
pub open spec fn offsets_served(
    offsets: Map<OffsetKey, OffsetValue>,
    r: OffsetFetchRequestModel,
    version: i16,
    id: i32,
    reply: ReplyModel,
) -> bool {
    exists|resp: OffsetFetchResponse|
        {
            &&& resp.throttle_time_ms == 0
            &&& resp.error_code == error_codes::NONE
            &&& resp.topics.model() == all_offset_answers(offsets, r.group_id, r.topics)
            &&& reply == answer_with(id, #[trigger] resp.encoded(version))
        }
}

/// A request for a list of the groups.
pub open spec fn list_served(
    groups: Map<Seq<char>, GroupModel>,
    commits: Seq<OffsetModel>,
    states: Seq<Seq<char>>,
    version: i16,
    id: i32,
    reply: ReplyModel,
) -> bool {
    exists|resp: ListGroupsResponse|
        {
            &&& resp.throttle_time_ms == 0
            &&& resp.error_code == error_codes::NONE
            &&& groups_listed(resp.groups.model(), groups, commits, states)
            &&& reply == answer_with(id, #[trigger] resp.encoded(version))
        }
}

/// A request for what groups are.
pub open spec fn describe_served(
    groups: Map<Seq<char>, GroupModel>,
    ids: Seq<Seq<char>>,
    version: i16,
    id: i32,
    reply: ReplyModel,
) -> bool {
    exists|resp: DescribeGroupsResponse|
        {
            &&& resp.throttle_time_ms == 0
            &&& says_groups(resp.groups@, groups, ids)
            &&& reply == answer_with(id, #[trigger] resp.encoded(version))
        }
}

/// Whether partitions are those from before and those whose logs went away.
pub open spec fn gone_after(a: State, b: State) -> bool {
    forall|k: PartitionKey| #[trigger]
        b.gone.contains(k) <==> a.gone.contains(k) || (a.view.meta.logs.contains_key(k)
            && !b.view.meta.logs.contains_key(k))
}

/// The state after a request that changed nothing but the groups.
pub open spec fn with_groups(a: State, groups: Map<Seq<char>, GroupModel>) -> State {
    State { view: HandlerView { groups, ..a.view }, ..a }
}

/// What a commit works on.
pub open spec fn commit_state(a: State) -> CommitState {
    CommitState { meta: a.view.meta, offsets: a.view.offsets, writes: a.writes }
}

/// The state after offsets were committed.
pub open spec fn with_commits(a: State, st: CommitState) -> State {
    State {
        view: HandlerView { meta: st.meta, offsets: st.offsets, ..a.view },
        writes: st.writes,
        ..a
    }
}

/// What a produce request works on.
pub open spec fn produce_state(a: State) -> ProduceState {
    ProduceState { meta: a.view.meta, writes: a.writes }
}

/// The state after records were appended.
pub open spec fn with_records(a: State, st: ProduceState) -> State {
    State { view: HandlerView { meta: st.meta, ..a.view }, writes: st.writes, ..a }
}

/// Whether a request is served right: what the state is afterwards, and what
/// becomes of the request.
pub open spec fn served(
    h: RequestHeaderModel,
    req: RequestModel,
    cx: Context,
    a: State,
    b: State,
    reply: ReplyModel,
) -> bool {
    let v = h.api_version;
    let id = h.correlation_id;
    match req {
        RequestModel::ApiVersions => b == a && versions_served(v, id, reply),
        RequestModel::Metadata(r) => b == a && metadata_served(
            a.view.meta,
            cx.setup,
            r.topics,
            v,
            id,
            reply,
        ),
        RequestModel::Produce(r) => {
            let st = produce_state(a);
            &&& b == with_records(a, after_topics(st, r.acks, cx.read, cx.now))
            &&& produce_served(st, r.acks, cx.read, cx.now, v, id, reply)
        },
        RequestModel::Fetch(r) => b == a && fetch_served(
            a.view.meta,
            r,
            cx.tails,
            cx.time_is_up,
            v,
            id,
            reply,
        ),
        RequestModel::ListOffsets(r) => b == a && reply == answer_with(
            id,
            only_if(v >= 2, enc_i32(0)) + enc_i32(r.topics.len() as i32) + enc_all_bounds(
                a.view.meta,
                r.topics,
                v,
            ),
        ),
        RequestModel::CreateTopics(r) => b == a && reply == answer_with(
            id,
            enc_i32(r.topics.len() as i32) + enc_all_created(a.view.meta, wants_in(r.topics), v)
                + only_if(v >= 2, enc_i32(0)),
        ),
        RequestModel::DeleteTopics(r) => {
            &&& b.view == (HandlerView {
                meta: without_topics(a.view.meta, r.topic_names),
                ..a.view
            })
            &&& b.next_producer_id == a.next_producer_id
            &&& b.writes == a.writes
            &&& gone_after(a, b)
            &&& reply == answer_with(
                id,
                enc_i32(r.topic_names.len() as i32) + enc_all_deleted(r.topic_names) + only_if(
                    v >= 1,
                    enc_i32(0),
                ),
            )
        },
        RequestModel::InitProducerId => {
            let next = a.next_producer_id;
            &&& b == (State { next_producer_id: next.wrapping_add(1), ..a })
            &&& reply == answer_with(id, enc_producer_id(next))
        },
        RequestModel::FindCoordinator(_) => b == a && coordinator_served(cx.setup, v, id, reply),
        RequestModel::JoinGroup(r) => {
            let groups = a.view.groups;
            &&& b == with_groups(a, groups_after_join(groups, join_asked(r), cx.elapsed))
            &&& join_served(groups, r, cx.elapsed, v, id, reply)
        },
        RequestModel::SyncGroup(r) => {
            let groups = a.view.groups;
            &&& b == with_groups(a, groups_after_sync(groups, r))
            &&& sync_served(groups, r, v, id, reply)
        },
        RequestModel::Heartbeat(r) => {
            &&& b == with_groups(a, b.view.groups)
            &&& heartbeat_served(a.view.groups, r, cx.elapsed, b.view.groups, v, id, reply)
        },
        RequestModel::LeaveGroup(r) => {
            let groups = a.view.groups;
            let code = if groups.contains_key(r.group_id) {
                error_codes::NONE
            } else {
                error_codes::NOT_COORDINATOR
            };
            &&& b == with_groups(a, groups_after_leave(groups, r))
            &&& reply == answer_with(id, enc_outcome(v, code))
        },
        RequestModel::OffsetCommit(r) => {
            let g = a.view.groups.get(r.group_id);
            match commit_refusal_of(g, r.generation_id, r.member_id) {
                Some(code) => b == a && reply == answer_with(
                    id,
                    enc_commit_response(r.topics, v, code),
                ),
                None => {
                    let n = cx.setup.offsets_partitions;
                    let st = after_commits(commit_state(a), r.group_id, r.topics, n, cx.now);
                    &&& b == with_commits(a, st)
                    &&& reply == answer_with(
                        id,
                        enc_commit_response(r.topics, v, error_codes::NONE),
                    )
                },
            }
        },
        RequestModel::OffsetFetch(r) => b == a && offsets_served(a.view.offsets, r, v, id, reply),
        RequestModel::ListGroups(states) => b == a && list_served(
            a.view.groups,
            cx.commits,
            states,
            v,
            id,
            reply,
        ),
        RequestModel::DescribeGroups(ids) => b == a && describe_served(
            a.view.groups,
            ids,
            v,
            id,
            reply,
        ),
        RequestModel::Unsupported => b == a && reply == answer_with(
            id,
            enc_i16(error_codes::UNSUPPORTED_VERSION),
        ),
        RequestModel::Malformed => b == a && reply == if h.api_key == apikey::PRODUCE {
            ReplyModel::Silence
        } else {
            answer_with(id, Seq::empty())
        },
    }
}

/// Whether a request is served right, whatever was read of the records that it
/// brings.
#[verifier::opaque]
pub open spec fn read_and_served(
    h: RequestHeaderModel,
    req: RequestModel,
    cx: Context,
    a: State,
    b: State,
    reply: ReplyModel,
) -> bool {
    exists|read: Seq<ReadTopicModel>| #[trigger]
        brings(req, read) && served(h, req, Context { read, ..cx }, a, b, reply)
}

/// An answer starts with the number by which the client finds its request again.
pub proof fn law_answer_starts_with_id(
    h: RequestHeaderModel,
    req: RequestModel,
    cx: Context,
    a: State,
    b: State,
    reply: ReplyModel,
)
    requires
        read_and_served(h, req, cx, a, b, reply),
    ensures
        reply matches ReplyModel::Body(s) ==> s.len() >= 4 && s.take(4) == enc_i32(
            h.correlation_id,
        ),
{
    reveal(read_and_served);
    let id = h.correlation_id;
    lemma_be_len(unsigned32(id), 4);
    if reply is Body {
        let s = reply->Body_0;
        assert(exists|body: Seq<u8>| s == #[trigger] (enc_i32(id) + body));
        assert(s.take(4) =~= enc_i32(id));
    }
}

/// Two producers that ask one after the other get different ids, the second the
/// next one, even if they ask different handlers that draw on the same ids.
pub proof fn law_producer_ids_differ(
    h: RequestHeaderModel,
    cx: Context,
    a: State,
    b: State,
    first: ReplyModel,
    h2: RequestHeaderModel,
    cx2: Context,
    a2: State,
    b2: State,
    second: ReplyModel,
)
    requires
        read_and_served(h, RequestModel::InitProducerId, cx, a, b, first),
        a2.next_producer_id == b.next_producer_id,
        read_and_served(h2, RequestModel::InitProducerId, cx2, a2, b2, second),
    ensures
        exists|id: i64|
            {
                &&& first == answer_with(h.correlation_id, #[trigger] enc_producer_id(id))
                &&& second == answer_with(
                    h2.correlation_id,
                    enc_producer_id(id.wrapping_add(1)),
                )
                &&& id != id.wrapping_add(1)
            },
{
    reveal(read_and_served);
    let id = a.next_producer_id;
    assert(first == answer_with(h.correlation_id, enc_producer_id(id)));
}

// ---------------------------------------------------------------------------

/// An encoder that holds the start of an answer.
fn begin(header: &RequestHeader) -> (e: Encoder)
    ensures
        e@ == enc_i32(header.correlation_id),
{
    let mut e = Encoder::new();
    e.put_i32(header.correlation_id);
    assert(e@ =~= enc_i32(header.correlation_id));
    e
}

/// The answer to a produce request. One that asks for no acknowledgement gets
/// none.
pub fn answer_produce(h: &RequestHeader, acks: i16, resp: &ProduceResponse) -> (r: Reply)
    ensures
        r.model() == if acks == 0 {
            ReplyModel::Silence
        } else {
            answer_with(h.correlation_id, resp.encoded(h.api_version))
        },
{
    if acks == 0 {
        return Reply::Silence;
    }
    let mut e = begin(h);
    resp.encode(&mut e, h.api_version);
    Reply::Body(e.into_bytes())
}

impl RequestHandler {
    /// The state around a request.
    pub open spec fn state(
        &self,
        ids: ProducerIds,
        writes: Seq<PartitionWriteModel>,
        gone: Seq<PartitionKey>,
    ) -> State {
        State { view: self@, next_producer_id: ids.next, writes, gone }
    }

    /// When and with what a request is served.
    pub open spec fn context(
        &self,
        tails: Seq<Seq<Seq<u8>>>,
        read: Seq<ReadTopicModel>,
        now: i64,
        elapsed: u128,
        time_is_up: bool,
    ) -> Context {
        Context {
            setup: self.setup(),
            commits: self.commit_list(),
            tails,
            read,
            now,
            elapsed,
            time_is_up,
        }
    }

    /// The topics to create before a request is answered.
    pub fn wants(&self, req: &Request) -> (r: Vec<(String, i32)>)
        ensures
            r.model() == wants_of(self@.meta, self.setup(), req.model()),
    {
        match req {
            Request::Metadata(m) => self.metadata_wants(m),
            Request::Produce(m) => self.produce_wants(m),
            Request::CreateTopics(m) => Self::create_wants(m),
            _ => {
                let out: Vec<(String, i32)> = Vec::new();
                assert(out.model() =~= Seq::empty());
                out
            },
        }
    }

    /// Answers a request for the versions that the broker supports.
    fn serve_versions(&self, h: &RequestHeader) -> (r: Reply)
        ensures
            versions_served(h.api_version, h.correlation_id, r.model()),
    {
        let resp = handle_api_versions();
        let mut e = begin(h);
        resp.encode(&mut e, h.api_version);
        Reply::Body(e.into_bytes())
    }

    /// Answers a request for the topics.
    fn serve_metadata(&self, h: &RequestHeader, m: &MetadataRequest) -> (r: Reply)
        ensures
            metadata_served(
                self@.meta,
                self.setup(),
                m.model().topics,
                h.api_version,
                h.correlation_id,
                r.model(),
            ),
    {
        let resp = self.handle_metadata(m);
        let mut e = begin(h);
        resp.encode(&mut e, h.api_version);
        Reply::Body(e.into_bytes())
    }

    /// Answers a request for the coordinator of a group.
    fn serve_coordinator(&self, h: &RequestHeader) -> (r: Reply)
        ensures
            coordinator_served(self.setup(), h.api_version, h.correlation_id, r.model()),
    {
        let resp = self.handle_find_coordinator();
        let mut e = begin(h);
        resp.encode(&mut e, h.api_version);
        Reply::Body(e.into_bytes())
    }

    /// Answers a request for committed offsets.
    fn serve_offsets(&self, h: &RequestHeader, m: &OffsetFetchRequest) -> (r: Reply)
        ensures
            offsets_served(self@.offsets, m.model(), h.api_version, h.correlation_id, r.model()),
    {
        let resp = self.handle_offset_fetch(m);
        let mut e = begin(h);
        resp.encode(&mut e, h.api_version);
        Reply::Body(e.into_bytes())
    }

    /// Answers a request for a list of the groups.
    fn serve_list(&self, h: &RequestHeader, m: &ListGroupsRequest) -> (r: Reply)
        ensures
            list_served(
                self@.groups,
                self.commit_list(),
                m.model(),
                h.api_version,
                h.correlation_id,
                r.model(),
            ),
    {
        let resp = self.handle_list_groups(m);
        let mut e = begin(h);
        resp.encode(&mut e, h.api_version);
        Reply::Body(e.into_bytes())
    }

    /// Answers a request for what groups are.
    fn serve_describe(&self, h: &RequestHeader, m: &DescribeGroupsRequest) -> (r: Reply)
        ensures
            describe_served(self@.groups, m.model(), h.api_version, h.correlation_id, r.model()),
    {
        let resp = self.handle_describe_groups(m);
        let mut e = begin(h);
        resp.encode(&mut e, h.api_version);
        Reply::Body(e.into_bytes())
    }

    /// Answers a produce request.
    fn serve_produce(
        &mut self,
        h: &RequestHeader,
        acks: i16,
        read: &Vec<ReadTopic>,
        now: i64,
        writes: &mut Vec<PartitionWrite>,
    ) -> (r: Reply)
        requires
            old(self).wf(),
        ensures
            final(self).wf(),
            final(self).setup() == old(self).setup(),
            final(self).groups == old(self).groups,
            ({
                let st = ProduceState { meta: old(self)@.meta, writes: old(writes).model() };
                let after = after_topics(st, acks, read.model(), now);
                &&& final(self)@.meta == after.meta
                &&& final(writes).model() == after.writes
                &&& produce_served(
                    st,
                    acks,
                    read.model(),
                    now,
                    h.api_version,
                    h.correlation_id,
                    r.model(),
                )
            }),
    {
        let resp = self.handle_produce(acks, read, now, writes);
        answer_produce(h, acks, &resp)
    }

    /// Answers a fetch, or lets it wait.
    fn serve_fetch(
        &mut self,
        h: &RequestHeader,
        m: &FetchRequest,
        tails: &Vec<Vec<Bytes>>,
        time_is_up: bool,
    ) -> (r: Reply)
        requires
            old(self).wf(),
        ensures
            final(self).wf(),
            final(self).setup() == old(self).setup(),
            final(self)@ == old(self)@,
            fetch_served(
                old(self)@.meta,
                m.model(),
                tails.model(),
                time_is_up,
                h.api_version,
                h.correlation_id,
                r.model(),
            ),
    {
        let resp = self.handle_fetch(m, tails);
        assert(fetch_answered(old(self)@.meta, m.model().topics, tails.model(), resp));
        if !fetch_due(m, &resp, time_is_up) {
            return Reply::Later;
        }
        let mut e = begin(h);
        resp.encode(&mut e, h.api_version);
        Reply::Body(e.into_bytes())
    }

    /// Answers a request to join a group.
    fn serve_join(&mut self, h: &RequestHeader, m: &JoinGroupRequest, elapsed: u128) -> (r: Reply)
        requires
            old(self).wf(),
        ensures
            final(self).wf(),
            final(self).setup() == old(self).setup(),
            final(self)@ == (HandlerView {
                groups: groups_after_join(old(self)@.groups, join_asked(m.model()), elapsed),
                ..old(self)@
            }),
            join_served(
                old(self)@.groups,
                m.model(),
                elapsed,
                h.api_version,
                h.correlation_id,
                r.model(),
            ),
    {
        let resp = self.handle_join_group(m, elapsed);
        let mut e = begin(h);
        resp.encode(&mut e, h.api_version);
        Reply::Body(e.into_bytes())
    }

    /// Answers a request for an assignment.
    fn serve_sync(&mut self, h: &RequestHeader, m: &SyncGroupRequest) -> (r: Reply)
        requires
            old(self).wf(),
        ensures
            final(self).wf(),
            final(self).setup() == old(self).setup(),
            final(self)@ == (HandlerView {
                groups: groups_after_sync(old(self)@.groups, m.model()),
                ..old(self)@
            }),
            sync_served(old(self)@.groups, m.model(), h.api_version, h.correlation_id, r.model()),
    {
        let resp = self.handle_sync_group(m);
        let mut e = begin(h);
        resp.encode(&mut e, h.api_version);
        Reply::Body(e.into_bytes())
    }

    /// Answers a sign of life.
    fn serve_heartbeat(&mut self, h: &RequestHeader, m: &HeartbeatRequest, elapsed: u128) -> (r:
        Reply)
        requires
            old(self).wf(),
        ensures
            final(self).wf(),
            final(self).setup() == old(self).setup(),
            final(self)@ == (HandlerView { groups: final(self)@.groups, ..old(self)@ }),
            heartbeat_served(
                old(self)@.groups,
                m.model(),
                elapsed,
                final(self)@.groups,
                h.api_version,
                h.correlation_id,
                r.model(),
            ),
    {
        let mut e = begin(h);
        let code = self.handle_heartbeat(m, h.api_version, elapsed, &mut e);
        assert(heartbeat_says(
            old(self)@.groups,
            m.model().group_id,
            m.model().generation_id,
            m.model().member_id,
            elapsed,
            self@.groups,
            code,
        ));
        Reply::Body(e.into_bytes())
    }

    /// Serves a request. What is added to `writes` is to be written, in that
    /// order, and the directories of the partitions added to `gone` are to be
    /// deleted.
    pub fn dispatch(
        &mut self,
        header: &RequestHeader,
        req: &Request,
        tails: &Vec<Vec<Bytes>>,
        now: i64,
        elapsed: u128,
        time_is_up: bool,
        ids: &mut ProducerIds,
        writes: &mut Vec<PartitionWrite>,
        gone: &mut Vec<(String, i32)>,
    ) -> (r: Reply)
        requires
            old(self).wf(),
        ensures
            final(self).wf(),
            final(self).setup() == old(self).setup(),
            read_and_served(
                header.model(),
                req.model(),
                old(self).context(tails.model(), Seq::empty(), now, elapsed, time_is_up),
                old(self).state(*old(ids), old(writes).model(), old(gone).model()),
                final(self).state(*final(ids), final(writes).model(), final(gone).model()),
                r.model(),
            ),
    {
        let read = match req {
            Request::Produce(m) => read_topics(&m.topic_data),
            _ => Vec::new(),
        };
        let ghost cx = self.context(tails.model(), Seq::empty(), now, elapsed, time_is_up);
        let ghost with_read = self.context(tails.model(), read.model(), now, elapsed, time_is_up);
        let r = self.dispatch_read(
            header,
            req,
            tails,
            &read,
            now,
            elapsed,
            time_is_up,
            ids,
            writes,
            gone,
        );
        proof {
            reveal(read_and_served);
            assert(brings(req.model(), read.model()));
            assert(with_read == (Context { read: read.model(), ..cx }));
        }
        r
    }

    /// Serves a request, of whose records, if it is one to produce, this was
    /// read. What is added to `writes` is to be written, in that order, and the
    /// directories of the partitions added to `gone` are to be deleted.
    pub fn dispatch_read(
        &mut self,
        header: &RequestHeader,
        req: &Request,
        tails: &Vec<Vec<Bytes>>,
        read: &Vec<ReadTopic>,
        now: i64,
        elapsed: u128,
        time_is_up: bool,
        ids: &mut ProducerIds,
        writes: &mut Vec<PartitionWrite>,
        gone: &mut Vec<(String, i32)>,
    ) -> (r: Reply)
        requires
            old(self).wf(),
        ensures
            final(self).wf(),
            final(self).setup() == old(self).setup(),
            served(
                header.model(),
                req.model(),
                old(self).context(tails.model(), read.model(), now, elapsed, time_is_up),
                old(self).state(*old(ids), old(writes).model(), old(gone).model()),
                final(self).state(*final(ids), final(writes).model(), final(gone).model()),
                r.model(),
            ),
    {
        let v = header.api_version;
        match req {
            Request::ApiVersions => self.serve_versions(header),
            Request::Metadata(m) => self.serve_metadata(header, m),
            Request::Produce(m) => self.serve_produce(header, m.acks, read, now, writes),
            Request::Fetch(m) => self.serve_fetch(header, m, tails, time_is_up),
            Request::ListOffsets(m) => {
                let mut e = begin(header);
                self.handle_list_offsets(m, v, &mut e);
                assert(e@ =~= enc_i32(header.correlation_id) + (only_if(v >= 2, enc_i32(0))
                    + enc_i32(m.topics@.len() as i32) + enc_all_bounds(
                    self@.meta,
                    m.model().topics,
                    v,
                )));
                Reply::Body(e.into_bytes())
            },
            Request::CreateTopics(m) => {
                let mut e = begin(header);
                self.handle_create_topics(m, v, &mut e);
                assert(e@ =~= enc_i32(header.correlation_id) + (enc_i32(m.topics@.len() as i32)
                    + enc_all_created(self@.meta, wants_in(m.model().topics), v) + only_if(
                    v >= 2,
                    enc_i32(0),
                )));
                Reply::Body(e.into_bytes())
            },
            Request::DeleteTopics(m) => {
                let mut e = begin(header);
                self.handle_delete_topics(m, v, &mut e, gone);
                assert(e@ =~= enc_i32(header.correlation_id) + (enc_i32(
                    m.topic_names@.len() as i32,
                ) + enc_all_deleted(m.model().topic_names) + only_if(v >= 1, enc_i32(0))));
                Reply::Body(e.into_bytes())
            },
            Request::InitProducerId => {
                let mut e = begin(header);
                self.handle_init_producer_id(ids, &mut e);
                Reply::Body(e.into_bytes())
            },
            Request::FindCoordinator(_) => self.serve_coordinator(header),
            Request::JoinGroup(m) => self.serve_join(header, m, elapsed),
            Request::SyncGroup(m) => self.serve_sync(header, m),
            Request::Heartbeat(m) => self.serve_heartbeat(header, m, elapsed),
            Request::LeaveGroup(m) => {
                let mut e = begin(header);
                self.handle_leave_group(m, v, &mut e);
                Reply::Body(e.into_bytes())
            },
            Request::OffsetCommit(m) => {
                let mut e = begin(header);
                self.handle_offset_commit(m, v, now, &mut e, writes);
                Reply::Body(e.into_bytes())
            },
            Request::OffsetFetch(m) => self.serve_offsets(header, m),
            Request::ListGroups(m) => self.serve_list(header, m),
            Request::DescribeGroups(m) => self.serve_describe(header, m),
            Request::Unsupported => {
                let mut e = begin(header);
                e.put_i16(error_codes::UNSUPPORTED_VERSION);
                Reply::Body(e.into_bytes())
            },
            Request::Malformed => {
                if header.api_key == apikey::PRODUCE {
                    return Reply::Silence;
                }
                let e = begin(header);
                assert(e@ =~= enc_i32(header.correlation_id) + Seq::<u8>::empty());
                Reply::Body(e.into_bytes())
            },
        }
    }

    /// Serves a request as it came, once the topics that it wants have been
    /// created. One whose header does not decode gets no answer.
    pub fn process(
        &mut self,
        body: Bytes,
        tails: &Vec<Vec<Bytes>>,
        now: i64,
        elapsed: u128,
        time_is_up: bool,
        ids: &mut ProducerIds,
        writes: &mut Vec<PartitionWrite>,
        gone: &mut Vec<(String, i32)>,
    ) -> (r: Reply)
        requires
            old(self).wf(),
        ensures
            final(self).wf(),
            final(self).setup() == old(self).setup(),
            ({
                let a = old(self).state(*old(ids), old(writes).model(), old(gone).model());
                let b = final(self).state(*final(ids), final(writes).model(), final(gone).model());
                match request_of(bytes_view(body)) {
                    Some((h, req)) => read_and_served(
                        h,
                        req,
                        old(self).context(tails.model(), Seq::empty(), now, elapsed, time_is_up),
                        a,
                        b,
                        r.model(),
                    ),
                    None => b == a && r.model() == ReplyModel::Silence,
                }
            }),
    {
        match read_request(body) {
            Some((header, req)) => self.dispatch(
                &header,
                &req,
                tails,
                now,
                elapsed,
                time_is_up,
                ids,
                writes,
                gone,
            ),
            None => Reply::Silence,
        }
    }
}

} // verus!
