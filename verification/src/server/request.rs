//! Requests as they come over a connection.
//!
//! Four bytes of length stand in front of a request, and in front of the answer.

use bytes::Bytes;
use vstd::prelude::*;

use crate::buf;
use crate::buf::bytes_view;
use crate::protocol::apikey;
use crate::protocol::header::{sp_request_header, RequestHeader, RequestHeaderModel};
use crate::protocol::messages::fetch::{sp_fetch_request, FetchRequest, FetchRequestModel};
use crate::protocol::messages::groups::{
    sp_describe_groups_request, sp_heartbeat_request, sp_join_group_request,
    sp_leave_group_request, sp_list_groups_request, sp_sync_group_request, DescribeGroupsRequest,
    FindCoordinatorRequest, HeartbeatRequest, HeartbeatRequestModel, JoinGroupRequest,
    JoinGroupRequestModel, LeaveGroupRequest, LeaveGroupRequestModel, ListGroupsRequest,
    SyncGroupRequest, SyncGroupRequestModel,
};
use crate::protocol::messages::metadata::{
    sp_metadata_request, MetadataRequest, MetadataRequestModel,
};
use crate::protocol::messages::offsets::{
    sp_list_offsets_request, sp_offset_commit_request, sp_offset_fetch_request, ListOffsetsRequest,
    ListOffsetsRequestModel, OffsetCommitRequest, OffsetCommitRequestModel, OffsetFetchRequest,
    OffsetFetchRequestModel,
};
use crate::protocol::messages::produce::{
    sp_produce_request, ProduceRequest, ProduceRequestModel,
};
use crate::protocol::messages::topics::{
    sp_create_topics_request, sp_delete_topics_request, CreateTopicsRequest,
    CreateTopicsRequestModel, DeleteTopicsRequest, DeleteTopicsRequestModel,
};
use crate::protocol::primitive::{
    cursor, sp_nullable_string, sp_string, Cursor, Decoder, Encoder, Modeled,
};
use crate::protocol::wire::{be, be_u32, be_value};

verus! {

/// The largest request that is read.
pub const MAX_REQUEST_LEN: u32 = 104857600;

/// The length of a request, out of the four bytes in front of it, if it is one
/// that is read.
pub fn request_len(prefix: &[u8]) -> (r: Option<usize>)
    requires
        prefix@.len() == 4,
    ensures
        r == if 1 <= be_value(prefix@) <= MAX_REQUEST_LEN {
            Some(be_value(prefix@) as usize)
        } else {
            None
        },
{
    let n = be_u32(prefix);
    if n == 0 || n > MAX_REQUEST_LEN {
        None
    } else {
        Some(n as usize)
    }
}

/// An answer with its length in front of it, cut off at 32 bits.
pub fn framed(body: &Bytes) -> (r: Bytes)
    ensures
        bytes_view(r) == be((bytes_view(*body).len() as u32) as nat, 4) + bytes_view(*body),
{
    let mut e = Encoder::new();
    e.put_u32(buf::bytes_len(body) as u32);
    e.put_bytes(buf::bytes_slice(body));
    assert(e@ =~= be((bytes_view(*body).len() as u32) as nat, 4) + bytes_view(*body));
    e.into_bytes()
}

/// A request.
#[derive(Debug)]
pub enum Request {
    ApiVersions,
    Metadata(MetadataRequest),
    Produce(ProduceRequest),
    Fetch(FetchRequest),
    ListOffsets(ListOffsetsRequest),
    CreateTopics(CreateTopicsRequest),
    DeleteTopics(DeleteTopicsRequest),
    InitProducerId,
    FindCoordinator(FindCoordinatorRequest),
    JoinGroup(JoinGroupRequest),
    SyncGroup(SyncGroupRequest),
    Heartbeat(HeartbeatRequest),
    LeaveGroup(LeaveGroupRequest),
    OffsetCommit(OffsetCommitRequest),
    OffsetFetch(OffsetFetchRequest),
    ListGroups(ListGroupsRequest),
    DescribeGroups(DescribeGroupsRequest),
    /// One of a kind that is not supported.
    Unsupported,
    /// One that does not decode.
    Malformed,
}

/// What a [`Request`] stands for.
pub enum RequestModel {
    ApiVersions,
    Metadata(MetadataRequestModel),
    Produce(ProduceRequestModel),
    Fetch(FetchRequestModel),
    ListOffsets(ListOffsetsRequestModel),
    CreateTopics(CreateTopicsRequestModel),
    DeleteTopics(DeleteTopicsRequestModel),
    InitProducerId,
    FindCoordinator(Seq<char>),
    JoinGroup(JoinGroupRequestModel),
    SyncGroup(SyncGroupRequestModel),
    Heartbeat(HeartbeatRequestModel),
    LeaveGroup(LeaveGroupRequestModel),
    OffsetCommit(OffsetCommitRequestModel),
    OffsetFetch(OffsetFetchRequestModel),
    ListGroups(Seq<Seq<char>>),
    DescribeGroups(Seq<Seq<char>>),
    Unsupported,
    Malformed,
}

impl Modeled for Request {
    type M = RequestModel;

    open spec fn model(&self) -> RequestModel {
        match *self {
            Request::ApiVersions => RequestModel::ApiVersions,
            Request::Metadata(r) => RequestModel::Metadata(r.model()),
            Request::Produce(r) => RequestModel::Produce(r.model()),
            Request::Fetch(r) => RequestModel::Fetch(r.model()),
            Request::ListOffsets(r) => RequestModel::ListOffsets(r.model()),
            Request::CreateTopics(r) => RequestModel::CreateTopics(r.model()),
            Request::DeleteTopics(r) => RequestModel::DeleteTopics(r.model()),
            Request::InitProducerId => RequestModel::InitProducerId,
            Request::FindCoordinator(r) => RequestModel::FindCoordinator(r.model()),
            Request::JoinGroup(r) => RequestModel::JoinGroup(r.model()),
            Request::SyncGroup(r) => RequestModel::SyncGroup(r.model()),
            Request::Heartbeat(r) => RequestModel::Heartbeat(r.model()),
            Request::LeaveGroup(r) => RequestModel::LeaveGroup(r.model()),
            Request::OffsetCommit(r) => RequestModel::OffsetCommit(r.model()),
            Request::OffsetFetch(r) => RequestModel::OffsetFetch(r.model()),
            Request::ListGroups(r) => RequestModel::ListGroups(r.model()),
            Request::DescribeGroups(r) => RequestModel::DescribeGroups(r.model()),
            Request::Unsupported => RequestModel::Unsupported,
            Request::Malformed => RequestModel::Malformed,
        }
    }
}

/// The request, or that there is none where its body did not decode.
pub open spec fn if_read(m: RequestModel, c: Cursor) -> RequestModel {
    if c.err is None {
        m
    } else {
        RequestModel::Malformed
    }
}

/// The request of a kind whose body stands at `c`.
pub open spec fn body_at(c: Cursor, key: i16, version: i16) -> RequestModel {
    if key == apikey::API_VERSIONS {
        RequestModel::ApiVersions
    } else if key == apikey::METADATA {
        let (m, c) = sp_metadata_request(c, version);
        if_read(RequestModel::Metadata(m), c)
    } else if key == apikey::PRODUCE {
        let (m, c) = sp_produce_request(c, version);
        if_read(RequestModel::Produce(m), c)
    } else if key == apikey::FETCH {
        let (m, c) = sp_fetch_request(c, version);
        if_read(RequestModel::Fetch(m), c)
    } else if key == apikey::LIST_OFFSETS {
        let (m, c) = sp_list_offsets_request(c, version);
        if_read(RequestModel::ListOffsets(m), c)
    } else if key == apikey::CREATE_TOPICS {
        let (m, c) = sp_create_topics_request(c, version);
        if_read(RequestModel::CreateTopics(m), c)
    } else if key == apikey::DELETE_TOPICS {
        let (m, c) = sp_delete_topics_request(c, version);
        if_read(RequestModel::DeleteTopics(m), c)
    } else if key == apikey::INIT_PRODUCER_ID {
        if_read(RequestModel::InitProducerId, sp_nullable_string(c).1)
    } else if key == apikey::FIND_COORDINATOR {
        let (m, c) = sp_string(c);
        if_read(RequestModel::FindCoordinator(m), c)
    } else if key == apikey::JOIN_GROUP {
        let (m, c) = sp_join_group_request(c, version);
        if_read(RequestModel::JoinGroup(m), c)
    } else if key == apikey::SYNC_GROUP {
        let (m, c) = sp_sync_group_request(c, version);
        if_read(RequestModel::SyncGroup(m), c)
    } else if key == apikey::HEARTBEAT {
        let (m, c) = sp_heartbeat_request(c);
        if_read(RequestModel::Heartbeat(m), c)
    } else if key == apikey::LEAVE_GROUP {
        let (m, c) = sp_leave_group_request(c);
        if_read(RequestModel::LeaveGroup(m), c)
    } else if key == apikey::OFFSET_COMMIT {
        let (m, c) = sp_offset_commit_request(c, version);
        if_read(RequestModel::OffsetCommit(m), c)
    } else if key == apikey::OFFSET_FETCH {
        let (m, c) = sp_offset_fetch_request(c, version);
        if_read(RequestModel::OffsetFetch(m), c)
    } else if key == apikey::LIST_GROUPS {
        let (m, c) = sp_list_groups_request(c, version);
        if_read(RequestModel::ListGroups(m), c)
    } else if key == apikey::DESCRIBE_GROUPS {
        let (m, c) = sp_describe_groups_request(c, version);
        if_read(RequestModel::DescribeGroups(m), c)
    } else {
        RequestModel::Unsupported
    }
}

/// The header and the request that bytes hold, or nothing if the header does not
/// decode.
pub open spec fn request_of(s: Seq<u8>) -> Option<(RequestHeaderModel, RequestModel)> {
    let (h, c) = sp_request_header(cursor(s));
    if c.err is None {
        Some((h, body_at(c, h.api_key, h.api_version)))
    } else {
        None
    }
}

/// Reads a request.
pub fn read_request(body: Bytes) -> (r: Option<(RequestHeader, Request)>)
    ensures
        r.model() == request_of(bytes_view(body)),
{
    let mut d = Decoder::new(body);
    match RequestHeader::decode(&mut d, 0) {
        Ok(h) => {
            let req = read_body(&mut d, h.api_key, h.api_version);
            Some((h, req))
        },
        Err(_) => None,
    }
}

#[verifier::rlimit(60)]
fn read_body(d: &mut Decoder, key: i16, version: i16) -> (r: Request)
    ensures
        r.model() == body_at(cursor(old(d).rest()), key, version),
{
    if key == apikey::API_VERSIONS {
        Request::ApiVersions
    } else if key == apikey::METADATA {
        match MetadataRequest::decode(d, version) {
            Ok(m) => Request::Metadata(m),
            Err(_) => Request::Malformed,
        }
    } else if key == apikey::PRODUCE {
        match ProduceRequest::decode(d, version) {
            Ok(m) => Request::Produce(m),
            Err(_) => Request::Malformed,
        }
    } else if key == apikey::FETCH {
        match FetchRequest::decode(d, version) {
            Ok(m) => Request::Fetch(m),
            Err(_) => Request::Malformed,
        }
    } else if key == apikey::LIST_OFFSETS {
        match ListOffsetsRequest::decode(d, version) {
            Ok(m) => Request::ListOffsets(m),
            Err(_) => Request::Malformed,
        }
    } else if key == apikey::CREATE_TOPICS {
        match CreateTopicsRequest::decode(d, version) {
            Ok(m) => Request::CreateTopics(m),
            Err(_) => Request::Malformed,
        }
    } else if key == apikey::DELETE_TOPICS {
        match DeleteTopicsRequest::decode(d, version) {
            Ok(m) => Request::DeleteTopics(m),
            Err(_) => Request::Malformed,
        }
    } else if key == apikey::INIT_PRODUCER_ID {
        // A transactional id, which does not matter.
        match d.get_nullable_string() {
            Ok(_) => Request::InitProducerId,
            Err(_) => Request::Malformed,
        }
    } else if key == apikey::FIND_COORDINATOR {
        match FindCoordinatorRequest::decode(d, version) {
            Ok(m) => Request::FindCoordinator(m),
            Err(_) => Request::Malformed,
        }
    } else if key == apikey::JOIN_GROUP {
        match JoinGroupRequest::decode(d, version) {
            Ok(m) => Request::JoinGroup(m),
            Err(_) => Request::Malformed,
        }
    } else if key == apikey::SYNC_GROUP {
        match SyncGroupRequest::decode(d, version) {
            Ok(m) => Request::SyncGroup(m),
            Err(_) => Request::Malformed,
        }
    } else if key == apikey::HEARTBEAT {
        match HeartbeatRequest::decode(d, version) {
            Ok(m) => Request::Heartbeat(m),
            Err(_) => Request::Malformed,
        }
    } else if key == apikey::LEAVE_GROUP {
        match LeaveGroupRequest::decode(d, version) {
            Ok(m) => Request::LeaveGroup(m),
            Err(_) => Request::Malformed,
        }
    } else if key == apikey::OFFSET_COMMIT {
        match OffsetCommitRequest::decode(d, version) {
            Ok(m) => Request::OffsetCommit(m),
            Err(_) => Request::Malformed,
        }
    } else if key == apikey::OFFSET_FETCH {
        match OffsetFetchRequest::decode(d, version) {
            Ok(m) => Request::OffsetFetch(m),
            Err(_) => Request::Malformed,
        }
    } else if key == apikey::LIST_GROUPS {
        match ListGroupsRequest::decode(d, version) {
            Ok(m) => Request::ListGroups(m),
            Err(_) => Request::Malformed,
        }
    } else if key == apikey::DESCRIBE_GROUPS {
        match DescribeGroupsRequest::decode(d, version) {
            Ok(m) => Request::DescribeGroups(m),
            Err(_) => Request::Malformed,
        }
    } else {
        Request::Unsupported
    }
}

} // verus!
