//! Consumer groups: finding the coordinator, joining, synchronising, heartbeats,
//! leaving, listing and describing.

use bytes::Bytes;
use vstd::prelude::*;

use crate::buf::{bytes_slice, bytes_view};
use crate::protocol::codec::{
    count, only_if, read_array, read_counted, sp_array, wire_array, write_array, WireRead,
    WireWrite,
};
use crate::protocol::messages::fetch::{enc_bytes, put_sized_bytes};
use crate::protocol::messages::metadata::as_opt_str;
use crate::protocol::primitive::{
    cursor, decodes, enc_compact_nullable_bytes, enc_nullable_compact_string, enc_nullable_string,
    enc_string, opt_string, sp_compact_string, sp_i32, sp_nullable_string, sp_string, sp_varint,
    Cursor, Decoder, Encoder, Modeled, Result,
};
use crate::protocol::wire::{enc_i16, enc_i32, enc_i8};

verus! {

#[derive(Debug, Clone)]
pub struct FindCoordinatorRequest {
    pub key: String,
}

impl Modeled for FindCoordinatorRequest {
    type M = Seq<char>;

    open spec fn model(&self) -> Seq<char> {
        self.key@
    }
}

impl FindCoordinatorRequest {
    pub fn decode(buf: &mut Decoder, _version: i16) -> (r: Result<Self>)
        ensures
            decodes(r, final(buf).rest(), sp_string(cursor(old(buf).rest()))),
    {
        let key = buf.get_string()?;
        Ok(FindCoordinatorRequest { key })
    }
}

#[derive(Debug, Clone)]
pub struct FindCoordinatorResponse {
    pub throttle_time_ms: i32,
    pub error_code: i16,
    pub error_message: Option<String>,
    pub node_id: i32,
    pub host: String,
    pub port: i32,
}

impl FindCoordinatorResponse {
    /// The bytes of the response.
    pub open spec fn encoded(&self, version: i16) -> Seq<u8> {
        enc_i32(self.throttle_time_ms) + only_if(
            version >= 1,
            enc_i16(self.error_code) + enc_nullable_string(opt_string(self.error_message)),
        ) + enc_i32(self.node_id) + enc_string(self.host@) + enc_i32(self.port)
    }

    pub fn encode(&self, e: &mut Encoder, version: i16)
        ensures
            final(e)@ == old(e)@ + self.encoded(version),
    {
        e.put_i32(self.throttle_time_ms);
        if version >= 1 {
            e.put_i16(self.error_code);
            e.put_nullable_string(as_opt_str(&self.error_message));
        }
        e.put_i32(self.node_id);
        e.put_string(self.host.as_str());
        e.put_i32(self.port);
        assert(e@ =~= old(e)@ + self.encoded(version));
    }
}

#[derive(Debug, Clone)]
pub struct JoinGroupRequest {
    pub group_id: String,
    pub session_timeout_ms: i32,
    pub rebalance_timeout_ms: i32,
    pub member_id: String,
    pub protocol_type: String,
    /// Name and metadata of each protocol that the member offers.
    pub group_protocols: Vec<(String, Bytes)>,
}

/// What a [`JoinGroupRequest`] stands for.
pub struct JoinGroupRequestModel {
    pub group_id: Seq<char>,
    pub session_timeout_ms: i32,
    pub rebalance_timeout_ms: i32,
    pub member_id: Seq<char>,
    pub protocol_type: Seq<char>,
    pub group_protocols: Seq<(Seq<char>, Seq<u8>)>,
}

impl Modeled for JoinGroupRequest {
    type M = JoinGroupRequestModel;

    open spec fn model(&self) -> JoinGroupRequestModel {
        JoinGroupRequestModel {
            group_id: self.group_id.model(),
            session_timeout_ms: self.session_timeout_ms,
            rebalance_timeout_ms: self.rebalance_timeout_ms,
            member_id: self.member_id.model(),
            protocol_type: self.protocol_type.model(),
            group_protocols: self.group_protocols.model(),
        }
    }
}

/// The request at `c`. Version 0 has one timeout for both; a group instance id,
/// there from version 5 on, is skipped.
pub open spec fn sp_join_group_request(c: Cursor, version: i16) -> (JoinGroupRequestModel, Cursor) {
    let (group_id, c) = sp_string(c);
    let (session_timeout_ms, c) = sp_i32(c);
    let (rebalance_timeout_ms, c) = if version >= 1 {
        sp_i32(c)
    } else {
        (session_timeout_ms, c)
    };
    let (member_id, c) = sp_string(c);
    let c = if version >= 5 {
        sp_nullable_string(c).1
    } else {
        c
    };
    let (protocol_type, c) = sp_string(c);
    let (n, c) = sp_i32(c);
    let (group_protocols, c) = sp_array::<(String, Bytes)>(c, count(n), version);
    (
        JoinGroupRequestModel {
            group_id,
            session_timeout_ms,
            rebalance_timeout_ms,
            member_id,
            protocol_type,
            group_protocols,
        },
        c,
    )
}

impl JoinGroupRequest {
    pub fn decode(buf: &mut Decoder, version: i16) -> (r: Result<Self>)
        ensures
            decodes(
                r,
                final(buf).rest(),
                sp_join_group_request(cursor(old(buf).rest()), version),
            ),
    {
        let group_id = buf.get_string()?;
        let session_timeout_ms = buf.get_i32()?;
        let rebalance_timeout_ms = if version >= 1 { buf.get_i32()? } else { session_timeout_ms };
        let member_id = buf.get_string()?;
        if version >= 5 {
            let _group_instance_id = buf.get_nullable_string()?;
        }
        let protocol_type = buf.get_string()?;
        let n = buf.get_i32()?;
        let group_protocols = read_counted::<(String, Bytes)>(buf, n, version)?;
        Ok(
            JoinGroupRequest {
                group_id,
                session_timeout_ms,
                rebalance_timeout_ms,
                member_id,
                protocol_type,
                group_protocols,
            },
        )
    }
}

/// A member of a group and its metadata.
impl WireWrite for (String, Bytes) {
    open spec fn wire(&self, version: i16) -> Seq<u8> {
        enc_string(self.0@) + only_if(version >= 5, enc_nullable_string(None)) + enc_bytes(
            bytes_view(self.1),
        )
    }

    fn write(&self, e: &mut Encoder, version: i16) {
        e.put_string(self.0.as_str());
        if version >= 5 {
            // No group instance id.
            e.put_nullable_string(None);
        }
        put_sized_bytes(e, &self.1);
        assert(e@ =~= old(e)@ + self.wire(version));
    }
}

#[derive(Debug, Clone)]
pub struct JoinGroupResponse {
    pub throttle_time_ms: i32,
    pub error_code: i16,
    pub generation_id: i32,
    pub protocol_type: Option<String>,
    pub protocol_name: Option<String>,
    pub leader: String,
    pub member_id: String,
    /// Id and metadata of each member.
    pub members: Vec<(String, Bytes)>,
}

impl JoinGroupResponse {
    /// The bytes of the response. The protocol type is there from version 7 on.
    pub open spec fn encoded(&self, version: i16) -> Seq<u8> {
        let protocol = if version >= 7 {
            enc_nullable_compact_string(opt_string(self.protocol_type))
                + enc_nullable_compact_string(opt_string(self.protocol_name))
        } else {
            enc_nullable_string(opt_string(self.protocol_name))
        };
        enc_i32(self.throttle_time_ms) + enc_i16(self.error_code) + enc_i32(self.generation_id)
            + protocol + enc_string(self.leader@) + only_if(version >= 9, enc_i8(0)) + enc_string(
            self.member_id@,
        ) + wire_array(self.members@, version)
    }

    pub fn encode(&self, e: &mut Encoder, version: i16)
        ensures
            final(e)@ == old(e)@ + self.encoded(version),
    {
        e.put_i32(self.throttle_time_ms);
        e.put_i16(self.error_code);
        e.put_i32(self.generation_id);
        if version >= 7 {
            e.put_nullable_compact_string(as_opt_str(&self.protocol_type));
            e.put_nullable_compact_string(as_opt_str(&self.protocol_name));
        } else {
            e.put_nullable_string(as_opt_str(&self.protocol_name));
        }
        e.put_string(self.leader.as_str());
        if version >= 9 {
            // The assignment is not skipped.
            e.put_i8(0);
        }
        e.put_string(self.member_id.as_str());
        write_array(e, &self.members, version);
        assert(e@ =~= old(e)@ + self.encoded(version));
    }
}

#[derive(Debug, Clone)]
pub struct SyncGroupRequest {
    pub group_id: String,
    pub generation_id: i32,
    pub member_id: String,
    pub assignments: Vec<(String, Bytes)>,
}

/// What a [`SyncGroupRequest`] stands for.
pub struct SyncGroupRequestModel {
    pub group_id: Seq<char>,
    pub generation_id: i32,
    pub member_id: Seq<char>,
    pub assignments: Seq<(Seq<char>, Seq<u8>)>,
}

impl Modeled for SyncGroupRequest {
    type M = SyncGroupRequestModel;

    open spec fn model(&self) -> SyncGroupRequestModel {
        SyncGroupRequestModel {
            group_id: self.group_id.model(),
            generation_id: self.generation_id,
            member_id: self.member_id.model(),
            assignments: self.assignments.model(),
        }
    }
}

/// The request at `c`.
pub open spec fn sp_sync_group_request(c: Cursor, version: i16) -> (SyncGroupRequestModel, Cursor) {
    let (group_id, c) = sp_string(c);
    let (generation_id, c) = sp_i32(c);
    let (member_id, c) = sp_string(c);
    let (n, c) = sp_i32(c);
    let (assignments, c) = sp_array::<(String, Bytes)>(c, count(n), version);
    (SyncGroupRequestModel { group_id, generation_id, member_id, assignments }, c)
}

impl SyncGroupRequest {
    pub fn decode(buf: &mut Decoder, version: i16) -> (r: Result<Self>)
        ensures
            decodes(
                r,
                final(buf).rest(),
                sp_sync_group_request(cursor(old(buf).rest()), version),
            ),
    {
        let group_id = buf.get_string()?;
        let generation_id = buf.get_i32()?;
        let member_id = buf.get_string()?;
        let n = buf.get_i32()?;
        let assignments = read_counted::<(String, Bytes)>(buf, n, version)?;
        Ok(SyncGroupRequest { group_id, generation_id, member_id, assignments })
    }
}

#[derive(Debug, Clone)]
pub struct SyncGroupResponse {
    pub throttle_time_ms: i32,
    pub error_code: i16,
    pub assignment: Bytes,
}

impl SyncGroupResponse {
    /// The bytes of the response.
    pub open spec fn encoded(&self, version: i16) -> Seq<u8> {
        enc_i32(self.throttle_time_ms) + enc_i16(self.error_code) + if version >= 5 {
            enc_compact_nullable_bytes(Some(bytes_view(self.assignment)))
        } else {
            enc_bytes(bytes_view(self.assignment))
        }
    }

    pub fn encode(&self, e: &mut Encoder, version: i16)
        ensures
            final(e)@ == old(e)@ + self.encoded(version),
    {
        e.put_i32(self.throttle_time_ms);
        e.put_i16(self.error_code);
        if version >= 5 {
            e.put_compact_nullable_bytes(Some(bytes_slice(&self.assignment)));
        } else {
            put_sized_bytes(e, &self.assignment);
        }
        assert(e@ =~= old(e)@ + self.encoded(version));
    }
}

#[derive(Debug, Clone)]
pub struct HeartbeatRequest {
    pub group_id: String,
    pub generation_id: i32,
    pub member_id: String,
}

/// What a [`HeartbeatRequest`] stands for.
pub struct HeartbeatRequestModel {
    pub group_id: Seq<char>,
    pub generation_id: i32,
    pub member_id: Seq<char>,
}

impl Modeled for HeartbeatRequest {
    type M = HeartbeatRequestModel;

    open spec fn model(&self) -> HeartbeatRequestModel {
        HeartbeatRequestModel {
            group_id: self.group_id@,
            generation_id: self.generation_id,
            member_id: self.member_id@,
        }
    }
}

/// The request at `c`.
pub open spec fn sp_heartbeat_request(c: Cursor) -> (HeartbeatRequestModel, Cursor) {
    let (group_id, c) = sp_string(c);
    let (generation_id, c) = sp_i32(c);
    let (member_id, c) = sp_string(c);
    (HeartbeatRequestModel { group_id, generation_id, member_id }, c)
}

impl HeartbeatRequest {
    pub fn decode(buf: &mut Decoder, _version: i16) -> (r: Result<Self>)
        ensures
            decodes(r, final(buf).rest(), sp_heartbeat_request(cursor(old(buf).rest()))),
    {
        let group_id = buf.get_string()?;
        let generation_id = buf.get_i32()?;
        let member_id = buf.get_string()?;
        Ok(HeartbeatRequest { group_id, generation_id, member_id })
    }
}

#[derive(Debug, Clone)]
pub struct LeaveGroupRequest {
    pub group_id: String,
    pub member_id: String,
}

/// What a [`LeaveGroupRequest`] stands for.
pub struct LeaveGroupRequestModel {
    pub group_id: Seq<char>,
    pub member_id: Seq<char>,
}

impl Modeled for LeaveGroupRequest {
    type M = LeaveGroupRequestModel;

    open spec fn model(&self) -> LeaveGroupRequestModel {
        LeaveGroupRequestModel { group_id: self.group_id@, member_id: self.member_id@ }
    }
}

/// The request at `c`.
pub open spec fn sp_leave_group_request(c: Cursor) -> (LeaveGroupRequestModel, Cursor) {
    let (group_id, c) = sp_string(c);
    let (member_id, c) = sp_string(c);
    (LeaveGroupRequestModel { group_id, member_id }, c)
}

impl LeaveGroupRequest {
    pub fn decode(buf: &mut Decoder, _version: i16) -> (r: Result<Self>)
        ensures
            decodes(r, final(buf).rest(), sp_leave_group_request(cursor(old(buf).rest()))),
    {
        let group_id = buf.get_string()?;
        let member_id = buf.get_string()?;
        Ok(LeaveGroupRequest { group_id, member_id })
    }
}

/// The name of a group state to list, as a flexible request writes it.
pub struct StateName(pub String);

impl Modeled for StateName {
    type M = Seq<char>;

    open spec fn model(&self) -> Seq<char> {
        self.0@
    }
}

impl WireRead for StateName {
    open spec fn sp_read(c: Cursor, version: i16) -> (Seq<char>, Cursor) {
        sp_compact_string(c)
    }

    fn read(buf: &mut Decoder, version: i16) -> (r: Result<Self>) {
        let s = buf.get_compact_string()?;
        Ok(StateName(s))
    }
}

#[derive(Debug, Clone)]
pub struct ListGroupsRequest {
    /// The states of the groups to list; none asks for every group.
    pub states_filter: Vec<String>,
}

impl Modeled for ListGroupsRequest {
    type M = Seq<Seq<char>>;

    open spec fn model(&self) -> Seq<Seq<char>> {
        self.states_filter.model()
    }
}

/// The request at `c`. The states are there from version 4 on, behind a varint
/// that holds one more than their number, or zero.
pub open spec fn sp_list_groups_request(c: Cursor, version: i16) -> (Seq<Seq<char>>, Cursor) {
    if version >= 4 {
        let (n, c) = sp_varint(c);
        sp_array::<StateName>(
            c,
            if n == 0 {
                0
            } else {
                ((n - 1) as usize) as nat
            },
            version,
        )
    } else {
        (Seq::empty(), c)
    }
}

impl ListGroupsRequest {
    pub fn decode(buf: &mut Decoder, version: i16) -> (r: Result<Self>)
        ensures
            decodes(
                r,
                final(buf).rest(),
                sp_list_groups_request(cursor(old(buf).rest()), version),
            ),
    {
        let mut states_filter: Vec<String> = Vec::new();
        if version >= 4 {
            let n = buf.get_unsigned_varint()?;
            let names = read_array::<StateName>(
                buf,
                if n == 0 {
                    0
                } else {
                    (n - 1) as usize
                },
                version,
            )?;
            let mut i: usize = 0;
            while i < names.len()
                invariant
                    i <= names@.len(),
                    states_filter.model() =~= names.model().take(i as int),
                decreases names@.len() - i,
            {
                let ghost before = states_filter.model();
                let name = names[i].0.clone();
                states_filter.push(name);
                assert(states_filter.model() =~= before.push(names.model()[i as int]));
                i = i + 1;
            }
            assert(names.model().take(i as int) =~= names.model());
        }
        assert(version < 4 ==> states_filter.model() =~= Seq::empty());
        Ok(ListGroupsRequest { states_filter })
    }
}

#[derive(Debug, Clone)]
pub struct ListedGroup {
    pub group_id: String,
    pub protocol_type: String,
    pub group_state: String,
}

impl Modeled for ListedGroup {
    type M = (Seq<char>, Seq<char>, Seq<char>);

    open spec fn model(&self) -> (Seq<char>, Seq<char>, Seq<char>) {
        (self.group_id@, self.protocol_type@, self.group_state@)
    }
}

impl WireWrite for ListedGroup {
    open spec fn wire(&self, version: i16) -> Seq<u8> {
        enc_string(self.group_id@) + enc_string(self.protocol_type@) + only_if(
            version >= 4,
            enc_string(self.group_state@),
        )
    }

    fn write(&self, e: &mut Encoder, version: i16) {
        e.put_string(self.group_id.as_str());
        e.put_string(self.protocol_type.as_str());
        if version >= 4 {
            e.put_string(self.group_state.as_str());
        }
        assert(e@ =~= old(e)@ + self.wire(version));
    }
}

#[derive(Debug, Clone)]
pub struct ListGroupsResponse {
    pub throttle_time_ms: i32,
    pub error_code: i16,
    pub groups: Vec<ListedGroup>,
}

impl ListGroupsResponse {
    /// The bytes of the response.
    pub open spec fn encoded(&self, version: i16) -> Seq<u8> {
        only_if(version >= 1, enc_i32(self.throttle_time_ms)) + enc_i16(self.error_code)
            + wire_array(self.groups@, version)
    }

    pub fn encode(&self, e: &mut Encoder, version: i16)
        ensures
            final(e)@ == old(e)@ + self.encoded(version),
    {
        if version >= 1 {
            e.put_i32(self.throttle_time_ms);
        }
        e.put_i16(self.error_code);
        write_array(e, &self.groups, version);
        assert(e@ =~= old(e)@ + self.encoded(version));
    }
}

#[derive(Debug, Clone)]
pub struct DescribeGroupsRequest {
    pub groups: Vec<String>,
}

impl Modeled for DescribeGroupsRequest {
    type M = Seq<Seq<char>>;

    open spec fn model(&self) -> Seq<Seq<char>> {
        self.groups.model()
    }
}

/// The request at `c`.
pub open spec fn sp_describe_groups_request(c: Cursor, version: i16) -> (Seq<Seq<char>>, Cursor) {
    let (n, c) = sp_i32(c);
    sp_array::<String>(c, count(n), version)
}

impl DescribeGroupsRequest {
    pub fn decode(buf: &mut Decoder, version: i16) -> (r: Result<Self>)
        ensures
            decodes(
                r,
                final(buf).rest(),
                sp_describe_groups_request(cursor(old(buf).rest()), version),
            ),
    {
        let n = buf.get_i32()?;
        let groups = read_counted::<String>(buf, n, version)?;
        Ok(DescribeGroupsRequest { groups })
    }
}

#[derive(Debug, Clone)]
pub struct DescribedGroupMember {
    pub member_id: String,
    pub group_instance_id: Option<String>,
    pub client_id: String,
    pub client_host: String,
    pub member_metadata: Bytes,
    pub member_assignment: Bytes,
}

impl WireWrite for DescribedGroupMember {
    open spec fn wire(&self, version: i16) -> Seq<u8> {
        enc_string(self.member_id@) + only_if(
            version >= 4,
            enc_nullable_string(opt_string(self.group_instance_id)),
        ) + enc_string(self.client_id@) + enc_string(self.client_host@) + enc_bytes(
            bytes_view(self.member_metadata),
        ) + enc_bytes(bytes_view(self.member_assignment))
    }

    fn write(&self, e: &mut Encoder, version: i16) {
        e.put_string(self.member_id.as_str());
        if version >= 4 {
            e.put_nullable_string(as_opt_str(&self.group_instance_id));
        }
        e.put_string(self.client_id.as_str());
        e.put_string(self.client_host.as_str());
        put_sized_bytes(e, &self.member_metadata);
        put_sized_bytes(e, &self.member_assignment);
        assert(e@ =~= old(e)@ + self.wire(version));
    }
}

#[derive(Debug, Clone)]
pub struct DescribedGroup {
    pub error_code: i16,
    pub group_id: String,
    pub group_state: String,
    pub protocol_type: String,
    pub protocol_data: String,
    pub members: Vec<DescribedGroupMember>,
    pub authorized_operations: i32,
}

impl WireWrite for DescribedGroup {
    open spec fn wire(&self, version: i16) -> Seq<u8> {
        enc_i16(self.error_code) + enc_string(self.group_id@) + enc_string(self.group_state@)
            + enc_string(self.protocol_type@) + enc_string(self.protocol_data@) + wire_array(
            self.members@,
            version,
        ) + only_if(version >= 3, enc_i32(self.authorized_operations))
    }

    fn write(&self, e: &mut Encoder, version: i16) {
        e.put_i16(self.error_code);
        e.put_string(self.group_id.as_str());
        e.put_string(self.group_state.as_str());
        e.put_string(self.protocol_type.as_str());
        e.put_string(self.protocol_data.as_str());
        write_array(e, &self.members, version);
        if version >= 3 {
            e.put_i32(self.authorized_operations);
        }
        assert(e@ =~= old(e)@ + self.wire(version));
    }
}

#[derive(Debug, Clone)]
pub struct DescribeGroupsResponse {
    pub throttle_time_ms: i32,
    pub groups: Vec<DescribedGroup>,
}

impl DescribeGroupsResponse {
    /// The bytes of the response.
    pub open spec fn encoded(&self, version: i16) -> Seq<u8> {
        only_if(version >= 1, enc_i32(self.throttle_time_ms)) + wire_array(self.groups@, version)
    }

    pub fn encode(&self, e: &mut Encoder, version: i16)
        ensures
            final(e)@ == old(e)@ + self.encoded(version),
    {
        if version >= 1 {
            e.put_i32(self.throttle_time_ms);
        }
        write_array(e, &self.groups, version);
        assert(e@ =~= old(e)@ + self.encoded(version));
    }
}

} // verus!
