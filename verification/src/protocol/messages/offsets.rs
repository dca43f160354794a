//! ListOffsets, OffsetCommit and OffsetFetch.

use vstd::prelude::*;

use crate::protocol::codec::{
    count, only_if, read_counted, sp_array, wire_array, write_array, WireRead, WireWrite,
};
use crate::protocol::messages::metadata::as_opt_str;
use crate::protocol::primitive::{
    cursor, decodes, enc_nullable_string, enc_string, opt_string, sp_i32, sp_i64, sp_i8,
    sp_nullable_string, sp_string, Cursor, Decoder, Encoder, Modeled, Result,
};
use crate::protocol::wire::{enc_i16, enc_i32, enc_i64};

verus! {

/// A partition whose offsets are asked for: its number, an unused byte, a
/// timestamp and the most offsets to return.
impl WireRead for (i32, i8, i64, i32) {
    open spec fn sp_read(c: Cursor, version: i16) -> ((i32, i8, i64, i32), Cursor) {
        let (partition, c) = sp_i32(c);
        if version == 0 {
            let (timestamp, c) = sp_i64(c);
            let (max_num, c) = sp_i32(c);
            ((partition, 0i8, timestamp, max_num), c)
        } else {
            let c = if version >= 4 {
                sp_i32(c).1
            } else {
                c
            };
            let (timestamp, c) = sp_i64(c);
            ((partition, 0i8, timestamp, 1i32), c)
        }
    }

    fn read(buf: &mut Decoder, version: i16) -> (r: Result<Self>) {
        let partition = buf.get_i32()?;
        if version == 0 {
            let timestamp = buf.get_i64()?;
            let max_num = buf.get_i32()?;
            Ok((partition, 0, timestamp, max_num))
        } else {
            if version >= 4 {
                let _current_leader_epoch = buf.get_i32()?;
            }
            let timestamp = buf.get_i64()?;
            Ok((partition, 0, timestamp, 1))
        }
    }
}

/// A topic and the partitions whose offsets are asked for.
impl WireRead for (String, Vec<(i32, i8, i64, i32)>) {
    open spec fn sp_read(c: Cursor, version: i16) -> (
        (Seq<char>, Seq<(i32, i8, i64, i32)>),
        Cursor,
    ) {
        let (topic, c) = sp_string(c);
        let (n, c) = sp_i32(c);
        let (parts, c) = sp_array::<(i32, i8, i64, i32)>(c, count(n), version);
        ((topic, parts), c)
    }

    fn read(buf: &mut Decoder, version: i16) -> (r: Result<Self>) {
        let topic = buf.get_string()?;
        let n = buf.get_i32()?;
        let parts = read_counted::<(i32, i8, i64, i32)>(buf, n, version)?;
        Ok((topic, parts))
    }
}

#[derive(Debug, Clone)]
pub struct ListOffsetsRequest {
    pub replica_id: i32,
    /// Of each topic: partition, an unused byte, timestamp, most offsets.
    pub topics: Vec<(String, Vec<(i32, i8, i64, i32)>)>,
}

/// What a [`ListOffsetsRequest`] stands for.
pub struct ListOffsetsRequestModel {
    pub replica_id: i32,
    pub topics: Seq<(Seq<char>, Seq<(i32, i8, i64, i32)>)>,
}

impl Modeled for ListOffsetsRequest {
    type M = ListOffsetsRequestModel;

    open spec fn model(&self) -> ListOffsetsRequestModel {
        ListOffsetsRequestModel { replica_id: self.replica_id, topics: self.topics.model() }
    }
}

/// The request at `c`; from version 2 on with an isolation level, which is
/// skipped.
pub open spec fn sp_list_offsets_request(c: Cursor, version: i16) -> (
    ListOffsetsRequestModel,
    Cursor,
) {
    let (replica_id, c) = sp_i32(c);
    let c = if version >= 2 {
        sp_i8(c).1
    } else {
        c
    };
    let (n, c) = sp_i32(c);
    let (topics, c) = sp_array::<(String, Vec<(i32, i8, i64, i32)>)>(c, count(n), version);
    (ListOffsetsRequestModel { replica_id, topics }, c)
}

impl ListOffsetsRequest {
    pub fn decode(buf: &mut Decoder, version: i16) -> (r: Result<Self>)
        ensures
            decodes(
                r,
                final(buf).rest(),
                sp_list_offsets_request(cursor(old(buf).rest()), version),
            ),
    {
        let replica_id = buf.get_i32()?;
        if version >= 2 {
            let _isolation = buf.get_i8()?;
        }
        let n = buf.get_i32()?;
        let topics = read_counted::<(String, Vec<(i32, i8, i64, i32)>)>(buf, n, version)?;
        Ok(ListOffsetsRequest { replica_id, topics })
    }
}

/// An offset to commit: partition, offset, metadata and the time of the commit,
/// -1 where the request does not carry it.
impl WireRead for (i32, i64, Option<String>, i64) {
    open spec fn sp_read(c: Cursor, version: i16) -> (
        (i32, i64, Option<Seq<char>>, i64),
        Cursor,
    ) {
        let (partition, c) = sp_i32(c);
        let (offset, c) = sp_i64(c);
        let (ts, c) = if version == 1 {
            sp_i64(c)
        } else {
            (-1i64, c)
        };
        let c = if version >= 6 {
            sp_i32(c).1
        } else {
            c
        };
        let (metadata, c) = sp_nullable_string(c);
        ((partition, offset, metadata, ts), c)
    }

    fn read(buf: &mut Decoder, version: i16) -> (r: Result<Self>) {
        let partition = buf.get_i32()?;
        let offset = buf.get_i64()?;
        let ts = if version == 1 { buf.get_i64()? } else { -1 };
        if version >= 6 {
            let _epoch = buf.get_i32()?;
        }
        let metadata = buf.get_nullable_string()?;
        Ok((partition, offset, metadata, ts))
    }
}

/// A topic and the offsets to commit in it.
impl WireRead for (String, Vec<(i32, i64, Option<String>, i64)>) {
    open spec fn sp_read(c: Cursor, version: i16) -> (
        (Seq<char>, Seq<(i32, i64, Option<Seq<char>>, i64)>),
        Cursor,
    ) {
        let (topic, c) = sp_string(c);
        let (n, c) = sp_i32(c);
        let (parts, c) = sp_array::<(i32, i64, Option<String>, i64)>(c, count(n), version);
        ((topic, parts), c)
    }

    fn read(buf: &mut Decoder, version: i16) -> (r: Result<Self>) {
        let topic = buf.get_string()?;
        let n = buf.get_i32()?;
        let parts = read_counted::<(i32, i64, Option<String>, i64)>(buf, n, version)?;
        Ok((topic, parts))
    }
}

#[derive(Debug, Clone)]
pub struct OffsetCommitRequest {
    pub group_id: String,
    pub generation_id: i32,
    pub member_id: String,
    /// Of each topic: partition, offset, metadata, time of the commit.
    pub topics: Vec<(String, Vec<(i32, i64, Option<String>, i64)>)>,
}

/// What an [`OffsetCommitRequest`] stands for.
pub struct OffsetCommitRequestModel {
    pub group_id: Seq<char>,
    pub generation_id: i32,
    pub member_id: Seq<char>,
    pub topics: Seq<(Seq<char>, Seq<(i32, i64, Option<Seq<char>>, i64)>)>,
}

impl Modeled for OffsetCommitRequest {
    type M = OffsetCommitRequestModel;

    open spec fn model(&self) -> OffsetCommitRequestModel {
        OffsetCommitRequestModel {
            group_id: self.group_id.model(),
            generation_id: self.generation_id,
            member_id: self.member_id.model(),
            topics: self.topics.model(),
        }
    }
}

/// The request at `c`. Version 0 names no member; a group instance id and a
/// retention time, there from versions 7 and 2 on, are skipped.
pub open spec fn sp_offset_commit_request(c: Cursor, version: i16) -> (
    OffsetCommitRequestModel,
    Cursor,
) {
    let (group_id, c) = sp_string(c);
    let (generation_id, c) = if version >= 1 {
        sp_i32(c)
    } else {
        (-1i32, c)
    };
    let (member_id, c) = if version >= 1 {
        sp_string(c)
    } else {
        (Seq::empty(), c)
    };
    let c = if version >= 7 {
        sp_nullable_string(c).1
    } else {
        c
    };
    let c = if version >= 2 {
        sp_i64(c).1
    } else {
        c
    };
    let (n, c) = sp_i32(c);
    let (topics, c) = sp_array::<(String, Vec<(i32, i64, Option<String>, i64)>)>(
        c,
        count(n),
        version,
    );
    (OffsetCommitRequestModel { group_id, generation_id, member_id, topics }, c)
}

impl OffsetCommitRequest {
    pub fn decode(buf: &mut Decoder, version: i16) -> (r: Result<Self>)
        ensures
            decodes(
                r,
                final(buf).rest(),
                sp_offset_commit_request(cursor(old(buf).rest()), version),
            ),
    {
        let group_id = buf.get_string()?;
        let generation_id = if version >= 1 { buf.get_i32()? } else { -1 };
        let member_id = if version >= 1 { buf.get_string()? } else { String::new() };
        if version >= 7 {
            let _group_instance_id = buf.get_nullable_string()?;
        }
        if version >= 2 {
            let _retention_time = buf.get_i64()?;
        }
        let n = buf.get_i32()?;
        let topics = read_counted::<(String, Vec<(i32, i64, Option<String>, i64)>)>(
            buf,
            n,
            version,
        )?;
        Ok(OffsetCommitRequest { group_id, generation_id, member_id, topics })
    }
}

/// A topic and partitions of it.
impl WireRead for (String, Vec<i32>) {
    open spec fn sp_read(c: Cursor, version: i16) -> ((Seq<char>, Seq<i32>), Cursor) {
        let (topic, c) = sp_string(c);
        let (n, c) = sp_i32(c);
        let (parts, c) = sp_array::<i32>(c, count(n), version);
        ((topic, parts), c)
    }

    fn read(buf: &mut Decoder, version: i16) -> (r: Result<Self>) {
        let topic = buf.get_string()?;
        let n = buf.get_i32()?;
        let parts = read_counted::<i32>(buf, n, version)?;
        Ok((topic, parts))
    }
}

#[derive(Debug, Clone)]
pub struct OffsetFetchRequest {
    pub group_id: String,
    pub topics: Vec<(String, Vec<i32>)>,
}

/// What an [`OffsetFetchRequest`] stands for.
pub struct OffsetFetchRequestModel {
    pub group_id: Seq<char>,
    pub topics: Seq<(Seq<char>, Seq<i32>)>,
}

impl Modeled for OffsetFetchRequest {
    type M = OffsetFetchRequestModel;

    open spec fn model(&self) -> OffsetFetchRequestModel {
        OffsetFetchRequestModel { group_id: self.group_id.model(), topics: self.topics.model() }
    }
}

/// The request at `c`.
pub open spec fn sp_offset_fetch_request(c: Cursor, version: i16) -> (
    OffsetFetchRequestModel,
    Cursor,
) {
    let (group_id, c) = sp_string(c);
    let (n, c) = sp_i32(c);
    let (topics, c) = sp_array::<(String, Vec<i32>)>(c, count(n), version);
    (OffsetFetchRequestModel { group_id, topics }, c)
}

impl OffsetFetchRequest {
    pub fn decode(buf: &mut Decoder, version: i16) -> (r: Result<Self>)
        ensures
            decodes(
                r,
                final(buf).rest(),
                sp_offset_fetch_request(cursor(old(buf).rest()), version),
            ),
    {
        let group_id = buf.get_string()?;
        let n = buf.get_i32()?;
        let topics = read_counted::<(String, Vec<i32>)>(buf, n, version)?;
        Ok(OffsetFetchRequest { group_id, topics })
    }
}

/// A committed offset: partition, offset, metadata and error code.
impl WireWrite for (i32, i64, Option<String>, i16) {
    open spec fn wire(&self, version: i16) -> Seq<u8> {
        enc_i32(self.0) + enc_i64(self.1) + enc_nullable_string(opt_string(self.2)) + enc_i16(
            self.3,
        )
    }

    fn write(&self, e: &mut Encoder, version: i16) {
        e.put_i32(self.0);
        e.put_i64(self.1);
        e.put_nullable_string(as_opt_str(&self.2));
        e.put_i16(self.3);
        assert(e@ =~= old(e)@ + self.wire(version));
    }
}

/// A topic and the offsets committed in it.
impl WireWrite for (String, Vec<(i32, i64, Option<String>, i16)>) {
    open spec fn wire(&self, version: i16) -> Seq<u8> {
        enc_string(self.0@) + wire_array(self.1@, version)
    }

    fn write(&self, e: &mut Encoder, version: i16) {
        e.put_string(self.0.as_str());
        write_array(e, &self.1, version);
        assert(e@ =~= old(e)@ + self.wire(version));
    }
}

#[derive(Debug, Clone)]
pub struct OffsetFetchResponse {
    pub throttle_time_ms: i32,
    pub topics: Vec<(String, Vec<(i32, i64, Option<String>, i16)>)>,
    pub error_code: i16,
}

impl OffsetFetchResponse {
    /// The bytes of the response.
    pub open spec fn encoded(&self, version: i16) -> Seq<u8> {
        enc_i32(self.throttle_time_ms) + wire_array(self.topics@, version) + only_if(
            version >= 2,
            enc_i16(self.error_code),
        )
    }

    pub fn encode(&self, e: &mut Encoder, version: i16)
        ensures
            final(e)@ == old(e)@ + self.encoded(version),
    {
        e.put_i32(self.throttle_time_ms);
        write_array(e, &self.topics, version);
        if version >= 2 {
            e.put_i16(self.error_code);
        }
        assert(e@ =~= old(e)@ + self.encoded(version));
    }
}

} // verus!
