//! Fetch: read record batches from partitions.

use bytes::Bytes;
use vstd::prelude::*;

use crate::buf::{bytes_len, bytes_slice, bytes_view};
use crate::protocol::codec::{
    only_if, read_array, sp_array, wire_array, write_array, WireRead, WireWrite,
};
use crate::protocol::messages::produce::{read_length, read_name, sp_length, sp_name};
use crate::protocol::primitive::{
    cursor, decodes, enc_string, sp_i32, sp_i64, sp_i8, sp_varint, Cursor, Decoder, Encoder,
    Modeled, Result,
};
use crate::protocol::wire::{enc_i16, enc_i32, enc_i64};

verus! {

#[derive(Debug, Clone, Copy, PartialEq, Eq)]
pub struct FetchPartition {
    pub partition_index: i32,
    pub current_leader_epoch: i32,
    pub fetch_offset: i64,
    pub log_start_offset: i64,
    pub partition_max_bytes: i32,
}

impl Modeled for FetchPartition {
    type M = FetchPartition;

    open spec fn model(&self) -> FetchPartition {
        *self
    }
}

impl WireRead for FetchPartition {
    open spec fn sp_read(c: Cursor, version: i16) -> (FetchPartition, Cursor) {
        let (partition_index, c) = sp_i32(c);
        let (current_leader_epoch, c) = if version >= 9 {
            sp_i32(c)
        } else {
            (-1i32, c)
        };
        let (fetch_offset, c) = sp_i64(c);
        let (log_start_offset, c) = if version >= 5 {
            sp_i64(c)
        } else {
            (-1i64, c)
        };
        let (partition_max_bytes, c) = sp_i32(c);
        (
            FetchPartition {
                partition_index,
                current_leader_epoch,
                fetch_offset,
                log_start_offset,
                partition_max_bytes,
            },
            c,
        )
    }

    fn read(buf: &mut Decoder, version: i16) -> (r: Result<Self>) {
        let partition_index = buf.get_i32()?;
        let current_leader_epoch = if version >= 9 { buf.get_i32()? } else { -1 };
        let fetch_offset = buf.get_i64()?;
        let log_start_offset = if version >= 5 { buf.get_i64()? } else { -1 };
        let partition_max_bytes = buf.get_i32()?;
        Ok(
            FetchPartition {
                partition_index,
                current_leader_epoch,
                fetch_offset,
                log_start_offset,
                partition_max_bytes,
            },
        )
    }
}

#[derive(Debug, Clone)]
pub struct FetchTopic {
    pub topic: String,
    pub partitions: Vec<FetchPartition>,
}

/// What a [`FetchTopic`] stands for.
pub struct FetchTopicModel {
    pub topic: Seq<char>,
    pub partitions: Seq<FetchPartition>,
}

impl Modeled for FetchTopic {
    type M = FetchTopicModel;

    open spec fn model(&self) -> FetchTopicModel {
        FetchTopicModel { topic: self.topic.model(), partitions: self.partitions.model() }
    }
}

impl WireRead for FetchTopic {
    open spec fn sp_read(c: Cursor, version: i16) -> (FetchTopicModel, Cursor) {
        let (topic, c) = sp_name(c, version, 15);
        let (n, c) = sp_length(c, version, 15);
        let (partitions, c) = sp_array::<FetchPartition>(c, n as nat, version);
        (FetchTopicModel { topic, partitions }, c)
    }

    fn read(buf: &mut Decoder, version: i16) -> (r: Result<Self>) {
        let topic = read_name(buf, version, 15)?;
        let n = read_length(buf, version, 15)?;
        let partitions = read_array::<FetchPartition>(buf, n, version)?;
        Ok(FetchTopic { topic, partitions })
    }
}

#[derive(Debug, Clone)]
pub struct FetchRequest {
    pub replica_id: i32,
    pub max_wait_ms: i32,
    pub min_bytes: i32,
    pub max_bytes: i32,
    pub isolation_level: i8,
    pub topics: Vec<FetchTopic>,
}

/// What a [`FetchRequest`] stands for.
pub struct FetchRequestModel {
    pub replica_id: i32,
    pub max_wait_ms: i32,
    pub min_bytes: i32,
    pub max_bytes: i32,
    pub isolation_level: i8,
    pub topics: Seq<FetchTopicModel>,
}

impl Modeled for FetchRequest {
    type M = FetchRequestModel;

    open spec fn model(&self) -> FetchRequestModel {
        FetchRequestModel {
            replica_id: self.replica_id,
            max_wait_ms: self.max_wait_ms,
            min_bytes: self.min_bytes,
            max_bytes: self.max_bytes,
            isolation_level: self.isolation_level,
            topics: self.topics.model(),
        }
    }
}

/// The request at `c`. Bound and isolation level are there from versions 3 and 4
/// on, a fetch session, which is skipped, from version 7 on, and the flexible
/// format from version 15 on.
pub open spec fn sp_fetch_request(c: Cursor, version: i16) -> (FetchRequestModel, Cursor) {
    let c = if version >= 15 {
        sp_varint(c).1
    } else {
        c
    };
    let (replica_id, c) = sp_i32(c);
    let (max_wait_ms, c) = sp_i32(c);
    let (min_bytes, c) = sp_i32(c);
    let (max_bytes, c) = if version >= 3 {
        sp_i32(c)
    } else {
        (0i32, c)
    };
    let (isolation_level, c) = if version >= 4 {
        sp_i8(c)
    } else {
        (0i8, c)
    };
    let c = if version >= 7 {
        sp_i32(sp_i32(c).1).1
    } else {
        c
    };
    let (n, c) = sp_length(c, version, 15);
    let (topics, c) = sp_array::<FetchTopic>(c, n as nat, version);
    (
        FetchRequestModel {
            replica_id,
            max_wait_ms,
            min_bytes,
            max_bytes,
            isolation_level,
            topics,
        },
        c,
    )
}

impl FetchRequest {
    pub fn decode(buf: &mut Decoder, version: i16) -> (r: Result<Self>)
        ensures
            decodes(r, final(buf).rest(), sp_fetch_request(cursor(old(buf).rest()), version)),
    {
        if version >= 15 {
            let _n = buf.get_unsigned_varint()?;
        }
        let replica_id = buf.get_i32()?;
        let max_wait_ms = buf.get_i32()?;
        let min_bytes = buf.get_i32()?;
        let max_bytes = if version >= 3 { buf.get_i32()? } else { 0 };
        let isolation_level = if version >= 4 { buf.get_i8()? } else { 0 };
        if version >= 7 {
            let _session_id = buf.get_i32()?;
            let _session_epoch = buf.get_i32()?;
        }
        let n = read_length(buf, version, 15)?;
        let topics = read_array::<FetchTopic>(buf, n, version)?;
        Ok(FetchRequest { replica_id, max_wait_ms, min_bytes, max_bytes, isolation_level, topics })
    }
}

#[derive(Debug, Clone, Copy, PartialEq, Eq)]
pub struct AbortedTransaction {
    pub producer_id: i64,
    pub first_offset: i64,
}

impl WireWrite for AbortedTransaction {
    open spec fn wire(&self, version: i16) -> Seq<u8> {
        enc_i64(self.producer_id) + enc_i64(self.first_offset)
    }

    fn write(&self, e: &mut Encoder, version: i16) {
        e.put_i64(self.producer_id);
        e.put_i64(self.first_offset);
        assert(e@ =~= old(e)@ + self.wire(version));
    }
}

#[derive(Debug, Clone)]
pub struct FetchResponsePartition {
    pub partition_index: i32,
    pub error_code: i16,
    pub high_watermark: i64,
    pub last_stable_offset: i64,
    pub log_start_offset: i64,
    pub aborted_transactions: Vec<AbortedTransaction>,
    pub records: Bytes,
}

/// A four-byte length, cut off at 32 bits, and the bytes.
pub open spec fn enc_bytes(b: Seq<u8>) -> Seq<u8> {
    enc_i32(b.len() as i32) + b
}

/// Appends a four-byte length and the bytes.
pub fn put_sized_bytes(e: &mut Encoder, b: &Bytes)
    ensures
        final(e)@ == old(e)@ + enc_bytes(bytes_view(*b)),
{
    e.put_i32(bytes_len(b) as i32);
    e.put_bytes(bytes_slice(b));
    assert(e@ =~= old(e)@ + enc_bytes(bytes_view(*b)));
}

impl WireWrite for FetchResponsePartition {
    open spec fn wire(&self, version: i16) -> Seq<u8> {
        enc_i32(self.partition_index) + enc_i16(self.error_code) + enc_i64(self.high_watermark)
            + only_if(version >= 4, enc_i64(self.last_stable_offset)) + only_if(
            version >= 5,
            enc_i64(self.log_start_offset),
        ) + only_if(version >= 4, wire_array(self.aborted_transactions@, version)) + enc_bytes(
            bytes_view(self.records),
        )
    }

    fn write(&self, e: &mut Encoder, version: i16) {
        e.put_i32(self.partition_index);
        e.put_i16(self.error_code);
        e.put_i64(self.high_watermark);
        if version >= 4 {
            e.put_i64(self.last_stable_offset);
        }
        if version >= 5 {
            e.put_i64(self.log_start_offset);
        }
        if version >= 4 {
            write_array(e, &self.aborted_transactions, version);
        }
        put_sized_bytes(e, &self.records);
        assert(e@ =~= old(e)@ + self.wire(version));
    }
}

#[derive(Debug, Clone)]
pub struct FetchResponseTopic {
    pub topic: String,
    pub partitions: Vec<FetchResponsePartition>,
}

impl WireWrite for FetchResponseTopic {
    open spec fn wire(&self, version: i16) -> Seq<u8> {
        enc_string(self.topic@) + wire_array(self.partitions@, version)
    }

    fn write(&self, e: &mut Encoder, version: i16) {
        e.put_string(self.topic.as_str());
        write_array(e, &self.partitions, version);
        assert(e@ =~= old(e)@ + self.wire(version));
    }
}

#[derive(Debug, Clone)]
pub struct FetchResponse {
    pub throttle_time_ms: i32,
    pub topics: Vec<FetchResponseTopic>,
}

impl FetchResponse {
    /// The bytes of the response.
    pub open spec fn encoded(&self, version: i16) -> Seq<u8> {
        enc_i32(self.throttle_time_ms) + wire_array(self.topics@, version)
    }

    pub fn encode(&self, e: &mut Encoder, version: i16)
        ensures
            final(e)@ == old(e)@ + self.encoded(version),
    {
        e.put_i32(self.throttle_time_ms);
        write_array(e, &self.topics, version);
        assert(e@ =~= old(e)@ + self.encoded(version));
    }
}

} // verus!
