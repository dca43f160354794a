//! Produce: append record batches to partitions.

use bytes::Bytes;
use vstd::prelude::*;

use crate::protocol::codec::{
    only_if, read_array, read_bytes, sp_array, sp_bytes, wire_array, write_array, WireRead,
    WireWrite,
};
use crate::protocol::primitive::{
    cursor, decodes, enc_string, sp_compact_string, sp_i16, sp_i32, sp_nullable_compact_string,
    sp_nullable_string, sp_string, sp_take, sp_varint, Cursor, Decoder, Encoder, Modeled, Result,
};
use crate::protocol::wire::{enc_i16, enc_i32, enc_i64};

verus! {

#[derive(Debug, Clone)]
pub struct ProducePartitionData {
    pub partition_index: i32,
    /// Record batches as they came.
    pub records: Bytes,
}

/// What a [`ProducePartitionData`] stands for.
pub struct ProducePartitionModel {
    pub partition_index: i32,
    pub records: Seq<u8>,
}

impl Modeled for ProducePartitionData {
    type M = ProducePartitionModel;

    open spec fn model(&self) -> ProducePartitionModel {
        ProducePartitionModel {
            partition_index: self.partition_index,
            records: self.records.model(),
        }
    }
}

/// One less, but no less than zero.
pub open spec fn less_one(n: usize) -> usize {
    if n == 0 {
        0
    } else {
        (n - 1) as usize
    }
}

impl WireRead for ProducePartitionData {
    open spec fn sp_read(c: Cursor, version: i16) -> (ProducePartitionModel, Cursor) {
        let (partition_index, c) = sp_i32(c);
        let (records, c) = if version >= 9 {
            let (len, c) = sp_varint(c);
            sp_take(c, less_one(len as usize))
        } else {
            sp_bytes(c)
        };
        (ProducePartitionModel { partition_index, records }, c)
    }

    fn read(buf: &mut Decoder, version: i16) -> (r: Result<Self>) {
        let partition_index = buf.get_i32()?;
        let records = if version >= 9 {
            let len: usize = buf.get_unsigned_varint()? as usize;
            buf.get_bytes(if len == 0 { 0 } else { len - 1 })?
        } else {
            read_bytes(buf)?
        };
        Ok(ProducePartitionData { partition_index, records })
    }
}

#[derive(Debug, Clone)]
pub struct ProduceTopicData {
    pub topic: String,
    pub partitions: Vec<ProducePartitionData>,
}

/// What a [`ProduceTopicData`] stands for.
pub struct ProduceTopicModel {
    pub topic: Seq<char>,
    pub partitions: Seq<ProducePartitionModel>,
}

impl Modeled for ProduceTopicData {
    type M = ProduceTopicModel;

    open spec fn model(&self) -> ProduceTopicModel {
        ProduceTopicModel { topic: self.topic.model(), partitions: self.partitions.model() }
    }
}

/// An array length, four bytes or, from version `flexible` on, a varint.
pub open spec fn sp_length(c: Cursor, version: i16, flexible: i16) -> (usize, Cursor) {
    if version >= flexible {
        let (n, c) = sp_varint(c);
        (n as usize, c)
    } else {
        let (n, c) = sp_i32(c);
        (n as usize, c)
    }
}

/// A name, compact from version `flexible` on.
pub open spec fn sp_name(c: Cursor, version: i16, flexible: i16) -> (Seq<char>, Cursor) {
    if version >= flexible {
        sp_compact_string(c)
    } else {
        sp_string(c)
    }
}

/// Reads an array length.
pub fn read_length(buf: &mut Decoder, version: i16, flexible: i16) -> (r: Result<usize>)
    ensures
        ({
            let out = sp_length(cursor(old(buf).rest()), version, flexible);
            &&& final(buf).rest() == out.1.rest
            &&& match r {
                Ok(n) => out.1.err is None && n == out.0,
                Err(e) => e is Decode && out.1.err == Some(e->Decode_0),
            }
        }),
{
    if version >= flexible {
        Ok(buf.get_unsigned_varint()? as usize)
    } else {
        Ok(buf.get_i32()? as usize)
    }
}

/// Reads a name.
pub fn read_name(buf: &mut Decoder, version: i16, flexible: i16) -> (r: Result<String>)
    ensures
        decodes(r, final(buf).rest(), sp_name(cursor(old(buf).rest()), version, flexible)),
{
    if version >= flexible {
        buf.get_compact_string()
    } else {
        buf.get_string()
    }
}

impl WireRead for ProduceTopicData {
    open spec fn sp_read(c: Cursor, version: i16) -> (ProduceTopicModel, Cursor) {
        let (topic, c) = sp_name(c, version, 9);
        let (n, c) = sp_length(c, version, 9);
        let (partitions, c) = sp_array::<ProducePartitionData>(c, n as nat, version);
        (ProduceTopicModel { topic, partitions }, c)
    }

    fn read(buf: &mut Decoder, version: i16) -> (r: Result<Self>) {
        let topic = read_name(buf, version, 9)?;
        let n = read_length(buf, version, 9)?;
        let partitions = read_array::<ProducePartitionData>(buf, n, version)?;
        Ok(ProduceTopicData { topic, partitions })
    }
}

#[derive(Debug, Clone)]
pub struct ProduceRequest {
    pub transactional_id: Option<String>,
    pub acks: i16,
    pub timeout_ms: i32,
    pub topic_data: Vec<ProduceTopicData>,
}

/// What a [`ProduceRequest`] stands for.
pub struct ProduceRequestModel {
    pub transactional_id: Option<Seq<char>>,
    pub acks: i16,
    pub timeout_ms: i32,
    pub topic_data: Seq<ProduceTopicModel>,
}

impl Modeled for ProduceRequest {
    type M = ProduceRequestModel;

    open spec fn model(&self) -> ProduceRequestModel {
        ProduceRequestModel {
            transactional_id: self.transactional_id.model(),
            acks: self.acks,
            timeout_ms: self.timeout_ms,
            topic_data: self.topic_data.model(),
        }
    }
}

/// The request at `c`. The transactional id is there from version 3 on, and
/// lengths are compact from version 9 on.
pub open spec fn sp_produce_request(c: Cursor, version: i16) -> (ProduceRequestModel, Cursor) {
    let (transactional_id, c) = if version >= 9 {
        sp_nullable_compact_string(c)
    } else if version >= 3 {
        sp_nullable_string(c)
    } else {
        (None, c)
    };
    let (acks, c) = sp_i16(c);
    let (timeout_ms, c) = sp_i32(c);
    let (n, c) = sp_length(c, version, 9);
    let (topic_data, c) = sp_array::<ProduceTopicData>(c, n as nat, version);
    (ProduceRequestModel { transactional_id, acks, timeout_ms, topic_data }, c)
}

impl ProduceRequest {
    pub fn decode(buf: &mut Decoder, version: i16) -> (r: Result<Self>)
        ensures
            decodes(r, final(buf).rest(), sp_produce_request(cursor(old(buf).rest()), version)),
    {
        let transactional_id = if version >= 9 {
            buf.get_nullable_compact_string()?
        } else if version >= 3 {
            buf.get_nullable_string()?
        } else {
            None
        };
        let acks = buf.get_i16()?;
        let timeout_ms = buf.get_i32()?;
        let n = read_length(buf, version, 9)?;
        let topic_data = read_array::<ProduceTopicData>(buf, n, version)?;
        Ok(ProduceRequest { transactional_id, acks, timeout_ms, topic_data })
    }
}

#[derive(Debug, Clone, Copy, PartialEq, Eq)]
pub struct ProduceResponsePartition {
    pub partition_index: i32,
    pub error_code: i16,
    pub base_offset: i64,
    pub log_append_time_ms: i64,
    pub log_start_offset: i64,
}

impl WireWrite for ProduceResponsePartition {
    open spec fn wire(&self, version: i16) -> Seq<u8> {
        enc_i32(self.partition_index) + enc_i16(self.error_code) + enc_i64(self.base_offset)
            + only_if(version >= 2, enc_i64(self.log_append_time_ms)) + only_if(
            version >= 5,
            enc_i64(self.log_start_offset),
        )
    }

    fn write(&self, e: &mut Encoder, version: i16) {
        e.put_i32(self.partition_index);
        e.put_i16(self.error_code);
        e.put_i64(self.base_offset);
        if version >= 2 {
            e.put_i64(self.log_append_time_ms);
        }
        if version >= 5 {
            e.put_i64(self.log_start_offset);
        }
        assert(e@ =~= old(e)@ + self.wire(version));
    }
}

#[derive(Debug, Clone)]
pub struct ProduceResponseTopic {
    pub topic: String,
    pub partitions: Vec<ProduceResponsePartition>,
}

impl WireWrite for ProduceResponseTopic {
    open spec fn wire(&self, version: i16) -> Seq<u8> {
        enc_string(self.topic@) + wire_array(self.partitions@, version)
    }

    fn write(&self, e: &mut Encoder, version: i16) {
        e.put_string(self.topic.as_str());
        write_array(e, &self.partitions, version);
        assert(e@ =~= old(e)@ + self.wire(version));
    }
}

#[derive(Debug, Clone)]
pub struct ProduceResponse {
    pub topics: Vec<ProduceResponseTopic>,
    pub throttle_time_ms: i32,
}

impl ProduceResponse {
    /// The bytes of the response.
    pub open spec fn encoded(&self, version: i16) -> Seq<u8> {
        wire_array(self.topics@, version) + only_if(version >= 1, enc_i32(self.throttle_time_ms))
    }

    pub fn encode(&self, e: &mut Encoder, version: i16)
        ensures
            final(e)@ == old(e)@ + self.encoded(version),
    {
        write_array(e, &self.topics, version);
        if version >= 1 {
            e.put_i32(self.throttle_time_ms);
        }
        assert(e@ =~= old(e)@ + self.encoded(version));
    }
}

} // verus!
