//! Metadata: the brokers, the topics and their partitions.

use vstd::prelude::*;

use crate::protocol::codec::{
    count, only_if, read_array, read_counted, read_tagged_fields, sp_array, sp_tagged_fields,
    wire_array, write_array, WireRead, WireWrite,
};
use crate::protocol::primitive::{
    cursor, decodes, enc_nullable_string, enc_string, opt_string, sp_i32, sp_i8,
    sp_nullable_compact_string, sp_varint, Cursor, Decoder, Encoder, Modeled, Result,
};
use crate::protocol::wire::{enc_i16, enc_i32, enc_i8};

verus! {

#[derive(Debug, Clone)]
pub struct MetadataRequest {
    pub topics: Vec<String>,
    /// Whether the broker may create a topic that does not exist.
    pub allow_auto_topic_creation: bool,
}

/// What a [`MetadataRequest`] stands for.
pub struct MetadataRequestModel {
    pub topics: Seq<Seq<char>>,
    pub allow_auto_topic_creation: bool,
}

impl Modeled for MetadataRequest {
    type M = MetadataRequestModel;

    open spec fn model(&self) -> MetadataRequestModel {
        MetadataRequestModel {
            topics: self.topics.model(),
            allow_auto_topic_creation: self.allow_auto_topic_creation,
        }
    }
}

/// A topic name of a flexible request: a compact string that may be null, and
/// tagged fields.
impl WireRead for Option<String> {
    open spec fn sp_read(c: Cursor, version: i16) -> (Option<Seq<char>>, Cursor) {
        let (name, c) = sp_nullable_compact_string(c);
        (name, sp_tagged_fields(c).1)
    }

    fn read(buf: &mut Decoder, version: i16) -> (r: Result<Self>) {
        let name = buf.get_nullable_compact_string()?;
        let _skipped = read_tagged_fields(buf)?;
        Ok(name)
    }
}

/// The values that are there, in order.
pub open spec fn present<T>(xs: Seq<Option<T>>) -> Seq<T>
    decreases xs.len(),
{
    if xs.len() == 0 {
        Seq::empty()
    } else {
        match xs.last() {
            Some(x) => present(xs.drop_last()).push(x),
            None => present(xs.drop_last()),
        }
    }
}

/// The values that are there, in order.
fn take_present(xs: Vec<Option<String>>) -> (r: Vec<String>)
    ensures
        r.model() == present(xs.model()),
{
    let mut out: Vec<String> = Vec::new();
    let mut i: usize = 0;
    assert(out.model() =~= present(xs.model().take(0)));
    while i < xs.len()
        invariant
            i <= xs@.len(),
            out.model() == present(xs.model().take(i as int)),
        decreases xs@.len() - i,
    {
        let ghost before = out.model();
        assert(xs.model().take(i + 1).drop_last() =~= xs.model().take(i as int));
        if let Some(t) = &xs[i] {
            let t = t.clone();
            out.push(t);
            assert(out.model() =~= before.push(t.model()));
        }
        i = i + 1;
    }
    assert(xs.model().take(i as int) =~= xs.model());
    out
}

/// The request at `c`. A negative count asks for every topic, as does none.
pub open spec fn sp_metadata_request(c: Cursor, version: i16) -> (MetadataRequestModel, Cursor) {
    let (topics, c) = if version >= 9 {
        let (n, c) = sp_varint(c);
        let (names, c) = sp_array::<Option<String>>(c, (n as usize) as nat, version);
        (present(names), c)
    } else {
        let (n, c) = sp_i32(c);
        sp_array::<String>(c, count(n), version)
    };
    if 4 <= version <= 7 {
        let (b, c) = sp_i8(c);
        (MetadataRequestModel { topics, allow_auto_topic_creation: b != 0 }, c)
    } else {
        (MetadataRequestModel { topics, allow_auto_topic_creation: false }, c)
    }
}

impl MetadataRequest {
    pub fn decode(buf: &mut Decoder, version: i16) -> (r: Result<Self>)
        ensures
            decodes(r, final(buf).rest(), sp_metadata_request(cursor(old(buf).rest()), version)),
    {
        let topics: Vec<String> = if version >= 9 {
            let n = buf.get_unsigned_varint()?;
            let names = read_array::<Option<String>>(buf, n as usize, version)?;
            take_present(names)
        } else {
            let n = buf.get_i32()?;
            read_counted::<String>(buf, n, version)?
        };
        let allow_auto_topic_creation = if 4 <= version && version <= 7 {
            buf.get_i8()? != 0
        } else {
            false
        };
        Ok(MetadataRequest { topics, allow_auto_topic_creation })
    }
}

#[derive(Debug, Clone)]
pub struct PartitionMetadata {
    pub error_code: i16,
    pub partition_index: i32,
    pub leader_id: i32,
    pub replica_nodes: Vec<i32>,
    pub isr_nodes: Vec<i32>,
}

impl WireWrite for PartitionMetadata {
    open spec fn wire(&self, version: i16) -> Seq<u8> {
        enc_i16(self.error_code) + enc_i32(self.partition_index) + enc_i32(self.leader_id)
            + wire_array(self.replica_nodes@, version) + wire_array(self.isr_nodes@, version)
            + only_if(version >= 5, enc_i32(0))
    }

    fn write(&self, e: &mut Encoder, version: i16) {
        e.put_i16(self.error_code);
        e.put_i32(self.partition_index);
        e.put_i32(self.leader_id);
        write_array(e, &self.replica_nodes, version);
        write_array(e, &self.isr_nodes, version);
        if version >= 5 {
            // No offline replicas.
            e.put_i32(0);
        }
        assert(e@ =~= old(e)@ + self.wire(version));
    }
}

#[derive(Debug, Clone)]
pub struct TopicMetadata {
    pub error_code: i16,
    pub name: String,
    pub is_internal: bool,
    pub partitions: Vec<PartitionMetadata>,
}

/// A truth value as a number.
pub open spec fn flag(b: bool) -> i8 {
    if b {
        1
    } else {
        0
    }
}

impl WireWrite for TopicMetadata {
    open spec fn wire(&self, version: i16) -> Seq<u8> {
        enc_i16(self.error_code) + enc_string(self.name@) + only_if(
            version >= 1,
            enc_i8(flag(self.is_internal)),
        ) + wire_array(self.partitions@, version)
    }

    fn write(&self, e: &mut Encoder, version: i16) {
        e.put_i16(self.error_code);
        e.put_string(self.name.as_str());
        if version >= 1 {
            e.put_i8(if self.is_internal { 1 } else { 0 });
        }
        write_array(e, &self.partitions, version);
        assert(e@ =~= old(e)@ + self.wire(version));
    }
}

#[derive(Debug, Clone)]
pub struct BrokerMetadata {
    pub node_id: i32,
    pub host: String,
    pub port: i32,
}

impl WireWrite for BrokerMetadata {
    open spec fn wire(&self, version: i16) -> Seq<u8> {
        enc_i32(self.node_id) + enc_string(self.host@) + enc_i32(self.port) + only_if(
            version >= 1,
            enc_nullable_string(None),
        )
    }

    fn write(&self, e: &mut Encoder, version: i16) {
        e.put_i32(self.node_id);
        e.put_string(self.host.as_str());
        e.put_i32(self.port);
        if version >= 1 {
            // No rack.
            e.put_nullable_string(None);
        }
        assert(e@ =~= old(e)@ + self.wire(version));
    }
}

#[derive(Debug, Clone)]
pub struct MetadataResponse {
    pub brokers: Vec<BrokerMetadata>,
    pub cluster_id: Option<String>,
    pub controller_id: i32,
    pub topics: Vec<TopicMetadata>,
}

/// The string slice inside an optional string.
pub fn as_opt_str(s: &Option<String>) -> (r: Option<&str>)
    ensures
        crate::protocol::primitive::opt_str(r) == opt_string(*s),
{
    match s {
        Some(s) => Some(s.as_str()),
        None => None,
    }
}

impl MetadataResponse {
    /// The bytes of the response.
    pub open spec fn encoded(&self, version: i16) -> Seq<u8> {
        only_if(version >= 3, enc_i32(0)) + wire_array(self.brokers@, version) + only_if(
            version >= 2,
            enc_nullable_string(opt_string(self.cluster_id)),
        ) + only_if(version >= 1, enc_i32(self.controller_id)) + wire_array(self.topics@, version)
    }

    pub fn encode(&self, e: &mut Encoder, version: i16)
        ensures
            final(e)@ == old(e)@ + self.encoded(version),
    {
        if version >= 3 {
            // No throttling.
            e.put_i32(0);
        }
        write_array(e, &self.brokers, version);
        if version >= 2 {
            e.put_nullable_string(as_opt_str(&self.cluster_id));
        }
        if version >= 1 {
            e.put_i32(self.controller_id);
        }
        write_array(e, &self.topics, version);
        assert(e@ =~= old(e)@ + self.encoded(version));
    }
}

} // verus!
