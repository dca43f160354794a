//! CreateTopics and DeleteTopics.

use vstd::prelude::*;

use crate::protocol::codec::{count, read_counted, sp_array, WireRead};
use crate::protocol::primitive::{
    cursor, decodes, sp_i16, sp_i32, sp_i8, sp_nullable_string, sp_string, Cursor, Decoder, Modeled,
    Result,
};

verus! {

/// A configuration entry: a key and a value, empty where it is null.
impl WireRead for (String, String) {
    open spec fn sp_read(c: Cursor, version: i16) -> ((Seq<char>, Seq<char>), Cursor) {
        let (k, c) = sp_string(c);
        let (v, c) = sp_nullable_string(c);
        (
            (
                k,
                match v {
                    Some(v) => v,
                    None => Seq::empty(),
                },
            ),
            c,
        )
    }

    fn read(buf: &mut Decoder, version: i16) -> (r: Result<Self>) {
        let k = buf.get_string()?;
        let v = match buf.get_nullable_string()? {
            Some(v) => v,
            None => String::new(),
        };
        Ok((k, v))
    }
}

/// A topic to create: name, number of partitions, replication factor and
/// configuration.
impl WireRead for (String, i32, i16, Vec<(String, String)>) {
    open spec fn sp_read(c: Cursor, version: i16) -> (
        (Seq<char>, i32, i16, Seq<(Seq<char>, Seq<char>)>),
        Cursor,
    ) {
        let (name, c) = sp_string(c);
        let (num_partitions, c) = sp_i32(c);
        let (rf, c) = sp_i16(c);
        let (n, c) = sp_i32(c);
        let (configs, c) = sp_array::<(String, String)>(c, count(n), version);
        ((name, num_partitions, rf, configs), c)
    }

    fn read(buf: &mut Decoder, version: i16) -> (r: Result<Self>) {
        let name = buf.get_string()?;
        let num_partitions = buf.get_i32()?;
        let rf = buf.get_i16()?;
        let n = buf.get_i32()?;
        let configs = read_counted::<(String, String)>(buf, n, version)?;
        Ok((name, num_partitions, rf, configs))
    }
}

#[derive(Debug, Clone)]
pub struct CreateTopicsRequest {
    /// Name, number of partitions, replication factor and configuration of each.
    pub topics: Vec<(String, i32, i16, Vec<(String, String)>)>,
    pub timeout_ms: i32,
    pub validate_only: bool,
}

/// What a [`CreateTopicsRequest`] stands for.
pub struct CreateTopicsRequestModel {
    pub topics: Seq<(Seq<char>, i32, i16, Seq<(Seq<char>, Seq<char>)>)>,
    pub timeout_ms: i32,
    pub validate_only: bool,
}

impl Modeled for CreateTopicsRequest {
    type M = CreateTopicsRequestModel;

    open spec fn model(&self) -> CreateTopicsRequestModel {
        CreateTopicsRequestModel {
            topics: self.topics.model(),
            timeout_ms: self.timeout_ms,
            validate_only: self.validate_only,
        }
    }
}

/// The request at `c`. A byte that says to validate only may follow.
pub open spec fn sp_create_topics_request(c: Cursor, version: i16) -> (
    CreateTopicsRequestModel,
    Cursor,
) {
    let (n, c) = sp_i32(c);
    let (topics, c) = sp_array::<(String, i32, i16, Vec<(String, String)>)>(
        c,
        count(n),
        version,
    );
    let (timeout_ms, c) = sp_i32(c);
    if c.err is None && c.rest.len() > 0 {
        let (b, c) = sp_i8(c);
        (CreateTopicsRequestModel { topics, timeout_ms, validate_only: b != 0 }, c)
    } else {
        (CreateTopicsRequestModel { topics, timeout_ms, validate_only: false }, c)
    }
}

impl CreateTopicsRequest {
    pub fn decode(buf: &mut Decoder, version: i16) -> (r: Result<Self>)
        ensures
            decodes(
                r,
                final(buf).rest(),
                sp_create_topics_request(cursor(old(buf).rest()), version),
            ),
    {
        let n = buf.get_i32()?;
        let topics = read_counted::<(String, i32, i16, Vec<(String, String)>)>(buf, n, version)?;
        let timeout_ms = buf.get_i32()?;
        let validate_only = if buf.remaining() > 0 { buf.get_i8()? != 0 } else { false };
        Ok(CreateTopicsRequest { topics, timeout_ms, validate_only })
    }
}

#[derive(Debug, Clone)]
pub struct DeleteTopicsRequest {
    pub topic_names: Vec<String>,
    pub timeout_ms: i32,
}

/// What a [`DeleteTopicsRequest`] stands for.
pub struct DeleteTopicsRequestModel {
    pub topic_names: Seq<Seq<char>>,
    pub timeout_ms: i32,
}

impl Modeled for DeleteTopicsRequest {
    type M = DeleteTopicsRequestModel;

    open spec fn model(&self) -> DeleteTopicsRequestModel {
        DeleteTopicsRequestModel {
            topic_names: self.topic_names.model(),
            timeout_ms: self.timeout_ms,
        }
    }
}

/// The request at `c`.
pub open spec fn sp_delete_topics_request(c: Cursor, version: i16) -> (
    DeleteTopicsRequestModel,
    Cursor,
) {
    let (n, c) = sp_i32(c);
    let (topic_names, c) = sp_array::<String>(c, count(n), version);
    let (timeout_ms, c) = sp_i32(c);
    (DeleteTopicsRequestModel { topic_names, timeout_ms }, c)
}

impl DeleteTopicsRequest {
    pub fn decode(buf: &mut Decoder, version: i16) -> (r: Result<Self>)
        ensures
            decodes(
                r,
                final(buf).rest(),
                sp_delete_topics_request(cursor(old(buf).rest()), version),
            ),
    {
        let n = buf.get_i32()?;
        let topic_names = read_counted::<String>(buf, n, version)?;
        let timeout_ms = buf.get_i32()?;
        Ok(DeleteTopicsRequest { topic_names, timeout_ms })
    }
}

} // verus!
