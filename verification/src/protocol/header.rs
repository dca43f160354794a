//! The header in front of every request.

use vstd::prelude::*;

use crate::protocol::apikey;
use crate::protocol::codec::{read_tagged_fields, sp_tagged_fields};
use crate::protocol::primitive::{
    cursor, decodes, sp_i16, sp_i32, sp_nullable_string, Cursor, Decoder, Modeled, Result,
};

verus! {

#[derive(Debug, Clone)]
pub struct RequestHeader {
    pub api_key: i16,
    pub api_version: i16,
    pub correlation_id: i32,
    pub client_id: Option<String>,
}

/// What a [`RequestHeader`] stands for.
pub struct RequestHeaderModel {
    pub api_key: i16,
    pub api_version: i16,
    pub correlation_id: i32,
    pub client_id: Option<Seq<char>>,
}

impl Modeled for RequestHeader {
    type M = RequestHeaderModel;

    open spec fn model(&self) -> RequestHeaderModel {
        RequestHeaderModel {
            api_key: self.api_key,
            api_version: self.api_version,
            correlation_id: self.correlation_id,
            client_id: self.client_id.model(),
        }
    }
}

/// The first version of a request whose header may have tagged fields, for the
/// requests that have one. It decides the header alone, not how the body is read.
pub open spec fn flexible_since(api_key: i16) -> Option<i16> {
    if api_key == apikey::PRODUCE || api_key == apikey::METADATA {
        Some(9i16)
    } else if api_key == apikey::FETCH {
        Some(12i16)
    } else if api_key == apikey::OFFSET_COMMIT {
        Some(8i16)
    } else if api_key == apikey::LIST_OFFSETS || api_key == apikey::OFFSET_FETCH || api_key
        == apikey::JOIN_GROUP {
        Some(6i16)
    } else if api_key == apikey::LEAVE_GROUP || api_key == apikey::SYNC_GROUP || api_key
        == apikey::DESCRIBE_GROUPS || api_key == apikey::CREATE_TOPICS {
        Some(5i16)
    } else if api_key == apikey::FIND_COORDINATOR || api_key == apikey::HEARTBEAT || api_key
        == apikey::LIST_GROUPS || api_key == apikey::DELETE_TOPICS {
        Some(4i16)
    } else if api_key == apikey::INIT_PRODUCER_ID {
        Some(2i16)
    } else {
        None
    }
}

/// The version of a request's header. From 2 on, tagged fields follow the client
/// id. The header of an ApiVersions request never has them, so that any broker
/// can read it; that of a request in the traditional format has none either.
pub open spec fn header_version_of(api_key: i16, api_version: i16) -> i16 {
    if api_key == apikey::API_VERSIONS {
        1
    } else {
        match flexible_since(api_key) {
            Some(v) => if api_version < v {
                1
            } else {
                2
            },
            None => 2,
        }
    }
}

/// The version of a request's header.
pub fn header_version(api_key: i16, api_version: i16) -> (r: i16)
    ensures
        r == header_version_of(api_key, api_version),
{
    let since: i16 = match api_key {
        0 | 3 => 9,
        1 => 12,
        8 => 8,
        2 | 9 | 11 => 6,
        13 | 14 | 15 | 19 => 5,
        10 | 12 | 16 | 20 => 4,
        22 => 2,
        18 => return 1,
        _ => return 2,
    };
    if api_version < since {
        1
    } else {
        2
    }
}

/// The header at `c`.
pub open spec fn sp_request_header(c: Cursor) -> (RequestHeaderModel, Cursor) {
    let (api_key, c) = sp_i16(c);
    let (api_version, c) = sp_i16(c);
    let (correlation_id, c) = sp_i32(c);
    let (client_id, c) = sp_nullable_string(c);
    let c = if header_version_of(api_key, api_version) >= 2 {
        sp_tagged_fields(c).1
    } else {
        c
    };
    (RequestHeaderModel { api_key, api_version, correlation_id, client_id }, c)
}

impl RequestHeader {
    pub fn decode(buf: &mut Decoder, _api_version: i16) -> (r: Result<Self>)
        ensures
            decodes(r, final(buf).rest(), sp_request_header(cursor(old(buf).rest()))),
    {
        let api_key = buf.get_i16()?;
        let api_version = buf.get_i16()?;
        let correlation_id = buf.get_i32()?;
        let client_id = buf.get_nullable_string()?;
        if header_version(api_key, api_version) >= 2 {
            let _skipped = read_tagged_fields(buf)?;
        }
        Ok(RequestHeader { api_key, api_version, correlation_id, client_id })
    }
}

} // verus!
