//! ApiVersions: which versions of which requests the broker answers.

use vstd::prelude::*;

use crate::protocol::codec::{
    only_if, wire_all, wire_array, write_all, write_array, write_tagged_fields, WireWrite,
};
use crate::protocol::primitive::{
    cursor, decodes, sp_nullable_compact_string, Cursor, Decoder, Encoder, Modeled, Result,
};
use crate::protocol::wire::{enc_i16, enc_i32, uvarint};

verus! {

#[derive(Debug, Clone)]
pub struct ApiVersionsRequest {
    pub client_software_name: Option<String>,
    pub client_software_version: Option<String>,
}

/// What an [`ApiVersionsRequest`] stands for.
pub struct ApiVersionsRequestModel {
    pub client_software_name: Option<Seq<char>>,
    pub client_software_version: Option<Seq<char>>,
}

impl Modeled for ApiVersionsRequest {
    type M = ApiVersionsRequestModel;

    open spec fn model(&self) -> ApiVersionsRequestModel {
        ApiVersionsRequestModel {
            client_software_name: self.client_software_name.model(),
            client_software_version: self.client_software_version.model(),
        }
    }
}

/// The request at `c`: name and version of the client from version 3 on.
pub open spec fn sp_api_versions_request(c: Cursor, version: i16) -> (
    ApiVersionsRequestModel,
    Cursor,
) {
    if version >= 3 {
        let (client_software_name, c) = sp_nullable_compact_string(c);
        let (client_software_version, c) = sp_nullable_compact_string(c);
        (ApiVersionsRequestModel { client_software_name, client_software_version }, c)
    } else {
        (
            ApiVersionsRequestModel { client_software_name: None, client_software_version: None },
            c,
        )
    }
}

impl ApiVersionsRequest {
    pub fn decode(buf: &mut Decoder, version: i16) -> (r: Result<Self>)
        ensures
            decodes(
                r,
                final(buf).rest(),
                sp_api_versions_request(cursor(old(buf).rest()), version),
            ),
    {
        let client_software_name = if version >= 3 {
            buf.get_nullable_compact_string()?
        } else {
            None
        };
        let client_software_version = if version >= 3 {
            buf.get_nullable_compact_string()?
        } else {
            None
        };
        Ok(ApiVersionsRequest { client_software_name, client_software_version })
    }
}

#[derive(Debug, Clone, Copy, PartialEq, Eq)]
pub struct ApiVersion {
    pub api_key: i16,
    pub min_version: i16,
    pub max_version: i16,
}

impl WireWrite for ApiVersion {
    open spec fn wire(&self, version: i16) -> Seq<u8> {
        enc_i16(self.api_key) + enc_i16(self.min_version) + enc_i16(self.max_version) + only_if(
            version >= 3,
            uvarint(0),
        )
    }

    fn write(&self, e: &mut Encoder, version: i16) {
        e.put_i16(self.api_key);
        e.put_i16(self.min_version);
        e.put_i16(self.max_version);
        if version >= 3 {
            write_tagged_fields(e);
        }
        assert(e@ =~= old(e)@ + self.wire(version));
    }
}

#[derive(Debug, Clone)]
pub struct ApiVersionsResponse {
    pub error_code: i16,
    pub api_keys: Vec<ApiVersion>,
    pub throttle_time_ms: i32,
}

impl ApiVersionsResponse {
    /// The bytes of the response.
    pub open spec fn encoded(&self, version: i16) -> Seq<u8> {
        let keys = if version >= 3 {
            uvarint((self.api_keys@.len() as u64).wrapping_add(1)) + wire_all(
                self.api_keys@,
                version,
            )
        } else {
            wire_array(self.api_keys@, version)
        };
        enc_i16(self.error_code) + keys + enc_i32(self.throttle_time_ms) + only_if(
            version >= 3,
            uvarint(0),
        )
    }

    pub fn encode(&self, e: &mut Encoder, version: i16)
        ensures
            final(e)@ == old(e)@ + self.encoded(version),
    {
        e.put_i16(self.error_code);
        if version >= 3 {
            e.put_unsigned_varint((self.api_keys.len() as u64).wrapping_add(1));
            write_all(e, &self.api_keys, version);
        } else {
            write_array(e, &self.api_keys, version);
        }
        e.put_i32(self.throttle_time_ms);
        if version >= 3 {
            write_tagged_fields(e);
        }
        assert(e@ =~= old(e)@ + self.encoded(version));
    }
}

} // verus!
