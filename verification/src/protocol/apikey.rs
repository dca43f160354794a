//! The numbers of the requests.

use vstd::prelude::*;

verus! {

pub const PRODUCE: i16 = 0;

pub const FETCH: i16 = 1;

pub const LIST_OFFSETS: i16 = 2;

pub const METADATA: i16 = 3;

pub const OFFSET_COMMIT: i16 = 8;

pub const OFFSET_FETCH: i16 = 9;

pub const FIND_COORDINATOR: i16 = 10;

pub const JOIN_GROUP: i16 = 11;

pub const HEARTBEAT: i16 = 12;

pub const LEAVE_GROUP: i16 = 13;

pub const SYNC_GROUP: i16 = 14;

pub const DESCRIBE_GROUPS: i16 = 15;

pub const LIST_GROUPS: i16 = 16;

pub const API_VERSIONS: i16 = 18;

pub const CREATE_TOPICS: i16 = 19;

pub const DELETE_TOPICS: i16 = 20;

pub const INIT_PRODUCER_ID: i16 = 22;

} // verus!
