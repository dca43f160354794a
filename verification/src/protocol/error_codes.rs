//! Error codes of the protocol.

use vstd::prelude::*;

verus! {

pub const NONE: i16 = 0;

pub const UNKNOWN_SERVER_ERROR: i16 = -1;

pub const OFFSET_OUT_OF_RANGE: i16 = 1;

pub const CORRUPT_MESSAGE: i16 = 2;

pub const UNKNOWN_TOPIC_OR_PARTITION: i16 = 3;

pub const LEADER_NOT_AVAILABLE: i16 = 5;

pub const NOT_LEADER_OR_FOLLOWER: i16 = 6;

pub const REQUEST_TIMED_OUT: i16 = 7;

pub const REPLICA_NOT_AVAILABLE: i16 = 9;

pub const INVALID_MESSAGE_SIZE: i16 = 10;

pub const MESSAGE_TOO_LARGE: i16 = 10;

pub const NETWORK_EXCEPTION: i16 = 13;

pub const GROUP_LOAD_IN_PROGRESS: i16 = 14;

pub const GROUP_COORDINATOR_NOT_AVAILABLE: i16 = 15;

pub const NOT_COORDINATOR: i16 = 16;

pub const INVALID_TOPIC_EXCEPTION: i16 = 17;

pub const RECORD_LIST_TOO_LARGE: i16 = 18;

pub const NOT_ENOUGH_REPLICAS: i16 = 19;

pub const NOT_ENOUGH_REPLICAS_AFTER_APPEND: i16 = 20;

pub const INVALID_REQUIRED_ACKS: i16 = 21;

pub const ILLEGAL_GENERATION: i16 = 22;

pub const INCONSISTENT_GROUP_PROTOCOL: i16 = 23;

pub const INVALID_GROUP_ID: i16 = 24;

pub const UNKNOWN_MEMBER_ID: i16 = 25;

pub const INVALID_SESSION_TIMEOUT: i16 = 26;

pub const REBALANCE_IN_PROGRESS: i16 = 27;

pub const UNSUPPORTED_VERSION: i16 = 35;

pub const TOPIC_ALREADY_EXISTS: i16 = 36;

pub const INVALID_PARTITIONS: i16 = 37;

pub const INVALID_REPLICATION_FACTOR: i16 = 38;

pub const OUT_OF_ORDER_SEQUENCE_NUMBER: i16 = 45;

pub const DUPLICATE_SEQUENCE_NUMBER: i16 = 46;

pub const UNSUPPORTED_COMPRESSION_TYPE: i16 = 76;

pub const UNKNOWN_MEMBER_ID_NEW: i16 = 82;

pub const FETCH_SESSION_ID_NOT_FOUND: i16 = 89;

} // verus!
