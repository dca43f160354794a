//! What holds of the wire format: the numbers in it, where the fields of a batch
//! stand, and that what a client writes is what is read.

use bytes::Bytes;
use vstd::prelude::*;
use vstd::utf8::encode_utf8;

use crate::protocol::{apikey, error_codes};
use crate::protocol::codec::{count, sp_array, sp_bytes, wire_all, wire_array, WireRead, WireWrite};
use crate::protocol::compression::{compression_of, decompressed, Compression};
use crate::protocol::header::{
    flexible_since, header_version_of, sp_request_header, RequestHeaderModel,
};
use crate::protocol::messages::fetch::{
    sp_fetch_request, FetchPartition, FetchRequestModel, FetchTopic, FetchTopicModel,
};
use crate::protocol::messages::groups::{
    sp_describe_groups_request, sp_heartbeat_request, sp_join_group_request, sp_leave_group_request,
    sp_list_groups_request, sp_sync_group_request, HeartbeatRequestModel, JoinGroupRequestModel,
    LeaveGroupRequestModel, SyncGroupRequestModel,
};
use crate::protocol::messages::metadata::{present, sp_metadata_request, MetadataRequestModel};
use crate::protocol::messages::offsets::{
    sp_list_offsets_request, sp_offset_commit_request, sp_offset_fetch_request,
    ListOffsetsRequestModel, OffsetCommitRequestModel, OffsetFetchRequestModel,
};
use crate::protocol::messages::produce::{
    sp_produce_request, ProducePartitionData, ProducePartitionModel, ProduceRequestModel,
    ProduceTopicData, ProduceTopicModel,
};
use crate::protocol::messages::topics::{
    sp_create_topics_request, sp_delete_topics_request, CreateTopicsRequestModel,
    DeleteTopicsRequestModel,
};
use crate::protocol::primitive::{
    cursor, enc_compact_nullable_bytes, enc_compact_string, enc_nullable_compact_string,
    enc_nullable_string, enc_string, law_bytes_round_trip, law_i16_round_trip, law_i32_round_trip,
    law_i64_round_trip, law_i8_round_trip, law_nullable_string_round_trip, law_string_round_trip,
    sp_i32, sp_take, Cursor, DecodeError,
};
use crate::protocol::recordbatch::{
    algorithm, batch_of, compression_bits, crc32, enc_batch, enc_body, enc_field, enc_header,
    enc_headers, enc_record, enc_records, lemma_field, parsed, record_fits, sp_field, sp_head,
    stored_crc_differs, Attribute, BatchModel, Record, RecordModel,
};
use crate::protocol::wire::{
    be, be_value, enc_i16, enc_i32, enc_i64, enc_i8, lemma_be_len, lemma_be_round_trip,
    lemma_int_round_trip, lemma_pow256, signed16, signed32, signed64, signed8, unzigzag, uvarint,
    zigzag,
};
use crate::supported::{law_supported_are_not_compact, SUPPORTED_API_KEYS};

verus! {

// ---------------------------------------------------------------------------
// Numbers

/// The numbers by which clients know the errors that they are answered.
pub proof fn law_error_numbers()
    ensures
        error_codes::NONE == 0,
        error_codes::UNKNOWN_SERVER_ERROR == -1,
        error_codes::OFFSET_OUT_OF_RANGE == 1,
        error_codes::UNKNOWN_TOPIC_OR_PARTITION == 3,
        error_codes::NOT_COORDINATOR == 16,
        error_codes::INVALID_REQUIRED_ACKS == 21,
        error_codes::ILLEGAL_GENERATION == 22,
        error_codes::INCONSISTENT_GROUP_PROTOCOL == 23,
        error_codes::UNKNOWN_MEMBER_ID == 25,
        error_codes::INVALID_SESSION_TIMEOUT == 26,
        error_codes::REBALANCE_IN_PROGRESS == 27,
        error_codes::UNSUPPORTED_VERSION == 35,
        error_codes::OUT_OF_ORDER_SEQUENCE_NUMBER == 45,
        error_codes::DUPLICATE_SEQUENCE_NUMBER == 46,
{
}

/// The numbers by which clients ask.
pub proof fn law_request_numbers()
    ensures
        apikey::PRODUCE == 0,
        apikey::FETCH == 1,
        apikey::LIST_OFFSETS == 2,
        apikey::METADATA == 3,
        apikey::OFFSET_COMMIT == 8,
        apikey::OFFSET_FETCH == 9,
        apikey::FIND_COORDINATOR == 10,
        apikey::JOIN_GROUP == 11,
        apikey::HEARTBEAT == 12,
        apikey::LEAVE_GROUP == 13,
        apikey::SYNC_GROUP == 14,
        apikey::DESCRIBE_GROUPS == 15,
        apikey::LIST_GROUPS == 16,
        apikey::API_VERSIONS == 18,
        apikey::CREATE_TOPICS == 19,
        apikey::DELETE_TOPICS == 20,
        apikey::INIT_PRODUCER_ID == 22,
{
}

/// Every compression algorithm has its number, and no other number has one.
pub proof fn law_compression_numbers(c: Compression, code: i8)
    ensures
        compression_of(c.number()) == Some(c),
        compression_of(code) matches Some(d) ==> d.number() == code,
        compression_of(code) is Some <==> 0 <= code <= 4,
        Compression::Plain.number() == 0,
        Compression::Gzip.number() == 1,
        Compression::Snappy.number() == 2,
        Compression::Lz4.number() == 3,
        Compression::Zstd.number() == 4,
{
}

/// The three lowest bits of a batch's attributes say how it is compressed; what
/// they cannot say is not compressed. A batch that is made says how it was.
pub proof fn law_attributes(a: i16, c: Compression)
    ensures
        compression_bits(a) == (a & 7) as i8,
        algorithm(c.number() as i16) == c,
        compression_of(compression_bits(a)) is None ==> algorithm(a) == Compression::Plain,
        compression_of(compression_bits(a)) matches Some(d) ==> algorithm(a) == d,
        Attribute::TIMESTAMP_TYPE_MASK == 8,
        Attribute::TRANSACTIONAL_MASK == 16,
        Attribute::CONTROL_MASK == 32,
{
    assert((0i16 & 7) as i8 == 0 && (1i16 & 7) as i8 == 1 && (2i16 & 7) as i8 == 2 && (3i16
        & 7) as i8 == 3 && (4i16 & 7) as i8 == 4) by (bit_vector);
}

// ---------------------------------------------------------------------------
// Batches

/// Where the fields of a batch stand: the offset first, then the length of what
/// follows it, the leader's epoch, the format, the checksum of what follows it, and
/// from byte 21 on the rest.
pub proof fn law_layout_of_a_batch(b: BatchModel, data: Seq<u8>)
    requires
        49 + data.len() <= i32::MAX,
    ensures
        ({
            let raw = enc_batch(b, data);
            &&& raw.len() == 61 + data.len()
            &&& raw.subrange(0, 8) == enc_i64(b.base_offset)
            &&& raw.subrange(8, 12) == enc_i32((raw.len() - 12) as i32)
            &&& raw.subrange(12, 16) == enc_i32(b.partition_leader_epoch)
            &&& raw.subrange(16, 17) == enc_i8(b.magic)
            &&& raw.subrange(17, 21) == be(crc32(raw.skip(21)) as nat, 4)
            &&& raw.subrange(21, 23) == enc_i16(b.attributes)
            &&& raw.subrange(23, 27) == enc_i32(b.last_offset_delta)
            &&& raw.subrange(27, 35) == enc_i64(b.base_timestamp)
            &&& raw.subrange(35, 43) == enc_i64(b.max_timestamp)
            &&& raw.subrange(43, 51) == enc_i64(b.producer_id)
            &&& raw.subrange(51, 53) == enc_i16(b.producer_epoch)
            &&& raw.subrange(53, 57) == enc_i32(b.base_sequence)
            &&& raw.subrange(57, 61) == enc_i32(b.records.len() as i32)
            &&& raw.skip(61) == data
        }),
{
    broadcast use lemma_be_len;

    let raw = enc_batch(b, data);
    let body = enc_body(b, data);
    assert(body.len() == 40 + data.len());
    assert(raw.skip(21) =~= body);
    assert(raw.subrange(0, 8) =~= enc_i64(b.base_offset));
    assert(raw.subrange(8, 12) =~= enc_i32((raw.len() - 12) as i32));
    assert(raw.subrange(12, 16) =~= enc_i32(b.partition_leader_epoch));
    assert(raw.subrange(16, 17) =~= enc_i8(b.magic));
    assert(raw.subrange(17, 21) =~= be(crc32(body) as nat, 4));
    assert(raw.subrange(21, 23) =~= enc_i16(b.attributes));
    assert(raw.subrange(23, 27) =~= enc_i32(b.last_offset_delta));
    assert(raw.subrange(27, 35) =~= enc_i64(b.base_timestamp));
    assert(raw.subrange(35, 43) =~= enc_i64(b.max_timestamp));
    assert(raw.subrange(43, 51) =~= enc_i64(b.producer_id));
    assert(raw.subrange(51, 53) =~= enc_i16(b.producer_epoch));
    assert(raw.subrange(53, 57) =~= enc_i32(b.base_sequence));
    assert(raw.subrange(57, 61) =~= enc_i32(b.records.len() as i32));
    assert(raw.skip(61) =~= data);
}

/// Bytes that are read as a batch say so in their places: what is read of each
/// field is the number that stands there. They are of the second format, are at
/// least as long as the fields, and are compressed in a way that there is.
pub proof fn law_fields_are_read_in_their_places(raw: Seq<u8>)
    requires
        parsed(raw) is Ok,
    ensures
        ({
            let b = parsed(raw)->Ok_0;
            &&& raw.len() >= 61
            &&& b.magic == 2
            &&& b.base_offset == signed64(be_value(raw.subrange(0, 8)))
            &&& b.partition_leader_epoch == signed32(be_value(raw.subrange(12, 16)))
            &&& b.attributes == signed16(be_value(raw.subrange(21, 23)))
            &&& b.last_offset_delta == signed32(be_value(raw.subrange(23, 27)))
            &&& b.base_timestamp == signed64(be_value(raw.subrange(27, 35)))
            &&& b.max_timestamp == signed64(be_value(raw.subrange(35, 43)))
            &&& b.producer_id == signed64(be_value(raw.subrange(43, 51)))
            &&& b.producer_epoch == signed16(be_value(raw.subrange(51, 53)))
            &&& b.base_sequence == signed32(be_value(raw.subrange(53, 57)))
            &&& b.records.len() == count(signed32(be_value(raw.subrange(57, 61))))
            &&& 0 <= (b.attributes & 7) as i8 <= 4
        }),
{
    let h = sp_head(raw);
    assert(raw.len() >= 61);
    lemma_places(raw);
    let c = compression_of(compression_bits(h.attributes))->Some_0;
    let data = raw.subrange(61, 12 + h.length);
    let plain = decompressed(c, data)->Some_0;
    lemma_as_many_as_said::<Record>(cursor(plain), count(h.count), 0);
}

proof fn lemma_as_many_as_said<T: WireRead>(c: Cursor, n: nat, version: i16)
    requires
        sp_array::<T>(c, n, version).1.err is None,
        c.err is None,
    ensures
        sp_array::<T>(c, n, version).0.len() == n,
    decreases n,
{
    if n > 0 {
        lemma_as_many_as_said::<T>(c, (n - 1) as nat, version);
    }
}

#[verifier::spinoff_prover]
#[verifier::rlimit(60)]
proof fn lemma_places(raw: Seq<u8>)
    requires
        raw.len() >= 61,
    ensures
        ({
            let h = sp_head(raw);
            &&& h.base_offset == signed64(be_value(raw.subrange(0, 8)))
            &&& h.length == signed32(be_value(raw.subrange(8, 12)))
            &&& h.partition_leader_epoch == signed32(be_value(raw.subrange(12, 16)))
            &&& h.magic == signed8(be_value(raw.subrange(16, 17)))
            &&& h.attributes == signed16(be_value(raw.subrange(21, 23)))
            &&& h.last_offset_delta == signed32(be_value(raw.subrange(23, 27)))
            &&& h.base_timestamp == signed64(be_value(raw.subrange(27, 35)))
            &&& h.max_timestamp == signed64(be_value(raw.subrange(35, 43)))
            &&& h.producer_id == signed64(be_value(raw.subrange(43, 51)))
            &&& h.producer_epoch == signed16(be_value(raw.subrange(51, 53)))
            &&& h.base_sequence == signed32(be_value(raw.subrange(53, 57)))
            &&& h.count == signed32(be_value(raw.subrange(57, 61)))
            &&& h.err is None
        }),
{
    reveal(sp_head);
    assert(raw.skip(0) =~= raw);
    lemma_taken(raw, 0, 8);
    lemma_taken(raw, 8, 4);
    lemma_taken(raw, 12, 4);
    lemma_taken(raw, 16, 1);
    lemma_taken(raw, 17, 4);
    lemma_taken(raw, 21, 2);
    lemma_taken(raw, 23, 4);
    lemma_taken(raw, 27, 8);
    lemma_taken(raw, 35, 8);
    lemma_taken(raw, 43, 8);
    lemma_taken(raw, 51, 2);
    lemma_taken(raw, 53, 4);
    lemma_taken(raw, 57, 4);
}

proof fn lemma_taken(raw: Seq<u8>, at: int, n: usize)
    requires
        0 <= at,
        at + n <= raw.len(),
    ensures
        sp_take(cursor(raw.skip(at)), n) == (
            raw.subrange(at, at + n),
            cursor(raw.skip(at + n)),
        ),
{
    assert(raw.skip(at).take(n as int) =~= raw.subrange(at, at + n));
    assert(raw.skip(at).skip(n as int) =~= raw.skip(at + n));
}

/// Of bytes that begin with a batch the batch is read, whatever follows it.
pub proof fn law_what_follows_a_batch_is_left(raw: Seq<u8>, rest: Seq<u8>)
    requires
        parsed(raw) is Ok,
    ensures
        parsed(raw + rest) == parsed(raw),
{
    law_fields_are_read_in_their_places(raw);
    let all = raw + rest;
    lemma_places(raw);
    lemma_places(all);
    assert(all.subrange(0, 8) =~= raw.subrange(0, 8));
    assert(all.subrange(8, 12) =~= raw.subrange(8, 12));
    assert(all.subrange(12, 16) =~= raw.subrange(12, 16));
    assert(all.subrange(16, 17) =~= raw.subrange(16, 17));
    assert(all.subrange(21, 23) =~= raw.subrange(21, 23));
    assert(all.subrange(23, 27) =~= raw.subrange(23, 27));
    assert(all.subrange(27, 35) =~= raw.subrange(27, 35));
    assert(all.subrange(35, 43) =~= raw.subrange(35, 43));
    assert(all.subrange(43, 51) =~= raw.subrange(43, 51));
    assert(all.subrange(51, 53) =~= raw.subrange(51, 53));
    assert(all.subrange(53, 57) =~= raw.subrange(53, 57));
    assert(all.subrange(57, 61) =~= raw.subrange(57, 61));
    let h = sp_head(raw);
    assert(all.subrange(61, 12 + h.length) =~= raw.subrange(61, 12 + h.length));
}

/// A batch whose length leaves no room for its fields, or says more than there is, is
/// refused with that length.
pub proof fn law_wrong_length_is_refused(raw: Seq<u8>)
    requires
        raw.len() >= 61,
        raw[16] == 2,
    ensures
        ({
            let n = signed32(be_value(raw.subrange(8, 12)));
            n < 49 || 12 + n > raw.len() ==> (parsed(raw) matches Err(e) && e == (
            DecodeError::BatchLength { length: n }))
        }),
{
    lemma_places(raw);
    reveal_with_fuel(be_value, 2);
    assert(raw.subrange(16, 17).drop_last() =~= Seq::empty());
    assert(raw.subrange(16, 17).last() == raw[16]);
}

/// A batch that is made is of the second format, says how it is compressed, and ends
/// as many offsets behind its first one as there are records behind the first.
pub proof fn law_batch_is_made(
    base_offset: i64,
    rs: Seq<RecordModel>,
    c: Compression,
    base_timestamp: i64,
    producer_id: i64,
    producer_epoch: i16,
    base_sequence: i32,
    epoch: i32,
)
    requires
        rs.len() <= i32::MAX,
    ensures
        ({
            let b = batch_of(
                base_offset,
                rs,
                c,
                base_timestamp,
                producer_id,
                producer_epoch,
                base_sequence,
                epoch,
            );
            &&& b.base_offset == base_offset
            &&& b.records == rs
            &&& b.magic == 2
            &&& b.attributes == c.number()
            &&& b.base_timestamp == base_timestamp
            &&& b.producer_id == producer_id
            &&& b.producer_epoch == producer_epoch
            &&& b.base_sequence == base_sequence
            &&& b.partition_leader_epoch == epoch
            &&& rs.len() > 0 ==> b.last_offset_delta == rs.len() - 1
            &&& rs.len() == 0 ==> b.last_offset_delta == 0 && b.max_timestamp == base_timestamp
        }),
{
}

/// A batch as it is written has the checksum that belongs to it. With any other in
/// its place both are told: the one that stands there, and the one that should.
pub proof fn law_checksum_is_compared(b: BatchModel, data: Seq<u8>, other: u32)
    requires
        49 + data.len() <= i32::MAX,
    ensures
        stored_crc_differs(enc_batch(b, data)) is None,
        other != crc32(enc_batch(b, data).skip(21)) ==> stored_crc_differs(
            enc_batch(b, data).take(17) + be(other as nat, 4) + enc_batch(b, data).skip(21),
        ) == Some((other, crc32(enc_batch(b, data).skip(21)))),
{
    broadcast use lemma_be_len;

    law_layout_of_a_batch(b, data);
    let raw = enc_batch(b, data);
    let crc = crc32(raw.skip(21));
    lemma_pow256();
    lemma_be_round_trip(crc as nat, 4);
    lemma_be_round_trip(other as nat, 4);
    lemma_int_round_trip(0, 0, (raw.len() - 12) as i32, 0);
    assert(raw.subrange(21, raw.len() as int) =~= raw.skip(21));
    let bad = raw.take(17) + be(other as nat, 4) + raw.skip(21);
    assert(bad.len() == raw.len());
    assert(bad.subrange(8, 12) =~= raw.subrange(8, 12));
    assert(bad.subrange(17, 21) =~= be(other as nat, 4));
    assert(bad.subrange(21, bad.len() as int) =~= raw.skip(21));
}

proof fn lemma_four(a: u8, b: u8, c: u8, d: u8)
    ensures
        be_value(seq![a, b, c, d]) == a * 0x100_0000 + b * 0x1_0000 + c * 0x100 + d,
{
    reveal_with_fuel(be_value, 5);
    let s = seq![a, b, c, d];
    assert(s.drop_last() =~= seq![a, b, c]);
    assert(s.drop_last().drop_last() =~= seq![a, b]);
    assert(s.drop_last().drop_last().drop_last() =~= seq![a]);
    assert(s.drop_last().drop_last().drop_last().drop_last() =~= Seq::empty());
}

/// Where the fields of a record stand: what it says of itself, its time, its place
/// in the batch, then the key, the value, and the headers behind their number.
pub proof fn law_layout_of_a_record(r: RecordModel)
    requires
        record_fits(r),
    ensures
        ({
            let raw = enc_record(r);
            let (key, c) = sp_field(cursor(raw.skip(13)));
            let (value, d) = sp_field(c);
            &&& raw.subrange(0, 1) == enc_i8(r.attributes)
            &&& raw.subrange(1, 9) == enc_i64(r.timestamp_delta)
            &&& raw.subrange(9, 13) == enc_i32(r.offset_delta)
            &&& key == r.key
            &&& value == r.value
            &&& d.err is None
            &&& d.rest == enc_i32(r.headers.len() as i32) + enc_headers(r.headers)
        }),
{
    broadcast use lemma_be_len;

    let raw = enc_record(r);
    let tail = enc_i32(r.headers.len() as i32) + enc_headers(r.headers);
    assert(raw.subrange(0, 1) =~= enc_i8(r.attributes));
    assert(raw.subrange(1, 9) =~= enc_i64(r.timestamp_delta));
    assert(raw.subrange(9, 13) =~= enc_i32(r.offset_delta));
    assert(raw.skip(13) =~= enc_field(r.key) + (enc_field(r.value) + tail));
    lemma_field(r.key, enc_field(r.value) + tail);
    lemma_field(r.value, tail);
}

/// How what may be missing is written: as its length, doubled, and itself; what is
/// missing as a one.
pub proof fn law_layout_of_a_field(b: Seq<u8>)
    requires
        b.len() < 64,
    ensures
        enc_field(Some(b)) == seq![(2 * b.len()) as u8] + b,
        enc_field(None) == seq![1u8],
{
}

/// How a header is written: a zero, its name and its value.
pub proof fn law_layout_of_a_header(h: (Seq<char>, Option<Seq<u8>>))
    ensures
        enc_header(h) == seq![0u8] + enc_field(Some(encode_utf8(h.0))) + enc_field(h.1),
{
    assert(be(0, 1) =~= seq![0u8]) by {
        reveal_with_fuel(be, 2);
    }
}

/// Records and headers are written one after the other.
pub proof fn law_records_are_written_in_turn(
    rs: Seq<RecordModel>,
    r: RecordModel,
    hs: Seq<(Seq<char>, Option<Seq<u8>>)>,
    h: (Seq<char>, Option<Seq<u8>>),
)
    ensures
        enc_records(Seq::empty()).len() == 0,
        enc_records(rs.push(r)) == enc_records(rs) + enc_record(r),
        enc_headers(Seq::empty()).len() == 0,
        enc_headers(hs.push(h)) == enc_headers(hs) + enc_header(h),
{
    assert(rs.push(r).drop_last() =~= rs);
    assert(hs.push(h).drop_last() =~= hs);
}

// ---------------------------------------------------------------------------
// Numbers and strings

/// Numbers are written with the highest byte first.
pub proof fn law_highest_byte_first(a: u8, b: u8, c: u8, d: u8)
    ensures
        be_value(seq![a, b]) == a * 0x100 + b,
        be(be_value(seq![a, b]), 2) == seq![a, b],
        be_value(seq![a, b, c, d]) == a * 0x100_0000 + b * 0x1_0000 + c * 0x100 + d,
        be(be_value(seq![a, b, c, d]), 4) == seq![a, b, c, d],
{
    reveal_with_fuel(be, 5);
    reveal_with_fuel(be_value, 3);
    assert(seq![a, b].drop_last() =~= seq![a]);
    assert(seq![a].drop_last() =~= Seq::empty());
    let v = be_value(seq![a, b]);
    assert(be(v, 2) =~= seq![((v / 256) % 256) as u8, (v % 256) as u8]);
    lemma_four(a, b, c, d);
    let w = be_value(seq![a, b, c, d]);
    assert(be(w, 4) =~= seq![
        ((w / 256 / 256 / 256) % 256) as u8,
        ((w / 256 / 256) % 256) as u8,
        ((w / 256) % 256) as u8,
        (w % 256) as u8,
    ]);
}

/// Numbers below zero are written as if they were so much below the first number
/// that has no room.
pub proof fn law_negative_numbers(a: i8, b: i16, c: i32, d: i64)
    ensures
        a < 0 ==> enc_i8(a) == be((0x100 + a) as nat, 1),
        a >= 0 ==> enc_i8(a) == be(a as nat, 1),
        b < 0 ==> enc_i16(b) == be((0x1_0000 + b) as nat, 2),
        b >= 0 ==> enc_i16(b) == be(b as nat, 2),
        c < 0 ==> enc_i32(c) == be((0x1_0000_0000 + c) as nat, 4),
        c >= 0 ==> enc_i32(c) == be(c as nat, 4),
        d < 0 ==> enc_i64(d) == be((0x1_0000_0000_0000_0000 + d) as nat, 8),
        d >= 0 ==> enc_i64(d) == be(d as nat, 8),
{
}

/// Numbers of any size are written by sevens of bits, the lowest first, each but
/// the last with the highest bit set.
pub proof fn law_seven_bits_at_a_time(v: u64)
    ensures
        v < 0x80 ==> uvarint(v) == seq![v as u8],
        0x80 <= v < 0x4000 ==> uvarint(v) == seq![(v % 0x80 + 0x80) as u8, (v / 0x80) as u8],
        v >= 0x80 ==> uvarint(v)[0] == v % 0x80 + 0x80,
        v >= 0x80 ==> uvarint(v).skip(1) == uvarint(v / 0x80),
{
    reveal_with_fuel(uvarint, 3);
    if v >= 0x80 {
        assert(uvarint(v).skip(1) =~= uvarint(v / 0x80));
        if v < 0x4000 {
            assert(uvarint(v) =~= seq![(v % 0x80 + 0x80) as u8, (v / 0x80) as u8]);
        }
    }
}

/// Small numbers stay small when they are made positive: 0, -1, 1, -2, 2 and so on
/// are counted from 0 on.
pub proof fn law_signs_are_folded(n: i64)
    requires
        0 <= n < i64::MAX,
    ensures
        zigzag(n) == 2 * n,
        zigzag((-n - 1) as i64) == zigzag(n) + 1,
        unzigzag(zigzag(n)) == n,
        unzigzag(zigzag((-n - 1) as i64)) == -n - 1,
{
}

/// How strings are written: the length of their bytes in front, in two bytes or,
/// one higher, by sevens of bits; what is missing as a length of -1 or as a zero.
pub proof fn law_layout_of_a_string(t: Seq<char>)
    requires
        encode_utf8(t).len() <= i16::MAX,
    ensures
        enc_string(t) == be(encode_utf8(t).len(), 2) + encode_utf8(t),
        enc_nullable_string(Some(t)) == enc_string(t),
        enc_nullable_string(None) == seq![0xffu8, 0xffu8],
        enc_compact_string(t) == uvarint((encode_utf8(t).len() + 1) as u64) + encode_utf8(t),
        enc_nullable_compact_string(Some(t)) == enc_compact_string(t),
        enc_nullable_compact_string(None) == seq![0u8],
        enc_compact_nullable_bytes(Some(encode_utf8(t))) == enc_compact_string(t),
        enc_compact_nullable_bytes(None) == seq![0u8],
{
    law_highest_byte_first(0xff, 0xff, 0, 0);
    assert(be(0xffff, 2) == seq![0xffu8, 0xffu8]);
}

/// From which version on the headers of a request end in tagged fields, for every
/// kind of request but the one for the versions themselves, whose never do.
pub proof fn law_versions_of_headers(v: i16)
    ensures
        header_version_of(apikey::API_VERSIONS, v) == 1,
        header_version_of(apikey::PRODUCE, v) == 2 <==> v >= 9,
        header_version_of(apikey::FETCH, v) == 2 <==> v >= 12,
        header_version_of(apikey::LIST_OFFSETS, v) == 2 <==> v >= 6,
        header_version_of(apikey::METADATA, v) == 2 <==> v >= 9,
        header_version_of(apikey::OFFSET_COMMIT, v) == 2 <==> v >= 8,
        header_version_of(apikey::OFFSET_FETCH, v) == 2 <==> v >= 6,
        header_version_of(apikey::FIND_COORDINATOR, v) == 2 <==> v >= 4,
        header_version_of(apikey::JOIN_GROUP, v) == 2 <==> v >= 6,
        header_version_of(apikey::HEARTBEAT, v) == 2 <==> v >= 4,
        header_version_of(apikey::LEAVE_GROUP, v) == 2 <==> v >= 5,
        header_version_of(apikey::SYNC_GROUP, v) == 2 <==> v >= 5,
        header_version_of(apikey::DESCRIBE_GROUPS, v) == 2 <==> v >= 5,
        header_version_of(apikey::LIST_GROUPS, v) == 2 <==> v >= 4,
        header_version_of(apikey::CREATE_TOPICS, v) == 2 <==> v >= 5,
        header_version_of(apikey::DELETE_TOPICS, v) == 2 <==> v >= 4,
        header_version_of(apikey::INIT_PRODUCER_ID, v) == 2 <==> v >= 2,
{
}

// ---------------------------------------------------------------------------
// Arrays

/// There are as many values as their number says, and none if it is below zero.
pub proof fn law_numbers_of_values<T: WireRead>(c: Cursor, n: i32, version: i16)
    requires
        c.err is None,
    ensures
        n < 0 ==> sp_array::<T>(c, count(n), version) == (Seq::<T::M>::empty(), c),
        n >= 0 && sp_array::<T>(c, count(n), version).1.err is None ==> sp_array::<T>(
            c,
            count(n),
            version,
        ).0.len() == n,
{
    if n >= 0 && sp_array::<T>(c, count(n), version).1.err is None {
        lemma_as_many_as_said::<T>(c, count(n), version);
    }
}

/// Values written one after the other: two parts one behind the other, and one
/// value as itself. An array has their number in front.
pub proof fn law_values_written<T: WireWrite>(a: Seq<T>, b: Seq<T>, x: T, version: i16)
    ensures
        wire_all(a + b, version) == wire_all(a, version) + wire_all(b, version),
        wire_all(seq![x], version) == x.wire(version),
        wire_array(a, version) == enc_i32(a.len() as i32) + wire_all(a, version),
{
    lemma_values_joined(a, b, version);
    assert(seq![x].drop_last() =~= Seq::<T>::empty());
    assert(wire_all(Seq::<T>::empty(), version) =~= Seq::empty());
    assert(wire_all(seq![x], version) =~= x.wire(version));
}

proof fn lemma_values_joined<T: WireWrite>(a: Seq<T>, b: Seq<T>, version: i16)
    ensures
        wire_all(a + b, version) == wire_all(a, version) + wire_all(b, version),
    decreases b.len(),
{
    if b.len() == 0 {
        assert(a + b =~= a);
        assert(wire_all(a, version) + wire_all(b, version) =~= wire_all(a, version));
    } else {
        assert((a + b).drop_last() =~= a + b.drop_last());
        assert((a + b).last() == b.last());
        lemma_values_joined(a, b.drop_last(), version);
        assert(wire_all(a + b, version) =~= wire_all(a, version) + wire_all(b, version));
    }
}

/// Whether values, each written in front of whatever follows, are read as they
/// were.
pub open spec fn reads_back<T: WireRead>(
    xs: Seq<T::M>,
    write: spec_fn(T::M, Seq<u8>) -> Seq<u8>,
    version: i16,
) -> bool {
    forall|i: int, rest: Seq<u8>|
        0 <= i < xs.len() ==> T::sp_read(cursor(#[trigger] write(xs[i], rest)), version) == (
            xs[i],
            cursor(rest),
        )
}

/// Values that are read back one by one are read back one after the other, as many
/// as there are and in their order.
pub proof fn law_array_is_read<T: WireRead>(
    xs: Seq<T::M>,
    write: spec_fn(T::M, Seq<u8>) -> Seq<u8>,
    rest: Seq<u8>,
    version: i16,
)
    requires
        reads_back::<T>(xs, write, version),
    ensures
        sp_array::<T>(cursor(xs.fold_right(write, rest)), xs.len(), version) == (
            xs,
            cursor(rest),
        ),
    decreases xs.len(),
{
    reveal(Seq::fold_right);
    if xs.len() == 0 {
        assert(xs =~= Seq::empty());
    } else {
        let front = xs.drop_last();
        let next = write(xs.last(), rest);
        assert(reads_back::<T>(front, write, version)) by {
            assert forall|i: int, r: Seq<u8>| 0 <= i < front.len() implies T::sp_read(
                cursor(#[trigger] write(front[i], r)),
                version,
            ) == (front[i], cursor(r)) by {
                assert(front[i] == xs[i]);
                assert(write(xs[i], r) == write(front[i], r));
            }
        }
        law_array_is_read::<T>(front, write, next, version);
        assert(xs[xs.len() - 1] == xs.last());
        assert(T::sp_read(cursor(write(xs[xs.len() - 1], rest)), version) == (
            xs[xs.len() - 1],
            cursor(rest),
        ));
        assert(front.push(xs.last()) =~= xs);
    }
}

/// Whether a string fits its length field.
pub open spec fn name_fits(s: Seq<char>) -> bool {
    encode_utf8(s).len() <= i16::MAX
}

/// Whether all strings fit their length fields.
pub open spec fn names_fit(ss: Seq<Seq<char>>) -> bool {
    forall|i: int| 0 <= i < ss.len() ==> name_fits(#[trigger] ss[i])
}

/// A string in front of what follows.
pub open spec fn put_name(s: Seq<char>, rest: Seq<u8>) -> Seq<u8> {
    enc_string(s) + rest
}

/// A number in front of what follows.
pub open spec fn put_number(n: i32, rest: Seq<u8>) -> Seq<u8> {
    enc_i32(n) + rest
}

/// A name and the bytes that belong to it in front of what follows.
pub open spec fn put_named_bytes(x: (Seq<char>, Seq<u8>), rest: Seq<u8>) -> Seq<u8> {
    enc_string(x.0) + (enc_i32(x.1.len() as i32) + (x.1 + rest))
}

/// Strings with their number in front.
pub open spec fn put_names(ss: Seq<Seq<char>>, rest: Seq<u8>) -> Seq<u8> {
    enc_i32(ss.len() as i32) + ss.fold_right(
        |s: Seq<char>, r: Seq<u8>| put_name(s, r),
        rest,
    )
}

proof fn lemma_names(ss: Seq<Seq<char>>, rest: Seq<u8>, version: i16)
    requires
        names_fit(ss),
        ss.len() <= i32::MAX,
    ensures
        ({
            let (n, c) = sp_i32(cursor(put_names(ss, rest)));
            sp_array::<String>(c, count(n), version) == (ss, cursor(rest))
        }),
{
    let f = |s: Seq<char>, r: Seq<u8>| put_name(s, r);
    assert(reads_back::<String>(ss, f, version)) by {
        assert forall|i: int, r: Seq<u8>| 0 <= i < ss.len() implies String::sp_read(
            cursor(#[trigger] f(ss[i], r)),
            version,
        ) == (ss[i], cursor(r)) by {
            law_string_round_trip(ss[i], r);
        }
    }
    law_array_is_read::<String>(ss, f, rest, version);
    law_i32_round_trip(ss.len() as i32, ss.fold_right(f, rest));
}

proof fn lemma_bytes(b: Seq<u8>, rest: Seq<u8>)
    requires
        b.len() <= i32::MAX,
    ensures
        sp_bytes(cursor(enc_i32(b.len() as i32) + (b + rest))) == (b, cursor(rest)),
{
    law_i32_round_trip(b.len() as i32, b + rest);
    law_bytes_round_trip(b, b.len() as usize, rest);
}

/// Whether names and bytes fit their length fields.
pub open spec fn pairs_fit(xs: Seq<(Seq<char>, Seq<u8>)>) -> bool {
    &&& xs.len() <= i32::MAX
    &&& forall|i: int|
        0 <= i < xs.len() ==> name_fits((#[trigger] xs[i]).0) && xs[i].1.len() <= i32::MAX
}

/// Names and bytes with their number in front.
pub open spec fn put_pairs(xs: Seq<(Seq<char>, Seq<u8>)>, rest: Seq<u8>) -> Seq<u8> {
    enc_i32(xs.len() as i32) + xs.fold_right(
        |x: (Seq<char>, Seq<u8>), r: Seq<u8>| put_named_bytes(x, r),
        rest,
    )
}

proof fn lemma_pairs(xs: Seq<(Seq<char>, Seq<u8>)>, rest: Seq<u8>, version: i16)
    requires
        pairs_fit(xs),
    ensures
        ({
            let (n, c) = sp_i32(cursor(put_pairs(xs, rest)));
            sp_array::<(String, Bytes)>(c, count(n), version) == (xs, cursor(rest))
        }),
{
    let f = |x: (Seq<char>, Seq<u8>), r: Seq<u8>| put_named_bytes(x, r);
    assert(reads_back::<(String, Bytes)>(xs, f, version)) by {
        assert forall|i: int, r: Seq<u8>| 0 <= i < xs.len() implies <(String, Bytes)>::sp_read(
            cursor(#[trigger] f(xs[i], r)),
            version,
        ) == (xs[i], cursor(r)) by {
            let x = xs[i];
            law_string_round_trip(x.0, enc_i32(x.1.len() as i32) + (x.1 + r));
            lemma_bytes(x.1, r);
            assert(x == (x.0, x.1));
        }
    }
    law_array_is_read::<(String, Bytes)>(xs, f, rest, version);
    law_i32_round_trip(xs.len() as i32, xs.fold_right(f, rest));
}

// ---------------------------------------------------------------------------
// Headers

/// The header of every version that the broker supports ends with the client's id:
/// what a client writes there is what is read, and the request follows.
pub proof fn law_header_is_read(h: RequestHeaderModel, rest: Seq<u8>, i: int)
    requires
        h.client_id matches Some(s) ==> name_fits(s),
        0 <= i < SUPPORTED_API_KEYS@.len(),
        h.api_key == SUPPORTED_API_KEYS@[i].0,
        h.api_version <= SUPPORTED_API_KEYS@[i].2,
    ensures
        sp_request_header(
            cursor(
                enc_i16(h.api_key) + (enc_i16(h.api_version) + (enc_i32(h.correlation_id) + (
                enc_nullable_string(h.client_id) + rest))),
            ),
        ) == (h, cursor(rest)),
        header_version_of(h.api_key, h.api_version) == 1,
{
    let a = enc_nullable_string(h.client_id) + rest;
    let b = enc_i32(h.correlation_id) + a;
    let c = enc_i16(h.api_version) + b;
    law_i16_round_trip(h.api_key, c);
    law_i16_round_trip(h.api_version, b);
    law_i32_round_trip(h.correlation_id, a);
    law_nullable_string_round_trip(h.client_id, rest);
    if h.api_key != apikey::API_VERSIONS {
        law_supported_are_not_compact(i);
    }
    assert(flexible_since(h.api_key) is Some || h.api_key
        == apikey::API_VERSIONS);
}

// ---------------------------------------------------------------------------
// Requests

/// What a client writes of a partition that it produces to.
pub open spec fn put_produce_partition(p: ProducePartitionModel, rest: Seq<u8>) -> Seq<u8> {
    enc_i32(p.partition_index) + (enc_i32(p.records.len() as i32) + (p.records + rest))
}

/// What a client writes of a topic that it produces to.
pub open spec fn put_produce_topic(t: ProduceTopicModel, rest: Seq<u8>) -> Seq<u8> {
    enc_string(t.topic) + (enc_i32(t.partitions.len() as i32) + t.partitions.fold_right(
        |p: ProducePartitionModel, r: Seq<u8>| put_produce_partition(p, r),
        rest,
    ))
}

/// Whether what is produced to a topic fits its length fields.
pub open spec fn produce_topic_fits(t: ProduceTopicModel) -> bool {
    &&& name_fits(t.topic)
    &&& t.partitions.len() <= i32::MAX
    &&& forall|i: int|
        0 <= i < t.partitions.len() ==> (#[trigger] t.partitions[i]).records.len() <= i32::MAX
}

proof fn lemma_produce_topic(t: ProduceTopicModel, rest: Seq<u8>, version: i16)
    requires
        version < 9,
        produce_topic_fits(t),
    ensures
        ProduceTopicData::sp_read(cursor(put_produce_topic(t, rest)), version) == (
            t,
            cursor(rest),
        ),
{
    let ps = t.partitions;
    let f = |p: ProducePartitionModel, r: Seq<u8>| put_produce_partition(p, r);
    assert(reads_back::<ProducePartitionData>(ps, f, version)) by {
        assert forall|i: int, r: Seq<u8>|
            0 <= i < ps.len() implies ProducePartitionData::sp_read(
            cursor(#[trigger] f(ps[i], r)),
            version,
        ) == (ps[i], cursor(r)) by {
            let p = ps[i];
            law_i32_round_trip(
                p.partition_index,
                enc_i32(p.records.len() as i32) + (p.records + r),
            );
            lemma_bytes(p.records, r);
        }
    }
    let body = ps.fold_right(f, rest);
    law_array_is_read::<ProducePartitionData>(ps, f, rest, version);
    law_string_round_trip(t.topic, enc_i32(ps.len() as i32) + body);
    law_i32_round_trip(ps.len() as i32, body);
}

/// A produce request is read as a client writes it.
pub proof fn law_produce_request_is_read(r: ProduceRequestModel, rest: Seq<u8>, version: i16)
    requires
        3 <= version < 9,
        r.transactional_id matches Some(s) ==> name_fits(s),
        r.topic_data.len() <= i32::MAX,
        forall|i: int|
            0 <= i < r.topic_data.len() ==> produce_topic_fits(#[trigger] r.topic_data[i]),
    ensures
        sp_produce_request(
            cursor(
                enc_nullable_string(r.transactional_id) + (enc_i16(r.acks) + (enc_i32(r.timeout_ms)
                    + (enc_i32(r.topic_data.len() as i32) + r.topic_data.fold_right(
                    |t: ProduceTopicModel, s: Seq<u8>| put_produce_topic(t, s),
                    rest,
                )))),
            ),
            version,
        ) == (r, cursor(rest)),
{
    let ts = r.topic_data;
    let f = |t: ProduceTopicModel, s: Seq<u8>| put_produce_topic(t, s);
    assert(reads_back::<ProduceTopicData>(ts, f, version)) by {
        assert forall|i: int, s: Seq<u8>| 0 <= i < ts.len() implies ProduceTopicData::sp_read(
            cursor(#[trigger] f(ts[i], s)),
            version,
        ) == (ts[i], cursor(s)) by {
            lemma_produce_topic(ts[i], s, version);
        }
    }
    let d = ts.fold_right(f, rest);
    let c = enc_i32(ts.len() as i32) + d;
    let b = enc_i32(r.timeout_ms) + c;
    let a = enc_i16(r.acks) + b;
    law_array_is_read::<ProduceTopicData>(ts, f, rest, version);
    law_nullable_string_round_trip(r.transactional_id, a);
    law_i16_round_trip(r.acks, b);
    law_i32_round_trip(r.timeout_ms, c);
    law_i32_round_trip(ts.len() as i32, d);
}

/// What a client writes of a partition that it fetches from.
pub open spec fn put_fetch_partition(p: FetchPartition, version: i16, rest: Seq<u8>) -> Seq<u8> {
    let tail = enc_i32(p.partition_max_bytes) + rest;
    enc_i32(p.partition_index) + (enc_i64(p.fetch_offset) + if version >= 5 {
        enc_i64(p.log_start_offset) + tail
    } else {
        tail
    })
}

/// What a client writes of a topic that it fetches from.
pub open spec fn put_fetch_topic(t: FetchTopicModel, version: i16, rest: Seq<u8>) -> Seq<u8> {
    enc_string(t.topic) + (enc_i32(t.partitions.len() as i32) + t.partitions.fold_right(
        |p: FetchPartition, r: Seq<u8>| put_fetch_partition(p, version, r),
        rest,
    ))
}

/// Whether what is fetched from a topic fits its length fields, and says nothing
/// that the version has no field for.
pub open spec fn fetch_topic_fits(t: FetchTopicModel, version: i16) -> bool {
    &&& name_fits(t.topic)
    &&& t.partitions.len() <= i32::MAX
    &&& forall|i: int|
        0 <= i < t.partitions.len() ==> (#[trigger] t.partitions[i]).current_leader_epoch == -1
            && (version < 5 ==> t.partitions[i].log_start_offset == -1)
}

proof fn lemma_fetch_topic(t: FetchTopicModel, rest: Seq<u8>, version: i16)
    requires
        version < 9,
        fetch_topic_fits(t, version),
    ensures
        FetchTopic::sp_read(cursor(put_fetch_topic(t, version, rest)), version) == (
            t,
            cursor(rest),
        ),
{
    let ps = t.partitions;
    let f = |p: FetchPartition, r: Seq<u8>| put_fetch_partition(p, version, r);
    assert(reads_back::<FetchPartition>(ps, f, version)) by {
        assert forall|i: int, r: Seq<u8>| 0 <= i < ps.len() implies FetchPartition::sp_read(
            cursor(#[trigger] f(ps[i], r)),
            version,
        ) == (ps[i], cursor(r)) by {
            let p = ps[i];
            let c = enc_i32(p.partition_max_bytes) + r;
            let b = if version >= 5 {
                enc_i64(p.log_start_offset) + c
            } else {
                c
            };
            law_i32_round_trip(p.partition_index, enc_i64(p.fetch_offset) + b);
            law_i64_round_trip(p.fetch_offset, b);
            law_i64_round_trip(p.log_start_offset, c);
            law_i32_round_trip(p.partition_max_bytes, r);
        }
    }
    let body = ps.fold_right(f, rest);
    law_array_is_read::<FetchPartition>(ps, f, rest, version);
    law_string_round_trip(t.topic, enc_i32(ps.len() as i32) + body);
    law_i32_round_trip(ps.len() as i32, body);
}

/// A fetch request is read as a client writes it.
pub proof fn law_fetch_request_is_read(r: FetchRequestModel, rest: Seq<u8>, version: i16)
    requires
        4 <= version < 7,
        r.topics.len() <= i32::MAX,
        forall|i: int|
            0 <= i < r.topics.len() ==> fetch_topic_fits(#[trigger] r.topics[i], version),
    ensures
        sp_fetch_request(
            cursor(
                enc_i32(r.replica_id) + (enc_i32(r.max_wait_ms) + (enc_i32(r.min_bytes) + (enc_i32(
                    r.max_bytes,
                ) + (enc_i8(r.isolation_level) + (enc_i32(r.topics.len() as i32)
                    + r.topics.fold_right(
                    |t: FetchTopicModel, s: Seq<u8>| put_fetch_topic(t, version, s),
                    rest,
                )))))),
            ),
            version,
        ) == (r, cursor(rest)),
{
    let ts = r.topics;
    let f = |t: FetchTopicModel, s: Seq<u8>| put_fetch_topic(t, version, s);
    assert(reads_back::<FetchTopic>(ts, f, version)) by {
        assert forall|i: int, s: Seq<u8>| 0 <= i < ts.len() implies FetchTopic::sp_read(
            cursor(#[trigger] f(ts[i], s)),
            version,
        ) == (ts[i], cursor(s)) by {
            lemma_fetch_topic(ts[i], s, version);
        }
    }
    let g = ts.fold_right(f, rest);
    let e = enc_i32(ts.len() as i32) + g;
    let d = enc_i8(r.isolation_level) + e;
    let c = enc_i32(r.max_bytes) + d;
    let b = enc_i32(r.min_bytes) + c;
    let a = enc_i32(r.max_wait_ms) + b;
    law_array_is_read::<FetchTopic>(ts, f, rest, version);
    law_i32_round_trip(r.replica_id, a);
    law_i32_round_trip(r.max_wait_ms, b);
    law_i32_round_trip(r.min_bytes, c);
    law_i32_round_trip(r.max_bytes, d);
    law_i8_round_trip(r.isolation_level, e);
    law_i32_round_trip(ts.len() as i32, g);
}

/// Earlier fetch requests say less: before version 3 not how many bytes there may be
/// in all, and before version 4 nothing of transactions.
pub proof fn law_early_fetch_request_is_read(r: FetchRequestModel, rest: Seq<u8>, version: i16)
    requires
        version < 4,
        version < 3 ==> r.max_bytes == 0,
        r.isolation_level == 0,
        r.topics.len() <= i32::MAX,
        forall|i: int|
            0 <= i < r.topics.len() ==> fetch_topic_fits(#[trigger] r.topics[i], version),
    ensures
        ({
            let topics = enc_i32(r.topics.len() as i32) + r.topics.fold_right(
                |t: FetchTopicModel, s: Seq<u8>| put_fetch_topic(t, version, s),
                rest,
            );
            let tail = if version >= 3 {
                enc_i32(r.max_bytes) + topics
            } else {
                topics
            };
            sp_fetch_request(
                cursor(
                    enc_i32(r.replica_id) + (enc_i32(r.max_wait_ms) + (enc_i32(r.min_bytes)
                        + tail)),
                ),
                version,
            ) == (r, cursor(rest))
        }),
{
    let ts = r.topics;
    let f = |t: FetchTopicModel, s: Seq<u8>| put_fetch_topic(t, version, s);
    assert(reads_back::<FetchTopic>(ts, f, version)) by {
        assert forall|i: int, s: Seq<u8>| 0 <= i < ts.len() implies FetchTopic::sp_read(
            cursor(#[trigger] f(ts[i], s)),
            version,
        ) == (ts[i], cursor(s)) by {
            lemma_fetch_topic(ts[i], s, version);
        }
    }
    let g = ts.fold_right(f, rest);
    let e = enc_i32(ts.len() as i32) + g;
    let c = if version >= 3 {
        enc_i32(r.max_bytes) + e
    } else {
        e
    };
    let b = enc_i32(r.min_bytes) + c;
    let a = enc_i32(r.max_wait_ms) + b;
    law_array_is_read::<FetchTopic>(ts, f, rest, version);
    law_i32_round_trip(r.replica_id, a);
    law_i32_round_trip(r.max_wait_ms, b);
    law_i32_round_trip(r.min_bytes, c);
    law_i32_round_trip(r.max_bytes, e);
    law_i32_round_trip(ts.len() as i32, g);
}

/// Before version 3 a produce request names no transaction.
pub proof fn law_early_produce_request_is_read(r: ProduceRequestModel, rest: Seq<u8>, version: i16)
    requires
        version < 3,
        r.transactional_id is None,
        r.topic_data.len() <= i32::MAX,
        forall|i: int|
            0 <= i < r.topic_data.len() ==> produce_topic_fits(#[trigger] r.topic_data[i]),
    ensures
        sp_produce_request(
            cursor(
                enc_i16(r.acks) + (enc_i32(r.timeout_ms) + (enc_i32(r.topic_data.len() as i32)
                    + r.topic_data.fold_right(
                    |t: ProduceTopicModel, s: Seq<u8>| put_produce_topic(t, s),
                    rest,
                ))),
            ),
            version,
        ) == (r, cursor(rest)),
{
    let ts = r.topic_data;
    let f = |t: ProduceTopicModel, s: Seq<u8>| put_produce_topic(t, s);
    assert(reads_back::<ProduceTopicData>(ts, f, version)) by {
        assert forall|i: int, s: Seq<u8>| 0 <= i < ts.len() implies ProduceTopicData::sp_read(
            cursor(#[trigger] f(ts[i], s)),
            version,
        ) == (ts[i], cursor(s)) by {
            lemma_produce_topic(ts[i], s, version);
        }
    }
    let d = ts.fold_right(f, rest);
    let c = enc_i32(ts.len() as i32) + d;
    let b = enc_i32(r.timeout_ms) + c;
    law_array_is_read::<ProduceTopicData>(ts, f, rest, version);
    law_i16_round_trip(r.acks, b);
    law_i32_round_trip(r.timeout_ms, c);
    law_i32_round_trip(ts.len() as i32, d);
}

/// Names that are missing from a request name nothing; the others stay, in their order.
pub proof fn law_missing_names_are_left_out<T>(xs: Seq<Option<T>>, x: T)
    ensures
        present(Seq::<Option<T>>::empty()).len() == 0,
        present(xs.push(None)) == present(xs),
        present(xs.push(Some(x))) == present(xs).push(x),
{
    assert(xs.push(None).drop_last() =~= xs);
    assert(xs.push(Some(x)).drop_last() =~= xs);
}

/// A metadata request is read as a client writes it; whether topics may be created
/// is said in version 4.
pub proof fn law_metadata_request_is_read(r: MetadataRequestModel, rest: Seq<u8>, version: i16)
    requires
        0 <= version <= 4,
        r.topics.len() <= i32::MAX,
        names_fit(r.topics),
        version < 4 ==> !r.allow_auto_topic_creation,
    ensures
        sp_metadata_request(
            cursor(
                put_names(
                    r.topics,
                    if version == 4 {
                        enc_i8(
                            if r.allow_auto_topic_creation {
                                1i8
                            } else {
                                0i8
                            },
                        ) + rest
                    } else {
                        rest
                    },
                ),
            ),
            version,
        ) == (r, cursor(rest)),
{
    let b: i8 = if r.allow_auto_topic_creation {
        1
    } else {
        0
    };
    let tail = if version == 4 {
        enc_i8(b) + rest
    } else {
        rest
    };
    lemma_names(r.topics, tail, version);
    law_i8_round_trip(b, rest);
}

/// What a client writes to ask for the bounds of a partition.
pub open spec fn put_bounds_query(q: (i32, i8, i64, i32), version: i16, rest: Seq<u8>) -> Seq<u8> {
    enc_i32(q.0) + (enc_i64(q.2) + if version == 0 {
        enc_i32(q.3) + rest
    } else {
        rest
    })
}

/// What a client writes to ask for the bounds of partitions of a topic.
pub open spec fn put_bounds_topic(
    t: (Seq<char>, Seq<(i32, i8, i64, i32)>),
    version: i16,
    rest: Seq<u8>,
) -> Seq<u8> {
    enc_string(t.0) + (enc_i32(t.1.len() as i32) + t.1.fold_right(
        |q: (i32, i8, i64, i32), r: Seq<u8>| put_bounds_query(q, version, r),
        rest,
    ))
}

/// Whether a question for bounds fits its length fields, and says nothing that the
/// version has no field for.
pub open spec fn bounds_topic_fits(
    t: (Seq<char>, Seq<(i32, i8, i64, i32)>),
    version: i16,
) -> bool {
    &&& name_fits(t.0)
    &&& t.1.len() <= i32::MAX
    &&& forall|i: int|
        0 <= i < t.1.len() ==> (#[trigger] t.1[i]).1 == 0 && (version > 0 ==> t.1[i].3 == 1)
}

proof fn lemma_bounds_topic(
    t: (Seq<char>, Seq<(i32, i8, i64, i32)>),
    rest: Seq<u8>,
    version: i16,
)
    requires
        0 <= version < 4,
        bounds_topic_fits(t, version),
    ensures
        <(String, Vec<(i32, i8, i64, i32)>)>::sp_read(
            cursor(put_bounds_topic(t, version, rest)),
            version,
        ) == (t, cursor(rest)),
{
    let qs = t.1;
    let f = |q: (i32, i8, i64, i32), r: Seq<u8>| put_bounds_query(q, version, r);
    assert(reads_back::<(i32, i8, i64, i32)>(qs, f, version)) by {
        assert forall|i: int, r: Seq<u8>|
            0 <= i < qs.len() implies <(i32, i8, i64, i32)>::sp_read(
            cursor(#[trigger] f(qs[i], r)),
            version,
        ) == (qs[i], cursor(r)) by {
            let q = qs[i];
            let tail = if version == 0 {
                enc_i32(q.3) + r
            } else {
                r
            };
            law_i32_round_trip(q.0, enc_i64(q.2) + tail);
            law_i64_round_trip(q.2, tail);
            law_i32_round_trip(q.3, r);
            assert(q == (q.0, q.1, q.2, q.3));
        }
    }
    let body = qs.fold_right(f, rest);
    law_array_is_read::<(i32, i8, i64, i32)>(qs, f, rest, version);
    law_string_round_trip(t.0, enc_i32(qs.len() as i32) + body);
    law_i32_round_trip(qs.len() as i32, body);
    assert(t == (t.0, t.1));
}

/// A request for the bounds of partitions is read as a client writes it.
pub proof fn law_list_offsets_request_is_read(
    r: ListOffsetsRequestModel,
    isolation: i8,
    rest: Seq<u8>,
    version: i16,
)
    requires
        0 <= version < 4,
        r.topics.len() <= i32::MAX,
        forall|i: int|
            0 <= i < r.topics.len() ==> bounds_topic_fits(#[trigger] r.topics[i], version),
    ensures
        ({
            let body = enc_i32(r.topics.len() as i32) + r.topics.fold_right(
                |t: (Seq<char>, Seq<(i32, i8, i64, i32)>), s: Seq<u8>|
                    put_bounds_topic(t, version, s),
                rest,
            );
            sp_list_offsets_request(
                cursor(
                    enc_i32(r.replica_id) + if version >= 2 {
                        enc_i8(isolation) + body
                    } else {
                        body
                    },
                ),
                version,
            ) == (r, cursor(rest))
        }),
{
    let ts = r.topics;
    let f = |t: (Seq<char>, Seq<(i32, i8, i64, i32)>), s: Seq<u8>| put_bounds_topic(t, version, s);
    assert(reads_back::<(String, Vec<(i32, i8, i64, i32)>)>(ts, f, version)) by {
        assert forall|i: int, s: Seq<u8>|
            0 <= i < ts.len() implies <(String, Vec<(i32, i8, i64, i32)>)>::sp_read(
            cursor(#[trigger] f(ts[i], s)),
            version,
        ) == (ts[i], cursor(s)) by {
            lemma_bounds_topic(ts[i], s, version);
        }
    }
    let all = ts.fold_right(f, rest);
    let body = enc_i32(ts.len() as i32) + all;
    let tail = if version >= 2 {
        enc_i8(isolation) + body
    } else {
        body
    };
    law_array_is_read::<(String, Vec<(i32, i8, i64, i32)>)>(ts, f, rest, version);
    law_i32_round_trip(r.replica_id, tail);
    law_i8_round_trip(isolation, body);
    law_i32_round_trip(ts.len() as i32, all);
}

/// What a client writes of an offset that it commits, where the version has no
/// field for a time.
pub open spec fn put_commit(c: (i32, i64, Option<Seq<char>>, i64), rest: Seq<u8>) -> Seq<u8> {
    enc_i32(c.0) + (enc_i64(c.1) + (enc_nullable_string(c.2) + rest))
}

/// What a client writes of the offsets in a topic that it commits.
pub open spec fn put_commit_topic(
    t: (Seq<char>, Seq<(i32, i64, Option<Seq<char>>, i64)>),
    rest: Seq<u8>,
) -> Seq<u8> {
    enc_string(t.0) + (enc_i32(t.1.len() as i32) + t.1.fold_right(
        |c: (i32, i64, Option<Seq<char>>, i64), r: Seq<u8>| put_commit(c, r),
        rest,
    ))
}

/// Whether commits fit their length fields, and say nothing that there is no field
/// for.
pub open spec fn commit_topic_fits(
    t: (Seq<char>, Seq<(i32, i64, Option<Seq<char>>, i64)>),
) -> bool {
    &&& name_fits(t.0)
    &&& t.1.len() <= i32::MAX
    &&& forall|i: int|
        0 <= i < t.1.len() ==> (#[trigger] t.1[i]).3 == -1 && (t.1[i].2 matches Some(s)
            ==> name_fits(s))
}

proof fn lemma_commit_topic(
    t: (Seq<char>, Seq<(i32, i64, Option<Seq<char>>, i64)>),
    rest: Seq<u8>,
    version: i16,
)
    requires
        version == 0 || 2 <= version < 6,
        commit_topic_fits(t),
    ensures
        <(String, Vec<(i32, i64, Option<String>, i64)>)>::sp_read(
            cursor(put_commit_topic(t, rest)),
            version,
        ) == (t, cursor(rest)),
{
    let cs = t.1;
    let f = |c: (i32, i64, Option<Seq<char>>, i64), r: Seq<u8>| put_commit(c, r);
    assert(reads_back::<(i32, i64, Option<String>, i64)>(cs, f, version)) by {
        assert forall|i: int, r: Seq<u8>|
            0 <= i < cs.len() implies <(i32, i64, Option<String>, i64)>::sp_read(
            cursor(#[trigger] f(cs[i], r)),
            version,
        ) == (cs[i], cursor(r)) by {
            let c = cs[i];
            let tail = enc_nullable_string(c.2) + r;
            law_i32_round_trip(c.0, enc_i64(c.1) + tail);
            law_i64_round_trip(c.1, tail);
            law_nullable_string_round_trip(c.2, r);
            assert(c == (c.0, c.1, c.2, c.3));
        }
    }
    let body = cs.fold_right(f, rest);
    law_array_is_read::<(i32, i64, Option<String>, i64)>(cs, f, rest, version);
    law_string_round_trip(t.0, enc_i32(cs.len() as i32) + body);
    law_i32_round_trip(cs.len() as i32, body);
    assert(t == (t.0, t.1));
}

/// A request to commit is read as a client writes it.
pub proof fn law_offset_commit_request_is_read(
    r: OffsetCommitRequestModel,
    retention: i64,
    rest: Seq<u8>,
    version: i16,
)
    requires
        2 <= version < 6,
        name_fits(r.group_id),
        name_fits(r.member_id),
        r.topics.len() <= i32::MAX,
        forall|i: int| 0 <= i < r.topics.len() ==> commit_topic_fits(#[trigger] r.topics[i]),
    ensures
        sp_offset_commit_request(
            cursor(
                enc_string(r.group_id) + (enc_i32(r.generation_id) + (enc_string(r.member_id) + (
                enc_i64(retention) + (enc_i32(r.topics.len() as i32) + r.topics.fold_right(
                    |t: (Seq<char>, Seq<(i32, i64, Option<Seq<char>>, i64)>), s: Seq<u8>|
                        put_commit_topic(t, s),
                    rest,
                ))))),
            ),
            version,
        ) == (r, cursor(rest)),
{
    let ts = r.topics;
    let f = |t: (Seq<char>, Seq<(i32, i64, Option<Seq<char>>, i64)>), s: Seq<u8>|
        put_commit_topic(t, s);
    assert(reads_back::<(String, Vec<(i32, i64, Option<String>, i64)>)>(ts, f, version)) by {
        assert forall|i: int, s: Seq<u8>|
            0 <= i < ts.len() implies <(String, Vec<(i32, i64, Option<String>, i64)>)>::sp_read(
            cursor(#[trigger] f(ts[i], s)),
            version,
        ) == (ts[i], cursor(s)) by {
            lemma_commit_topic(ts[i], s, version);
        }
    }
    let e = ts.fold_right(f, rest);
    let d = enc_i32(ts.len() as i32) + e;
    let c = enc_i64(retention) + d;
    let b = enc_string(r.member_id) + c;
    let a = enc_i32(r.generation_id) + b;
    law_array_is_read::<(String, Vec<(i32, i64, Option<String>, i64)>)>(ts, f, rest, version);
    law_string_round_trip(r.group_id, a);
    law_i32_round_trip(r.generation_id, b);
    law_string_round_trip(r.member_id, c);
    law_i64_round_trip(retention, d);
    law_i32_round_trip(ts.len() as i32, e);
}

/// The first request to commit says neither a member nor a generation, and how long
/// offsets are kept is not said before version 2.
pub proof fn law_early_commit_request_is_read(r: OffsetCommitRequestModel, rest: Seq<u8>)
    requires
        name_fits(r.group_id),
        r.generation_id == -1,
        r.member_id.len() == 0,
        r.topics.len() <= i32::MAX,
        forall|i: int| 0 <= i < r.topics.len() ==> commit_topic_fits(#[trigger] r.topics[i]),
    ensures
        sp_offset_commit_request(
            cursor(
                enc_string(r.group_id) + (enc_i32(r.topics.len() as i32) + r.topics.fold_right(
                    |t: (Seq<char>, Seq<(i32, i64, Option<Seq<char>>, i64)>), s: Seq<u8>|
                        put_commit_topic(t, s),
                    rest,
                )),
            ),
            0,
        ) == (r, cursor(rest)),
{
    let ts = r.topics;
    let f = |t: (Seq<char>, Seq<(i32, i64, Option<Seq<char>>, i64)>), s: Seq<u8>|
        put_commit_topic(t, s);
    assert(reads_back::<(String, Vec<(i32, i64, Option<String>, i64)>)>(ts, f, 0)) by {
        assert forall|i: int, s: Seq<u8>|
            0 <= i < ts.len() implies <(String, Vec<(i32, i64, Option<String>, i64)>)>::sp_read(
            cursor(#[trigger] f(ts[i], s)),
            0,
        ) == (ts[i], cursor(s)) by {
            lemma_commit_topic(ts[i], s, 0);
        }
    }
    let e = ts.fold_right(f, rest);
    let d = enc_i32(ts.len() as i32) + e;
    law_array_is_read::<(String, Vec<(i32, i64, Option<String>, i64)>)>(ts, f, rest, 0);
    law_string_round_trip(r.group_id, d);
    law_i32_round_trip(ts.len() as i32, e);
    assert(r.member_id =~= Seq::empty());
}

/// Only in version 1 does a client write a time behind each offset that it commits.
/// From then on it says who it is, as a member of which generation.
pub proof fn law_timed_commit_is_read(
    c: (i32, i64, Option<Seq<char>>, i64),
    group: Seq<char>,
    generation: i32,
    member: Seq<char>,
    rest: Seq<u8>,
)
    requires
        c.2 matches Some(s) ==> name_fits(s),
        name_fits(group),
        name_fits(member),
    ensures
        <(i32, i64, Option<String>, i64)>::sp_read(
            cursor(
                enc_i32(c.0) + (enc_i64(c.1) + (enc_i64(c.3) + (enc_nullable_string(c.2) + rest))),
            ),
            1,
        ) == (c, cursor(rest)),
        sp_offset_commit_request(
            cursor(
                enc_string(group) + (enc_i32(generation) + (enc_string(member) + (enc_i32(0)
                    + rest))),
            ),
            1,
        ) == (
            OffsetCommitRequestModel {
                group_id: group,
                generation_id: generation,
                member_id: member,
                topics: Seq::empty(),
            },
            cursor(rest),
        ),
{
    let d = enc_nullable_string(c.2) + rest;
    let b = enc_i64(c.3) + d;
    law_i32_round_trip(c.0, enc_i64(c.1) + b);
    law_i64_round_trip(c.1, b);
    law_i64_round_trip(c.3, d);
    law_nullable_string_round_trip(c.2, rest);
    assert(c == (c.0, c.1, c.2, c.3));
    let g = enc_i32(0) + rest;
    let f = enc_string(member) + g;
    law_string_round_trip(group, enc_i32(generation) + f);
    law_i32_round_trip(generation, f);
    law_string_round_trip(member, g);
    law_i32_round_trip(0, rest);
}

/// What a client writes of the partitions of a topic whose offsets it asks for.
pub open spec fn put_numbers_topic(t: (Seq<char>, Seq<i32>), rest: Seq<u8>) -> Seq<u8> {
    enc_string(t.0) + (enc_i32(t.1.len() as i32) + t.1.fold_right(
        |n: i32, r: Seq<u8>| put_number(n, r),
        rest,
    ))
}

/// A request for committed offsets is read as a client writes it.
pub proof fn law_offset_fetch_request_is_read(
    r: OffsetFetchRequestModel,
    rest: Seq<u8>,
    version: i16,
)
    requires
        name_fits(r.group_id),
        r.topics.len() <= i32::MAX,
        forall|i: int|
            0 <= i < r.topics.len() ==> name_fits((#[trigger] r.topics[i]).0)
                && r.topics[i].1.len() <= i32::MAX,
    ensures
        sp_offset_fetch_request(
            cursor(
                enc_string(r.group_id) + (enc_i32(r.topics.len() as i32) + r.topics.fold_right(
                    |t: (Seq<char>, Seq<i32>), s: Seq<u8>| put_numbers_topic(t, s),
                    rest,
                )),
            ),
            version,
        ) == (r, cursor(rest)),
{
    let ts = r.topics;
    let f = |t: (Seq<char>, Seq<i32>), s: Seq<u8>| put_numbers_topic(t, s);
    let g = |n: i32, s: Seq<u8>| put_number(n, s);
    assert(reads_back::<(String, Vec<i32>)>(ts, f, version)) by {
        assert forall|i: int, s: Seq<u8>| 0 <= i < ts.len() implies <(String, Vec<i32>)>::sp_read(
            cursor(#[trigger] f(ts[i], s)),
            version,
        ) == (ts[i], cursor(s)) by {
            let t = ts[i];
            assert(reads_back::<i32>(t.1, g, version)) by {
                assert forall|j: int, q: Seq<u8>| 0 <= j < t.1.len() implies i32::sp_read(
                    cursor(#[trigger] g(t.1[j], q)),
                    version,
                ) == (t.1[j], cursor(q)) by {
                    law_i32_round_trip(t.1[j], q);
                }
            }
            let body = t.1.fold_right(g, s);
            law_array_is_read::<i32>(t.1, g, s, version);
            law_string_round_trip(t.0, enc_i32(t.1.len() as i32) + body);
            law_i32_round_trip(t.1.len() as i32, body);
            assert(t == (t.0, t.1));
        }
    }
    let b = ts.fold_right(f, rest);
    law_array_is_read::<(String, Vec<i32>)>(ts, f, rest, version);
    law_string_round_trip(r.group_id, enc_i32(ts.len() as i32) + b);
    law_i32_round_trip(ts.len() as i32, b);
}

/// A request to join is read as a client writes it; in version 0 the time for a
/// rebalance is that of the session.
pub proof fn law_join_group_request_is_read(
    r: JoinGroupRequestModel,
    rest: Seq<u8>,
    version: i16,
)
    requires
        0 <= version < 5,
        name_fits(r.group_id),
        name_fits(r.member_id),
        name_fits(r.protocol_type),
        pairs_fit(r.group_protocols),
        version == 0 ==> r.rebalance_timeout_ms == r.session_timeout_ms,
    ensures
        ({
            let tail = enc_string(r.member_id) + (enc_string(r.protocol_type) + put_pairs(
                r.group_protocols,
                rest,
            ));
            sp_join_group_request(
                cursor(
                    enc_string(r.group_id) + (enc_i32(r.session_timeout_ms) + if version >= 1 {
                        enc_i32(r.rebalance_timeout_ms) + tail
                    } else {
                        tail
                    }),
                ),
                version,
            ) == (r, cursor(rest))
        }),
{
    let d = put_pairs(r.group_protocols, rest);
    let c = enc_string(r.protocol_type) + d;
    let tail = enc_string(r.member_id) + c;
    let b = if version >= 1 {
        enc_i32(r.rebalance_timeout_ms) + tail
    } else {
        tail
    };
    law_string_round_trip(r.group_id, enc_i32(r.session_timeout_ms) + b);
    law_i32_round_trip(r.session_timeout_ms, b);
    law_i32_round_trip(r.rebalance_timeout_ms, tail);
    law_string_round_trip(r.member_id, c);
    law_string_round_trip(r.protocol_type, d);
    lemma_pairs(r.group_protocols, rest, version);
}

/// A request for an assignment is read as a client writes it.
pub proof fn law_sync_group_request_is_read(
    r: SyncGroupRequestModel,
    rest: Seq<u8>,
    version: i16,
)
    requires
        name_fits(r.group_id),
        name_fits(r.member_id),
        pairs_fit(r.assignments),
    ensures
        sp_sync_group_request(
            cursor(
                enc_string(r.group_id) + (enc_i32(r.generation_id) + (enc_string(r.member_id)
                    + put_pairs(r.assignments, rest))),
            ),
            version,
        ) == (r, cursor(rest)),
{
    let c = put_pairs(r.assignments, rest);
    let b = enc_string(r.member_id) + c;
    law_string_round_trip(r.group_id, enc_i32(r.generation_id) + b);
    law_i32_round_trip(r.generation_id, b);
    law_string_round_trip(r.member_id, c);
    lemma_pairs(r.assignments, rest, version);
}

/// A sign of life, and a request to leave, are read as a client writes them.
pub proof fn law_heartbeat_and_leave_are_read(
    h: HeartbeatRequestModel,
    l: LeaveGroupRequestModel,
    rest: Seq<u8>,
)
    requires
        name_fits(h.group_id),
        name_fits(h.member_id),
        name_fits(l.group_id),
        name_fits(l.member_id),
    ensures
        sp_heartbeat_request(
            cursor(
                enc_string(h.group_id) + (enc_i32(h.generation_id) + (enc_string(h.member_id)
                    + rest)),
            ),
        ) == (h, cursor(rest)),
        sp_leave_group_request(
            cursor(enc_string(l.group_id) + (enc_string(l.member_id) + rest)),
        ) == (l, cursor(rest)),
{
    let b = enc_string(h.member_id) + rest;
    law_string_round_trip(h.group_id, enc_i32(h.generation_id) + b);
    law_i32_round_trip(h.generation_id, b);
    law_string_round_trip(h.member_id, rest);
    law_string_round_trip(l.group_id, enc_string(l.member_id) + rest);
    law_string_round_trip(l.member_id, rest);
}

/// What a client writes of a topic that it wants created.
pub open spec fn put_new_topic(
    t: (Seq<char>, i32, i16, Seq<(Seq<char>, Seq<char>)>),
    rest: Seq<u8>,
) -> Seq<u8> {
    enc_string(t.0) + (enc_i32(t.1) + (enc_i16(t.2) + (enc_i32(t.3.len() as i32) + t.3.fold_right(
        |x: (Seq<char>, Seq<char>), r: Seq<u8>| enc_string(x.0) + (enc_string(x.1) + r),
        rest,
    ))))
}

/// Whether a topic to create fits its length fields.
pub open spec fn new_topic_fits(t: (Seq<char>, i32, i16, Seq<(Seq<char>, Seq<char>)>)) -> bool {
    &&& name_fits(t.0)
    &&& t.3.len() <= i32::MAX
    &&& forall|i: int|
        0 <= i < t.3.len() ==> name_fits((#[trigger] t.3[i]).0) && name_fits(t.3[i].1)
}

proof fn lemma_new_topic(
    t: (Seq<char>, i32, i16, Seq<(Seq<char>, Seq<char>)>),
    rest: Seq<u8>,
    version: i16,
)
    requires
        new_topic_fits(t),
    ensures
        <(String, i32, i16, Vec<(String, String)>)>::sp_read(
            cursor(put_new_topic(t, rest)),
            version,
        ) == (t, cursor(rest)),
{
    let xs = t.3;
    let f = |x: (Seq<char>, Seq<char>), r: Seq<u8>| enc_string(x.0) + (enc_string(x.1) + r);
    assert(reads_back::<(String, String)>(xs, f, version)) by {
        assert forall|i: int, r: Seq<u8>| 0 <= i < xs.len() implies <(String, String)>::sp_read(
            cursor(#[trigger] f(xs[i], r)),
            version,
        ) == (xs[i], cursor(r)) by {
            let x = xs[i];
            law_string_round_trip(x.0, enc_string(x.1) + r);
            law_string_round_trip(x.1, r);
            assert(x == (x.0, x.1));
        }
    }
    let c = xs.fold_right(f, rest);
    let b = enc_i32(xs.len() as i32) + c;
    let a = enc_i16(t.2) + b;
    law_array_is_read::<(String, String)>(xs, f, rest, version);
    law_string_round_trip(t.0, enc_i32(t.1) + a);
    law_i32_round_trip(t.1, a);
    law_i16_round_trip(t.2, b);
    law_i32_round_trip(xs.len() as i32, c);
    assert(t == (t.0, t.1, t.2, t.3));
}

/// A request to create topics is read as a client writes it.
pub proof fn law_create_topics_request_is_read(r: CreateTopicsRequestModel, version: i16)
    requires
        r.topics.len() <= i32::MAX,
        forall|i: int| 0 <= i < r.topics.len() ==> new_topic_fits(#[trigger] r.topics[i]),
    ensures
        sp_create_topics_request(
            cursor(
                enc_i32(r.topics.len() as i32) + r.topics.fold_right(
                    |t: (Seq<char>, i32, i16, Seq<(Seq<char>, Seq<char>)>), s: Seq<u8>|
                        put_new_topic(t, s),
                    enc_i32(r.timeout_ms) + enc_i8(
                        if r.validate_only {
                            1i8
                        } else {
                            0i8
                        },
                    ),
                ),
            ),
            version,
        ) == (r, cursor(Seq::empty())),
{
    broadcast use lemma_be_len;

    let ts = r.topics;
    let f = |t: (Seq<char>, i32, i16, Seq<(Seq<char>, Seq<char>)>), s: Seq<u8>| put_new_topic(t, s);
    assert(reads_back::<(String, i32, i16, Vec<(String, String)>)>(ts, f, version)) by {
        assert forall|i: int, s: Seq<u8>|
            0 <= i < ts.len() implies <(String, i32, i16, Vec<(String, String)>)>::sp_read(
            cursor(#[trigger] f(ts[i], s)),
            version,
        ) == (ts[i], cursor(s)) by {
            lemma_new_topic(ts[i], s, version);
        }
    }
    let b: i8 = if r.validate_only {
        1
    } else {
        0
    };
    let tail = enc_i32(r.timeout_ms) + enc_i8(b);
    law_array_is_read::<(String, i32, i16, Vec<(String, String)>)>(ts, f, tail, version);
    law_i32_round_trip(ts.len() as i32, ts.fold_right(f, tail));
    law_i32_round_trip(r.timeout_ms, enc_i8(b));
    law_i8_round_trip(b, Seq::empty());
    assert(enc_i8(b) + Seq::empty() =~= enc_i8(b));
    assert(enc_i8(b).len() == 1);
}

/// A request to delete topics, and one for what groups are, are read as a client
/// writes them.
pub proof fn law_names_are_read(
    d: DeleteTopicsRequestModel,
    ids: Seq<Seq<char>>,
    rest: Seq<u8>,
    version: i16,
)
    requires
        d.topic_names.len() <= i32::MAX,
        names_fit(d.topic_names),
        ids.len() <= i32::MAX,
        names_fit(ids),
    ensures
        sp_delete_topics_request(
            cursor(put_names(d.topic_names, enc_i32(d.timeout_ms) + rest)),
            version,
        ) == (d, cursor(rest)),
        sp_describe_groups_request(cursor(put_names(ids, rest)), version) == (ids, cursor(rest)),
{
    lemma_names(d.topic_names, enc_i32(d.timeout_ms) + rest, version);
    law_i32_round_trip(d.timeout_ms, rest);
    lemma_names(ids, rest, version);
}

/// A request for the groups names no states before version 4, and every group is then
/// listed.
pub proof fn law_early_list_request_is_read(c: Cursor, version: i16)
    requires
        version < 4,
    ensures
        sp_list_groups_request(c, version).0.len() == 0,
        sp_list_groups_request(c, version).1 == c,
{
}

// ---------------------------------------------------------------------------

/// Every request that there is a number for is supported, once, from version 0 on.
pub proof fn law_supported_requests(i: int, j: int)
    requires
        0 <= i < j < SUPPORTED_API_KEYS@.len(),
    ensures
        SUPPORTED_API_KEYS@.len() == 17,
        SUPPORTED_API_KEYS@[i].0 != SUPPORTED_API_KEYS@[j].0,
        SUPPORTED_API_KEYS@[i].1 == 0,
        SUPPORTED_API_KEYS@[j].1 == 0,
        SUPPORTED_API_KEYS@[i].2 >= 1,
        SUPPORTED_API_KEYS@[j].2 >= 1,
{
}

} // verus!
