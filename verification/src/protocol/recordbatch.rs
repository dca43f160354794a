//! Record batches, in the second version of the message format.
//!
//! ```text
//! baseOffset:           int64
//! batchLength:          int32   what follows this field
//! partitionLeaderEpoch: int32
//! magic:                int8    2
//! crc:                  uint32  of everything from the attributes on
//! attributes:           int16
//! lastOffsetDelta:      int32
//! baseTimestamp:        int64
//! maxTimestamp:         int64
//! producerId:           int64
//! producerEpoch:        int16
//! baseSequence:         int32
//! recordsCount:         int32
//! records:              [Record], compressed
//! ```

use bytes::Bytes;
use vstd::prelude::*;
use vstd::slice::slice_subrange;
use vstd::utf8::encode_utf8;

use crate::buf;
use crate::buf::bytes_view;
use crate::protocol::codec::{count, read_counted, sp_array, WireRead};
use crate::protocol::compression::{
    compress, compressed, compression_of, decompress, decompressed, longest, snappy_fits,
    unsettled_data, Compression,
};
use crate::protocol::primitive::{
    cursor, decodes, law_bytes_round_trip, law_i16_round_trip, law_i32_round_trip,
    law_i64_round_trip, law_i8_round_trip, law_unsigned_round_trip, law_utf8_round_trip,
    law_varint_round_trip, sp_i16, sp_i32, sp_i64, sp_i8, sp_take, sp_u32, sp_utf8, sp_varint,
    Cursor, DecodeError, Decoder, Encoder, Error, Modeled, Result,
};
use crate::protocol::wire::{
    be, be_uint, be_value, enc_i16, enc_i32, enc_i64, enc_i8, from_zigzag, lemma_be_len,
    lemma_be_value, lemma_int_round_trip, lemma_pow256, lemma_zigzag, signed32, signed64,
    to_zigzag,
    unzigzag, uvarint, zigzag,
};

verus! {

/// The version of the message format.
pub const MAGIC_V2: i8 = 2;

pub const CURRENT_BATCH: &'static str = "";

/// The bytes of a batch before its records.
pub const HEADER_BYTES: usize = 61;

/// The bits of a batch's attributes.
pub struct Attribute;

impl Attribute {
    pub const COMPRESSION_MASK: i16 = 0x07;

    pub const TIMESTAMP_TYPE_MASK: i16 = 0x08;

    pub const TRANSACTIONAL_MASK: i16 = 0x10;

    pub const CONTROL_MASK: i16 = 0x20;
}

/// One record.
#[derive(Debug, Clone, PartialEq)]
pub struct Record {
    pub attributes: i8,
    pub timestamp_delta: i64,
    pub offset_delta: i32,
    pub key: Option<Bytes>,
    pub value: Option<Bytes>,
    pub headers: Vec<(String, Option<Bytes>)>,
}

/// A batch of records.
#[derive(Debug, Clone)]
pub struct RecordBatch {
    pub base_offset: i64,
    pub partition_leader_epoch: i32,
    pub magic: i8,
    pub attributes: i16,
    pub last_offset_delta: i32,
    pub base_timestamp: i64,
    pub max_timestamp: i64,
    pub producer_id: i64,
    pub producer_epoch: i16,
    pub base_sequence: i32,
    pub records: Vec<Record>,
    /// The bytes that the batch was parsed from.
    pub raw: Bytes,
}

/// Batches one after the other, as bytes.
pub type Records = Bytes;

/// The mathematical value of a record.
pub struct RecordModel {
    pub attributes: i8,
    pub timestamp_delta: i64,
    pub offset_delta: i32,
    pub key: Option<Seq<u8>>,
    pub value: Option<Seq<u8>>,
    pub headers: Seq<HeaderModel>,
}

/// The mathematical value of a record's header: its name and value.
pub type HeaderModel = (Seq<char>, Option<Seq<u8>>);

/// The mathematical value of a batch.
pub struct BatchModel {
    pub base_offset: i64,
    pub partition_leader_epoch: i32,
    pub magic: i8,
    pub attributes: i16,
    pub last_offset_delta: i32,
    pub base_timestamp: i64,
    pub max_timestamp: i64,
    pub producer_id: i64,
    pub producer_epoch: i16,
    pub base_sequence: i32,
    pub records: Seq<RecordModel>,
}

impl Modeled for Record {
    type M = RecordModel;

    open spec fn model(&self) -> RecordModel {
        RecordModel {
            attributes: self.attributes,
            timestamp_delta: self.timestamp_delta,
            offset_delta: self.offset_delta,
            key: self.key.model(),
            value: self.value.model(),
            headers: self.headers.model(),
        }
    }
}

impl Modeled for RecordBatch {
    type M = BatchModel;

    open spec fn model(&self) -> BatchModel {
        BatchModel {
            base_offset: self.base_offset,
            partition_leader_epoch: self.partition_leader_epoch,
            magic: self.magic,
            attributes: self.attributes,
            last_offset_delta: self.last_offset_delta,
            base_timestamp: self.base_timestamp,
            max_timestamp: self.max_timestamp,
            producer_id: self.producer_id,
            producer_epoch: self.producer_epoch,
            base_sequence: self.base_sequence,
            records: self.records.model(),
        }
    }
}

// ---------------------------------------------------------------------------
// What is read

/// A signed varint.
pub open spec fn sp_signed(c: Cursor) -> (i64, Cursor) {
    let (u, c1) = sp_varint(c);
    (unzigzag(u), c1)
}

/// A signed length and as many bytes; a negative length stands for none.
pub open spec fn sp_field(c: Cursor) -> (Option<Seq<u8>>, Cursor) {
    let (n, c1) = sp_signed(c);
    if c1.err is Some || n < 0 {
        (None, c1)
    } else {
        let (s, c2) = sp_take(c1, n as usize);
        (Some(s), c2)
    }
}

/// A signed length and a string of as many bytes.
pub open spec fn sp_name(c: Cursor) -> (Seq<char>, Cursor) {
    let (n, c1) = sp_signed(c);
    if c1.err is Some {
        (Seq::empty(), c1)
    } else if n < 0 {
        (Seq::empty(), c1.fail(DecodeError::NegativeLength))
    } else {
        sp_utf8(c1, n as usize)
    }
}

fn read_signed(buf: &mut Decoder) -> (r: Result<i64>)
    ensures
        decodes(r, final(buf).rest(), sp_signed(cursor(old(buf).rest()))),
{
    let u = buf.get_varint()?;
    Ok(from_zigzag(u))
}

fn read_field(buf: &mut Decoder) -> (r: Result<Option<Bytes>>)
    ensures
        decodes(r, final(buf).rest(), sp_field(cursor(old(buf).rest()))),
{
    let n = read_signed(buf)?;
    if n < 0 {
        return Ok(None);
    }
    let b = buf.get_bytes(n as usize)?;
    Ok(Some(b))
}

fn read_name(buf: &mut Decoder) -> (r: Result<String>)
    ensures
        decodes(r, final(buf).rest(), sp_name(cursor(old(buf).rest()))),
{
    let n = read_signed(buf)?;
    if n < 0 {
        return Err(Error::Decode(DecodeError::NegativeLength));
    }
    buf.get_utf8(n as usize)
}

/// A header: a byte that means nothing, a name and a value.
impl WireRead for (String, Option<Bytes>) {
    open spec fn sp_read(c: Cursor, version: i16) -> (HeaderModel, Cursor) {
        let (_attributes, c1) = sp_i8(c);
        let (name, c2) = sp_name(c1);
        let (value, c3) = sp_field(c2);
        ((name, value), c3)
    }

    fn read(buf: &mut Decoder, version: i16) -> (r: Result<Self>) {
        let _attributes = buf.get_i8()?;
        let name = read_name(buf)?;
        let value = read_field(buf)?;
        Ok((name, value))
    }
}

impl WireRead for Record {
    open spec fn sp_read(c: Cursor, version: i16) -> (RecordModel, Cursor) {
        let (attributes, c1) = sp_i8(c);
        let (timestamp_delta, c2) = sp_i64(c1);
        let (offset_delta, c3) = sp_i32(c2);
        let (key, c4) = sp_field(c3);
        let (value, c5) = sp_field(c4);
        let (n, c6) = sp_i32(c5);
        let (headers, c7) = sp_array::<(String, Option<Bytes>)>(c6, count(n), version);
        (RecordModel { attributes, timestamp_delta, offset_delta, key, value, headers }, c7)
    }

    fn read(buf: &mut Decoder, version: i16) -> (r: Result<Self>) {
        let attributes = buf.get_i8()?;
        let timestamp_delta = buf.get_i64()?;
        let offset_delta = buf.get_i32()?;
        let key = read_field(buf)?;
        let value = read_field(buf)?;
        let n = buf.get_i32()?;
        let headers = read_counted::<(String, Option<Bytes>)>(buf, n, version)?;
        Ok(Record { attributes, timestamp_delta, offset_delta, key, value, headers })
    }
}

/// The number of the compression algorithm in a batch's attributes.
pub open spec fn compression_bits(attributes: i16) -> i8 {
    (attributes & Attribute::COMPRESSION_MASK) as i8
}

/// The compression algorithm in a batch's attributes; none if they name none
/// that there is.
pub open spec fn algorithm(attributes: i16) -> Compression {
    match compression_of(compression_bits(attributes)) {
        Some(c) => c,
        None => Compression::Plain,
    }
}

/// The records that the bytes of a batch's body hold.
pub open spec fn records_in(
    attributes: i16,
    n: i32,
    data: Seq<u8>,
) -> core::result::Result<Seq<RecordModel>, DecodeError> {
    let code = compression_bits(attributes);
    match compression_of(code) {
        None => Err(DecodeError::UnknownCompression { code }),
        Some(c) => match decompressed(c, data) {
            None => Err(DecodeError::Decompression { code }),
            Some(plain) => {
                let (records, c1) = sp_array::<Record>(cursor(plain), count(n), 0);
                match c1.err {
                    Some(e) => Err(e),
                    None => Ok(records),
                }
            },
        },
    }
}

/// Whether the length field of a batch takes in the batch's header and leaves
/// off within the bytes there are.
pub open spec fn length_fits(raw: Seq<u8>, length: i32) -> bool {
    49 <= length && 12 + length <= raw.len()
}

/// The fields of a batch before its records.
pub struct HeadModel {
    pub base_offset: i64,
    pub length: i32,
    pub partition_leader_epoch: i32,
    pub magic: i8,
    /// What is wrong with the fields up to here.
    pub err: Option<DecodeError>,
    pub attributes: i16,
    pub last_offset_delta: i32,
    pub base_timestamp: i64,
    pub max_timestamp: i64,
    pub producer_id: i64,
    pub producer_epoch: i16,
    pub base_sequence: i32,
    pub count: i32,
}

/// The fields that bytes begin with.
#[verifier::opaque]
pub open spec fn sp_head(raw: Seq<u8>) -> HeadModel {
    let (base_offset, c1) = sp_i64(cursor(raw));
    let (length, c2) = sp_i32(c1);
    let (partition_leader_epoch, c3) = sp_i32(c2);
    let (magic, c4) = sp_i8(c3);
    let (_crc, c5) = sp_u32(c4);
    let (attributes, c6) = sp_i16(c5);
    let (last_offset_delta, c7) = sp_i32(c6);
    let (base_timestamp, c8) = sp_i64(c7);
    let (max_timestamp, c9) = sp_i64(c8);
    let (producer_id, c10) = sp_i64(c9);
    let (producer_epoch, c11) = sp_i16(c10);
    let (base_sequence, c12) = sp_i32(c11);
    let (count, c13) = sp_i32(c12);
    HeadModel {
        base_offset,
        length,
        partition_leader_epoch,
        magic,
        err: c4.err,
        attributes,
        last_offset_delta,
        base_timestamp,
        max_timestamp,
        producer_id,
        producer_epoch,
        base_sequence,
        count,
    }
}

/// The batch that bytes hold.
pub open spec fn parsed(raw: Seq<u8>) -> core::result::Result<BatchModel, DecodeError> {
    let h = sp_head(raw);
    if h.err is Some {
        Err(h.err->Some_0)
    } else if h.magic != MAGIC_V2 {
        Err(DecodeError::Magic { magic: h.magic })
    } else if !length_fits(raw, h.length) {
        Err(DecodeError::BatchLength { length: h.length })
    } else {
        match records_in(
            h.attributes,
            h.count,
            raw.subrange(HEADER_BYTES as int, 12 + h.length),
        ) {
            Err(e) => Err(e),
            Ok(records) => Ok(
                BatchModel {
                    base_offset: h.base_offset,
                    partition_leader_epoch: h.partition_leader_epoch,
                    magic: h.magic,
                    attributes: h.attributes,
                    last_offset_delta: h.last_offset_delta,
                    base_timestamp: h.base_timestamp,
                    max_timestamp: h.max_timestamp,
                    producer_id: h.producer_id,
                    producer_epoch: h.producer_epoch,
                    base_sequence: h.base_sequence,
                    records,
                },
            ),
        }
    }
}

/// Whether the bytes alone do not decide that the records of a batch decompress.
/// They do of every batch that this crate writes.
pub open spec fn unsettled(raw: Seq<u8>) -> bool {
    let h = sp_head(raw);
    &&& h.err is None
    &&& h.magic == MAGIC_V2
    &&& length_fits(raw, h.length)
    &&& compression_of(compression_bits(h.attributes)) matches Some(c) && unsettled_data(
        c,
        raw.subrange(HEADER_BYTES as int, 12 + h.length),
    )
}

/// Whether an error is what reading a batch comes to: the one that the bytes
/// hold, or that its records do not decompress where the bytes do not decide it.
pub open spec fn refused(raw: Seq<u8>, e: DecodeError) -> bool {
    ||| parsed(raw) == Err::<BatchModel, DecodeError>(e)
    ||| unsettled(raw) && e == DecodeError::Decompression { code: Compression::Zstd.number() }
}

/// Whether a batch or an error is what reading the bytes comes to.
pub open spec fn parses(r: Result<RecordBatch>, raw: Seq<u8>) -> bool {
    match r {
        Ok(b) => parsed(raw) == Ok::<BatchModel, DecodeError>(b.model()) && bytes_view(b.raw)
            == raw,
        Err(Error::Decode(e)) => refused(raw, e),
        Err(_) => false,
    }
}

/// An algorithm has the number by which it is found.
proof fn lemma_number_of(code: i8, c: Compression)
    requires
        compression_of(code) == Some(c),
    ensures
        c.number() == code,
{
}

fn parse_records(attributes: i16, n: i32, data: &[u8]) -> (r: Result<Vec<Record>>)
    ensures
        match r {
            Ok(v) => records_in(attributes, n, data@) == Ok::<Seq<RecordModel>, DecodeError>(
                v.model(),
            ),
            Err(Error::Decode(e)) => {
                ||| records_in(attributes, n, data@) == Err::<Seq<RecordModel>, DecodeError>(e)
                ||| {
                    &&& compression_of(compression_bits(attributes)) == Some(Compression::Zstd)
                    &&& unsettled_data(Compression::Zstd, data@)
                    &&& e == DecodeError::Decompression { code: Compression::Zstd.number() }
                }
            },
            Err(_) => false,
        },
{
    let code = (attributes & Attribute::COMPRESSION_MASK) as i8;
    let c = Compression::from_code(code)?;
    proof {
        lemma_number_of(code, c);
    }
    let plain = decompress(c, data)?;
    let mut buf = Decoder::new(buf::bytes_from_vec(plain));
    read_counted::<Record>(&mut buf, n, 0)
}

// ---------------------------------------------------------------------------
// What is written

/// A length and the bytes, or the length -1 where there are none.
pub open spec fn enc_field(b: Option<Seq<u8>>) -> Seq<u8> {
    match b {
        Some(b) => uvarint(zigzag(b.len() as i64)) + b,
        None => uvarint(zigzag(-1i64)),
    }
}

pub open spec fn enc_header(h: HeaderModel) -> Seq<u8> {
    enc_i8(0) + enc_field(Some(encode_utf8(h.0))) + enc_field(h.1)
}

pub open spec fn enc_headers(hs: Seq<HeaderModel>) -> Seq<u8>
    decreases hs.len(),
{
    if hs.len() == 0 {
        Seq::empty()
    } else {
        enc_headers(hs.drop_last()) + enc_header(hs.last())
    }
}

pub open spec fn enc_record(r: RecordModel) -> Seq<u8> {
    enc_i8(r.attributes) + enc_i64(r.timestamp_delta) + enc_i32(r.offset_delta) + enc_field(r.key)
        + enc_field(r.value) + enc_i32(r.headers.len() as i32) + enc_headers(r.headers)
}

pub open spec fn enc_records(rs: Seq<RecordModel>) -> Seq<u8>
    decreases rs.len(),
{
    if rs.len() == 0 {
        Seq::empty()
    } else {
        enc_records(rs.drop_last()) + enc_record(rs.last())
    }
}

/// The offset of the last of `n` records, counted from the first.
pub open spec fn last_delta(n: nat) -> i32 {
    if n == 0 {
        0
    } else {
        (n - 1) as i32
    }
}

/// The latest of the records' timestamps, not before the first.
pub open spec fn latest(base: i64, rs: Seq<RecordModel>) -> i64
    decreases rs.len(),
{
    if rs.len() == 0 {
        base
    } else {
        let m = latest(base, rs.drop_last());
        let t = base.wrapping_add(rs.last().timestamp_delta);
        if t > m {
            t
        } else {
            m
        }
    }
}

/// The batch that is made of records.
pub open spec fn batch_of(
    base_offset: i64,
    records: Seq<RecordModel>,
    compression: Compression,
    base_timestamp: i64,
    producer_id: i64,
    producer_epoch: i16,
    base_sequence: i32,
    partition_leader_epoch: i32,
) -> BatchModel {
    BatchModel {
        base_offset,
        partition_leader_epoch,
        magic: MAGIC_V2,
        attributes: compression.number() as i16,
        last_offset_delta: last_delta(records.len()),
        base_timestamp,
        max_timestamp: latest(base_timestamp, records),
        producer_id,
        producer_epoch,
        base_sequence,
        records,
    }
}

/// The part of a batch that its checksum covers.
pub open spec fn enc_body(b: BatchModel, data: Seq<u8>) -> Seq<u8> {
    enc_i16(b.attributes) + enc_i32(b.last_offset_delta) + enc_i64(b.base_timestamp) + enc_i64(
        b.max_timestamp,
    ) + enc_i64(b.producer_id) + enc_i16(b.producer_epoch) + enc_i32(b.base_sequence) + enc_i32(
        b.records.len() as i32,
    ) + data
}

/// A batch whose records are compressed to `data`.
pub open spec fn enc_batch(b: BatchModel, data: Seq<u8>) -> Seq<u8> {
    let body = enc_body(b, data);
    enc_i64(b.base_offset) + enc_i32((9 + body.len()) as i32) + enc_i32(b.partition_leader_epoch)
        + enc_i8(b.magic) + be(crc32(body) as nat, 4) + body
}

/// The checksum that `crc32fast::hash` computes.
pub uninterp spec fn crc32(data: Seq<u8>) -> u32;

/// `crc32fast::hash`: the checksum of the data.
#[verifier::external_body]
fn crc32_hash(data: &[u8]) -> (r: u32)
    ensures
        r == crc32(data@),
{
    crc32fast::hash(data)
}

fn put_field(e: &mut Encoder, b: &Option<Bytes>)
    ensures
        final(e)@ == old(e)@ + enc_field(b.model()),
{
    match b {
        Some(b) => {
            e.put_uvarint(to_zigzag(buf::bytes_len(b) as i64));
            e.put_bytes(buf::bytes_slice(b));
        },
        None => e.put_uvarint(to_zigzag(-1)),
    }
    assert(e@ =~= old(e)@ + enc_field(b.model()));
}

fn put_header(e: &mut Encoder, h: &(String, Option<Bytes>))
    ensures
        final(e)@ == old(e)@ + enc_header(h.model()),
{
    e.put_i8(0);
    let name = h.0.as_str().as_bytes();
    e.put_uvarint(to_zigzag(name.len() as i64));
    e.put_bytes(name);
    put_field(e, &h.1);
    assert(e@ =~= old(e)@ + enc_header(h.model()));
}

fn put_record(e: &mut Encoder, r: &Record)
    ensures
        final(e)@ == old(e)@ + enc_record(r.model()),
{
    e.put_i8(r.attributes);
    e.put_i64(r.timestamp_delta);
    e.put_i32(r.offset_delta);
    put_field(e, &r.key);
    put_field(e, &r.value);
    e.put_i32(r.headers.len() as i32);
    let ghost before = e@;
    let ghost hs = r.headers.model();
    let mut i: usize = 0;
    assert(before + enc_headers(hs.take(0)) =~= before);
    while i < r.headers.len()
        invariant
            i <= r.headers@.len(),
            hs == r.headers.model(),
            e@ == before + enc_headers(hs.take(i as int)),
        decreases r.headers@.len() - i,
    {
        put_header(e, &r.headers[i]);
        proof {
            let t = hs.take(i + 1);
            assert(t.drop_last() =~= hs.take(i as int));
            assert(e@ =~= before + enc_headers(t));
        }
        i = i + 1;
    }
    assert(hs.take(i as int) =~= hs);
    assert(e@ =~= old(e)@ + enc_record(r.model()));
}

fn put_records(e: &mut Encoder, records: &Vec<Record>)
    ensures
        final(e)@ == old(e)@ + enc_records(records.model()),
{
    let ghost rs = records.model();
    let mut i: usize = 0;
    assert(old(e)@ + enc_records(rs.take(0)) =~= old(e)@);
    while i < records.len()
        invariant
            i <= records@.len(),
            rs == records.model(),
            e@ == old(e)@ + enc_records(rs.take(i as int)),
        decreases records@.len() - i,
    {
        put_record(e, &records[i]);
        proof {
            let t = rs.take(i + 1);
            assert(t.drop_last() =~= rs.take(i as int));
            assert(e@ =~= old(e)@ + enc_records(t));
        }
        i = i + 1;
    }
    assert(rs.take(i as int) =~= rs);
}

fn latest_timestamp(base: i64, records: &Vec<Record>) -> (r: i64)
    ensures
        r == latest(base, records.model()),
{
    let ghost rs = records.model();
    let mut m: i64 = base;
    let mut i: usize = 0;
    while i < records.len()
        invariant
            i <= records@.len(),
            rs == records.model(),
            m == latest(base, rs.take(i as int)),
        decreases records@.len() - i,
    {
        assert(rs.take(i + 1).drop_last() =~= rs.take(i as int));
        let t = base.wrapping_add(records[i].timestamp_delta);
        if t > m {
            m = t;
        }
        i = i + 1;
    }
    assert(rs.take(i as int) =~= rs);
    m
}

// ---------------------------------------------------------------------------
// What is written is what is read

/// Whether the lengths in a record fit the fields that hold them.
pub open spec fn record_fits(r: RecordModel) -> bool {
    &&& field_fits(r.key)
    &&& field_fits(r.value)
    &&& r.headers.len() <= i32::MAX
    &&& forall|i: int| 0 <= i < r.headers.len() ==> #[trigger] header_fits(r.headers[i])
}

pub open spec fn header_fits(h: HeaderModel) -> bool {
    field_fits(Some(encode_utf8(h.0))) && field_fits(h.1)
}

/// Whether the length of a field fits a signed number and memory.
pub open spec fn field_fits(b: Option<Seq<u8>>) -> bool {
    b matches Some(b) ==> b.len() <= i64::MAX && b.len() <= usize::MAX
}

pub open spec fn records_fit(rs: Seq<RecordModel>) -> bool {
    &&& rs.len() <= i32::MAX
    &&& forall|i: int| 0 <= i < rs.len() ==> #[trigger] record_fits(rs[i])
}

proof fn lemma_signed(n: i64, rest: Seq<u8>)
    ensures
        sp_signed(cursor(uvarint(zigzag(n)) + rest)) == (n, cursor(rest)),
{
    law_varint_round_trip(zigzag(n), rest);
    lemma_zigzag(n);
}

/// A field is read back.
pub proof fn lemma_field(b: Option<Seq<u8>>, rest: Seq<u8>)
    requires
        field_fits(b),
    ensures
        sp_field(cursor(enc_field(b) + rest)) == (b, cursor(rest)),
{
    match b {
        Some(b) => {
            let n = b.len() as i64;
            assert(enc_field(Some(b)) + rest =~= uvarint(zigzag(n)) + (b + rest));
            lemma_signed(n, b + rest);
            law_bytes_round_trip(b, n as usize, rest);
        },
        None => lemma_signed(-1i64, rest),
    }
}

proof fn lemma_header(h: HeaderModel, rest: Seq<u8>)
    requires
        header_fits(h),
    ensures
        <(String, Option<Bytes>)>::sp_read(cursor(enc_header(h) + rest), 0) == (h, cursor(rest)),
{
    let name = encode_utf8(h.0);
    let n = name.len() as i64;
    let tail = enc_field(h.1) + rest;
    assert(enc_header(h) + rest =~= enc_i8(0) + (uvarint(zigzag(n)) + (name + tail)));
    law_i8_round_trip(0, uvarint(zigzag(n)) + (name + tail));
    lemma_signed(n, name + tail);
    law_utf8_round_trip(h.0, n as usize, tail);
    lemma_field(h.1, rest);
}

proof fn lemma_headers(hs: Seq<HeaderModel>, rest: Seq<u8>)
    requires
        forall|i: int| 0 <= i < hs.len() ==> #[trigger] header_fits(hs[i]),
    ensures
        sp_array::<(String, Option<Bytes>)>(cursor(enc_headers(hs) + rest), hs.len(), 0) == (
            hs,
            cursor(rest),
        ),
    decreases hs.len(),
{
    if hs.len() == 0 {
        assert(enc_headers(hs) + rest =~= rest);
        assert(hs =~= Seq::empty());
    } else {
        let front = hs.drop_last();
        assert(forall|i: int| 0 <= i < front.len() ==> header_fits(#[trigger] front[i])) by {
            assert(forall|i: int| 0 <= i < front.len() ==> #[trigger] front[i] == hs[i]);
        }
        assert(header_fits(hs[hs.len() - 1]));
        assert(enc_headers(hs) + rest =~= enc_headers(front) + (enc_header(hs.last()) + rest));
        lemma_headers(front, enc_header(hs.last()) + rest);
        lemma_header(hs.last(), rest);
        assert(front.push(hs.last()) =~= hs);
    }
}

/// A record reads back as written, whatever follows it.
#[verifier::spinoff_prover]
#[verifier::rlimit(40)]
pub proof fn law_record_round_trip(r: RecordModel, rest: Seq<u8>)
    requires
        record_fits(r),
    ensures
        Record::sp_read(cursor(enc_record(r) + rest), 0) == (r, cursor(rest)),
{
    let n = r.headers.len() as i32;
    let t6 = enc_headers(r.headers) + rest;
    let t5 = enc_i32(n) + t6;
    let t4 = enc_field(r.value) + t5;
    let t3 = enc_field(r.key) + t4;
    let t2 = enc_i32(r.offset_delta) + t3;
    let t1 = enc_i64(r.timestamp_delta) + t2;
    assert(enc_record(r) + rest =~= enc_i8(r.attributes) + t1);
    law_i8_round_trip(r.attributes, t1);
    law_i64_round_trip(r.timestamp_delta, t2);
    law_i32_round_trip(r.offset_delta, t3);
    lemma_field(r.key, t4);
    lemma_field(r.value, t5);
    law_i32_round_trip(n, t6);
    lemma_headers(r.headers, rest);
}

/// Records read back as written, whatever follows them.
#[verifier::spinoff_prover]
#[verifier::rlimit(40)]
pub proof fn law_records_round_trip(rs: Seq<RecordModel>, rest: Seq<u8>)
    requires
        forall|i: int| 0 <= i < rs.len() ==> #[trigger] record_fits(rs[i]),
    ensures
        sp_array::<Record>(cursor(enc_records(rs) + rest), rs.len(), 0) == (rs, cursor(rest)),
    decreases rs.len(),
{
    if rs.len() == 0 {
        assert(enc_records(rs) + rest =~= rest);
        assert(rs =~= Seq::empty());
    } else {
        let front = rs.drop_last();
        assert(forall|i: int| 0 <= i < front.len() ==> record_fits(#[trigger] front[i])) by {
            assert(forall|i: int| 0 <= i < front.len() ==> #[trigger] front[i] == rs[i]);
        }
        assert(record_fits(rs[rs.len() - 1]));
        assert(enc_records(rs) + rest =~= enc_records(front) + (enc_record(rs.last()) + rest));
        law_records_round_trip(front, enc_record(rs.last()) + rest);
        law_record_round_trip(rs.last(), rest);
        assert(front.push(rs.last()) =~= rs);
    }
}

/// The fields of a batch behind its checksum, each in front of the rest.
spec fn tail_fields(b: BatchModel, data: Seq<u8>) -> Seq<u8> {
    enc_i16(b.attributes) + (enc_i32(b.last_offset_delta) + (enc_i64(b.base_timestamp) + (enc_i64(
        b.max_timestamp,
    ) + (enc_i64(b.producer_id) + (enc_i16(b.producer_epoch) + (enc_i32(b.base_sequence) + (enc_i32(
        b.records.len() as i32,
    ) + data)))))))
}

/// The fields of a batch, each in front of the rest.
spec fn fields(b: BatchModel, length: i32, crc: u32, data: Seq<u8>) -> Seq<u8> {
    enc_i64(b.base_offset) + (enc_i32(length) + (enc_i32(b.partition_leader_epoch) + (enc_i8(
        b.magic,
    ) + (be(crc as nat, 4) + tail_fields(b, data)))))
}

#[verifier::spinoff_prover]
proof fn lemma_fields(b: BatchModel, data: Seq<u8>)
    ensures
        enc_body(b, data) == tail_fields(b, data),
        enc_body(b, data).len() == 40 + data.len(),
        enc_batch(b, data) == fields(
            b,
            (9 + enc_body(b, data).len()) as i32,
            crc32(enc_body(b, data)),
            data,
        ),
        enc_batch(b, data).len() == 61 + data.len(),
        enc_batch(b, data).subrange(8, 12) == enc_i32((9 + enc_body(b, data).len()) as i32),
        enc_batch(b, data).skip(61) == data,
        enc_batch(b, data).subrange(0, 8) == enc_i64(b.base_offset),
        enc_batch(b, data).subrange(23, 27) == enc_i32(b.last_offset_delta),
{
    broadcast use lemma_be_len;

    let body = enc_body(b, data);
    let raw = enc_batch(b, data);
    assert(body =~= tail_fields(b, data));
    assert(raw =~= fields(b, (9 + body.len()) as i32, crc32(body), data));
    assert(raw.subrange(8, 12) =~= enc_i32((9 + body.len()) as i32));
    assert(raw.skip(61) =~= data);
    assert(raw.subrange(0, 8) =~= enc_i64(b.base_offset));
    assert(raw.subrange(23, 27) =~= enc_i32(b.last_offset_delta));
}

#[verifier::spinoff_prover]
proof fn lemma_read_tail(b: BatchModel, data: Seq<u8>)
    ensures
        ({
            let (attributes, c6) = sp_i16(cursor(tail_fields(b, data)));
            let (last_offset_delta, c7) = sp_i32(c6);
            let (base_timestamp, c8) = sp_i64(c7);
            let (max_timestamp, c9) = sp_i64(c8);
            let (producer_id, c10) = sp_i64(c9);
            let (producer_epoch, c11) = sp_i16(c10);
            let (base_sequence, c12) = sp_i32(c11);
            let (n, c13) = sp_i32(c12);
            &&& attributes == b.attributes
            &&& last_offset_delta == b.last_offset_delta
            &&& base_timestamp == b.base_timestamp
            &&& max_timestamp == b.max_timestamp
            &&& producer_id == b.producer_id
            &&& producer_epoch == b.producer_epoch
            &&& base_sequence == b.base_sequence
            &&& n == b.records.len() as i32
        }),
{
    let n = b.records.len() as i32;
    let t11 = enc_i32(n) + data;
    let t10 = enc_i32(b.base_sequence) + t11;
    let t9 = enc_i16(b.producer_epoch) + t10;
    let t8 = enc_i64(b.producer_id) + t9;
    let t7 = enc_i64(b.max_timestamp) + t8;
    let t6 = enc_i64(b.base_timestamp) + t7;
    let t5 = enc_i32(b.last_offset_delta) + t6;
    law_i16_round_trip(b.attributes, t5);
    law_i32_round_trip(b.last_offset_delta, t6);
    law_i64_round_trip(b.base_timestamp, t7);
    law_i64_round_trip(b.max_timestamp, t8);
    law_i64_round_trip(b.producer_id, t9);
    law_i16_round_trip(b.producer_epoch, t10);
    law_i32_round_trip(b.base_sequence, t11);
    law_i32_round_trip(n, data);
}

#[verifier::spinoff_prover]
proof fn lemma_read_head(b: BatchModel, length: i32, crc: u32, data: Seq<u8>)
    ensures
        sp_head(fields(b, length, crc, data)) == (HeadModel {
            base_offset: b.base_offset,
            length,
            partition_leader_epoch: b.partition_leader_epoch,
            magic: b.magic,
            err: None,
            attributes: b.attributes,
            last_offset_delta: b.last_offset_delta,
            base_timestamp: b.base_timestamp,
            max_timestamp: b.max_timestamp,
            producer_id: b.producer_id,
            producer_epoch: b.producer_epoch,
            base_sequence: b.base_sequence,
            count: b.records.len() as i32,
        }),
{
    reveal(sp_head);
    let t4 = tail_fields(b, data);
    let t3 = be(crc as nat, 4) + t4;
    let t2 = enc_i8(b.magic) + t3;
    let t1 = enc_i32(b.partition_leader_epoch) + t2;
    let t0 = enc_i32(length) + t1;
    law_i64_round_trip(b.base_offset, t0);
    law_i32_round_trip(length, t1);
    law_i32_round_trip(b.partition_leader_epoch, t2);
    law_i8_round_trip(b.magic, t3);
    law_unsigned_round_trip(crc, 0, t4);
    lemma_read_tail(b, data);
}

/// What is left of bytes in front of the checksum of a batch.
spec fn before_checksum(raw: Seq<u8>) -> Cursor {
    sp_i8(sp_i32(sp_i32(sp_i64(cursor(raw)).1).1).1).1
}

proof fn lemma_before_checksum(raw: Seq<u8>)
    ensures
        raw.len() >= 17 ==> before_checksum(raw) == cursor(raw.skip(17)),
        raw.len() >= 17 ==> sp_head(raw).err is None && sp_head(raw).magic == raw[16] as i8,
{
    reveal(sp_head);
    if raw.len() >= 17 {
        assert(raw.skip(8).skip(4).skip(4).skip(1) =~= raw.skip(17));
        let byte = raw.skip(8).skip(4).skip(4).take(1);
        assert(byte =~= seq![raw[16]]);
        assert(byte.drop_last() =~= Seq::empty());
        assert(be_value(byte.drop_last()) == 0);
        let x = raw[16];
        assert(x >= 0x80 ==> x as i8 == x - 0x100) by (bit_vector);
        assert(x < 0x80 ==> x as i8 == x) by (bit_vector);
    }
}

proof fn lemma_same_front(a: Seq<u8>, b: Seq<u8>)
    requires
        a.len() == b.len(),
        forall|i: int| 0 <= i < a.len() && !(17 <= i < 21) ==> #[trigger] a[i] == b[i],
    ensures
        ({
            let g = sp_head(a);
            let h = sp_head(b);
            &&& g.base_offset == h.base_offset
            &&& g.length == h.length
            &&& g.partition_leader_epoch == h.partition_leader_epoch
            &&& g.magic == h.magic
            &&& g.err == h.err
        }),
{
    reveal(sp_head);
    let n = a.len() as int;
    if n >= 8 {
        assert(a.take(8) =~= b.take(8));
    }
    if n >= 12 {
        assert(a.skip(8).take(4) =~= b.skip(8).take(4));
    }
    if n >= 16 {
        assert(a.skip(8).skip(4).take(4) =~= b.skip(8).skip(4).take(4));
    }
    if n >= 17 {
        assert(a.skip(8).skip(4).skip(4).take(1) =~= b.skip(8).skip(4).skip(4).take(1));
    }
}

proof fn lemma_same_head(a: Seq<u8>, b: Seq<u8>)
    requires
        a.len() == b.len(),
        a.len() >= 21,
        forall|i: int| 0 <= i < a.len() && !(17 <= i < 21) ==> #[trigger] a[i] == b[i],
    ensures
        sp_head(a) == sp_head(b),
{
    lemma_same_front(a, b);
    lemma_before_checksum(a);
    lemma_before_checksum(b);
    assert(a.skip(17).skip(4) =~= b.skip(17).skip(4));
    assert(sp_u32(before_checksum(a)).1 == sp_u32(before_checksum(b)).1);
    reveal(sp_head);
}

/// Bytes that differ in nothing but the checksum are read alike: as the same
/// batch, or with the same error. A checksum that is wrong is no error.
pub proof fn law_checksum_changes_nothing(a: Seq<u8>, b: Seq<u8>)
    requires
        a.len() == b.len(),
        forall|i: int| 0 <= i < a.len() && !(17 <= i < 21) ==> #[trigger] a[i] == b[i],
    ensures
        parsed(a) == parsed(b),
        unsettled(a) == unsettled(b),
        forall|e: DecodeError| refused(a, e) == refused(b, e),
        frame_len(a) == frame_len(b),
{
    lemma_same_front(a, b);
    if a.len() >= 12 {
        assert(a.subrange(8, 12) =~= b.subrange(8, 12));
    }
    let h = sp_head(a);
    if length_fits(a, h.length) {
        lemma_same_head(a, b);
        assert(a.subrange(HEADER_BYTES as int, 12 + h.length) =~= b.subrange(
            HEADER_BYTES as int,
            12 + h.length,
        ));
    }
}

/// A batch of another format is refused, whatever else is in it.
pub proof fn law_other_format_is_refused(raw: Seq<u8>)
    requires
        raw.len() >= 17,
        raw[16] != MAGIC_V2,
    ensures
        parsed(raw) == Err::<BatchModel, DecodeError>(
            DecodeError::Magic { magic: raw[16] as i8 },
        ),
        !unsettled(raw),
{
    lemma_before_checksum(raw);
    let x = raw[16];
    assert(x != 2 ==> x as i8 != 2) by (bit_vector);
}

/// Where the sizes and offsets of a batch stand.
pub proof fn lemma_batch_frame(b: BatchModel, data: Seq<u8>)
    requires
        9 + enc_body(b, data).len() <= i32::MAX,
    ensures
        enc_batch(b, data).len() == 61 + data.len(),
        frame_len(enc_batch(b, data)) == Some(enc_batch(b, data).len()),
        signed64(be_value(enc_batch(b, data).subrange(0, 8))) == b.base_offset,
        signed32(be_value(enc_batch(b, data).subrange(23, 27))) == b.last_offset_delta,
{
    lemma_fields(b, data);
    lemma_int_round_trip(0, 0, (9 + enc_body(b, data).len()) as i32, b.base_offset);
    lemma_int_round_trip(0, 0, b.last_offset_delta, 0);
}

/// The length of a batch.
pub proof fn lemma_batch_len(b: BatchModel, data: Seq<u8>)
    ensures
        enc_batch(b, data).len() == 61 + data.len(),
{
    lemma_fields(b, data);
}

/// A batch reads back as written if its records decompress to what was
/// compressed and its size fits the length field.
#[verifier::spinoff_prover]
pub proof fn lemma_batch_round_trip(b: BatchModel, c: Compression, data: Seq<u8>)
    requires
        b.magic == MAGIC_V2,
        b.attributes == c.number(),
        decompressed(c, data) == Some(enc_records(b.records)),
        !unsettled_data(c, data),
        records_fit(b.records),
        9 + enc_body(b, data).len() <= i32::MAX,
    ensures
        parsed(enc_batch(b, data)) == Ok::<BatchModel, DecodeError>(b),
        !unsettled(enc_batch(b, data)),
        frame_len(enc_batch(b, data)) == Some(enc_batch(b, data).len()),
{
    let raw = enc_batch(b, data);
    let body = enc_body(b, data);
    let length = (9 + body.len()) as i32;
    lemma_fields(b, data);
    lemma_read_head(b, length, crc32(body), data);
    assert(raw.subrange(HEADER_BYTES as int, 12 + length) =~= raw.skip(61));
    lemma_int_round_trip(0, 0, length, 0);
    let a = b.attributes;
    assert(a & 0x07 == a) by (bit_vector)
        requires
            0 <= a <= 4,
    ;
    law_records_round_trip(b.records, Seq::empty());
    assert(enc_records(b.records) + Seq::empty() =~= enc_records(b.records));
}

/// A batch that is not compressed reads back as written, if the sizes fit their
/// fields.
pub proof fn law_plain_batch_round_trip(b: BatchModel)
    requires
        b.magic == MAGIC_V2,
        b.attributes == 0,
        records_fit(b.records),
        enc_batch(b, enc_records(b.records)).len() <= i32::MAX,
    ensures
        parsed(enc_batch(b, enc_records(b.records))) == Ok::<BatchModel, DecodeError>(b),
        !unsettled(enc_batch(b, enc_records(b.records))),
        frame_len(enc_batch(b, enc_records(b.records))) == Some(
            enc_batch(b, enc_records(b.records)).len(),
        ),
        enc_batch(b, enc_records(b.records)).len() >= HEADER_BYTES,
{
    lemma_fields(b, enc_records(b.records));
    lemma_batch_round_trip(b, Compression::Plain, enc_records(b.records));
}

// ---------------------------------------------------------------------------

/// The bytes that the first batch in `s` takes, if it is all there.
pub open spec fn frame_len(s: Seq<u8>) -> Option<nat> {
    if s.len() < 12 {
        None
    } else {
        let length = signed32(be_value(s.subrange(8, 12)));
        if length < 0 || 12 + length > s.len() {
            None
        } else {
            Some((12 + length) as nat)
        }
    }
}

/// The bytes that the first batch in a slice takes, if it is all there.
pub fn batch_frame(s: &[u8]) -> (r: Option<usize>)
    ensures
        match r {
            Some(n) => frame_len(s@) == Some(n as nat) && 12 <= n <= s@.len(),
            None => frame_len(s@) is None,
        },
{
    if s.len() < 12 {
        return None;
    }
    let part = slice_subrange(s, 8, 12);
    proof {
        lemma_be_value(part@);
        lemma_pow256();
    }
    let u = be_uint(part);
    if u >= 0x8000_0000 || u as usize > s.len() - 12 {
        return None;
    }
    Some(12 + u as usize)
}

/// Whether a batch can be written so that it reads back.
pub open spec fn batch_fits(b: BatchModel, c: Compression) -> bool {
    &&& records_fit(b.records)
    &&& c == Compression::Snappy ==> snappy_fits(enc_records(b.records).len())
    &&& 9 + enc_body(b, compressed(c, enc_records(b.records))).len() <= i32::MAX
}

/// Whether the sizes of a batch alone show that it can be written so that it
/// reads back.
pub open spec fn surely_fits(b: BatchModel, c: Compression) -> bool {
    &&& records_fit(b.records)
    &&& c == Compression::Snappy ==> snappy_fits(enc_records(b.records).len())
    &&& longest(c, enc_records(b.records).len()) matches Some(m) && 49 + m <= i32::MAX
}

fn check_field_fits(b: &Option<Bytes>) -> (r: bool)
    ensures
        r == field_fits(b.model()),
{
    match b {
        Some(b) => buf::bytes_len(b) as u64 <= 0x7fff_ffff_ffff_ffff,
        None => true,
    }
}

fn check_record_fits(r: &Record) -> (ok: bool)
    ensures
        ok == record_fits(r.model()),
{
    if !check_field_fits(&r.key) || !check_field_fits(&r.value) || r.headers.len() > 0x7fff_ffff {
        return false;
    }
    let mut i: usize = 0;
    while i < r.headers.len()
        invariant
            i <= r.headers@.len(),
            forall|j: int| 0 <= j < i ==> #[trigger] header_fits(r.headers.model()[j]),
        decreases r.headers@.len() - i,
    {
        let h = &r.headers[i];
        let name = h.0.as_str().as_bytes();
        if name.len() as u64 > 0x7fff_ffff_ffff_ffff || !check_field_fits(&h.1) {
            assert(!header_fits(r.model().headers[i as int]));
            return false;
        }
        i = i + 1;
    }
    true
}

fn check_records_fit(records: &Vec<Record>) -> (r: bool)
    ensures
        r == records_fit(records.model()),
{
    if records.len() > 0x7fff_ffff {
        return false;
    }
    let mut i: usize = 0;
    while i < records.len()
        invariant
            i <= records@.len(),
            forall|j: int| 0 <= j < i ==> #[trigger] record_fits(records.model()[j]),
        decreases records@.len() - i,
    {
        if !check_record_fits(&records[i]) {
            assert(!record_fits(records.model()[i as int]));
            return false;
        }
        i = i + 1;
    }
    true
}

/// The bytes, if any, a second time.
fn copy_field(b: &Option<Bytes>) -> (r: Option<Bytes>)
    ensures
        r.model() == b.model(),
{
    match b {
        Some(b) => Some(b.clone()),
        None => None,
    }
}

/// The record, a second time.
pub fn copy_record(r: &Record) -> (c: Record)
    ensures
        c.model() == r.model(),
{
    let mut headers: Vec<(String, Option<Bytes>)> = Vec::new();
    let mut i: usize = 0;
    while i < r.headers.len()
        invariant
            i <= r.headers@.len(),
            headers.model() =~= r.headers.model().take(i as int),
        decreases r.headers@.len() - i,
    {
        let ghost before = headers.model();
        let h = &r.headers[i];
        headers.push((h.0.clone(), copy_field(&h.1)));
        assert(headers.model() =~= before.push(r.headers.model()[i as int]));
        i = i + 1;
    }
    assert(r.headers.model().take(i as int) =~= r.headers.model());
    Record {
        attributes: r.attributes,
        timestamp_delta: r.timestamp_delta,
        offset_delta: r.offset_delta,
        key: copy_field(&r.key),
        value: copy_field(&r.value),
        headers,
    }
}

fn encode_records(records: &Vec<Record>) -> (r: Bytes)
    ensures
        bytes_view(r) == enc_records(records.model()),
{
    let mut e = Encoder::new();
    put_records(&mut e, records);
    assert(e@ =~= enc_records(records.model()));
    e.into_bytes()
}

/// Puts a batch around records that are encoded already.
fn assemble(
    base_offset: i64,
    records: &Vec<Record>,
    plain: &Bytes,
    compression: Compression,
    base_timestamp: i64,
    producer_id: i64,
    producer_epoch: i16,
    base_sequence: i32,
    partition_leader_epoch: i32,
) -> (r: Bytes)
    requires
        records@.len() <= i32::MAX,
        bytes_view(*plain) == enc_records(records.model()),
        compression == Compression::Snappy ==> snappy_fits(bytes_view(*plain).len()),
    ensures
        ({
            let b = batch_of(
                base_offset,
                records.model(),
                compression,
                base_timestamp,
                producer_id,
                producer_epoch,
                base_sequence,
                partition_leader_epoch,
            );
            let data = compressed(compression, enc_records(b.records));
            &&& bytes_view(r) == enc_batch(b, data)
            &&& surely_fits(b, compression) ==> 9 + enc_body(b, data).len() <= i32::MAX
            &&& records_fit(b.records) && 9 + enc_body(b, data).len() <= i32::MAX ==> {
                &&& parsed(bytes_view(r)) == Ok::<BatchModel, DecodeError>(b)
                &&& !unsettled(bytes_view(r))
                &&& frame_len(bytes_view(r)) == Some(bytes_view(r).len())
            }
        }),
{
    let n: i32 = records.len() as i32;
    let last_offset_delta: i32 = if n == 0 { 0 } else { n - 1 };
    let max_timestamp = latest_timestamp(base_timestamp, records);
    let ghost b = batch_of(
        base_offset,
        records.model(),
        compression,
        base_timestamp,
        producer_id,
        producer_epoch,
        base_sequence,
        partition_leader_epoch,
    );
    let data = compress(compression, buf::bytes_slice(plain));

    let mut body = Encoder::new();
    body.put_i16(compression.code() as i16);
    body.put_i32(last_offset_delta);
    body.put_i64(base_timestamp);
    body.put_i64(max_timestamp);
    body.put_i64(producer_id);
    body.put_i16(producer_epoch);
    body.put_i32(base_sequence);
    body.put_i32(n);
    body.put_bytes(data.as_slice());
    assert(body@ =~= enc_body(b, data@));
    let body = body.into_bytes();
    let crc = crc32_hash(buf::bytes_slice(&body));

    let mut out = Encoder::new();
    out.put_i64(base_offset);
    out.put_i32((9 + buf::bytes_len(&body)) as i32);
    out.put_i32(partition_leader_epoch);
    out.put_i8(MAGIC_V2);
    out.put_u32(crc);
    out.put_bytes(buf::bytes_slice(&body));
    assert(out@ =~= enc_batch(b, data@));
    proof {
        lemma_fields(b, data@);
        if records_fit(b.records) && 9 + enc_body(b, data@).len() <= i32::MAX {
            lemma_batch_round_trip(b, compression, data@);
        }
    }
    out.into_bytes()
}

impl RecordBatch {
    /// The algorithm that compresses the records; none if the attributes name
    /// none that there is.
    pub fn compression(&self) -> (r: Compression)
        ensures
            r == algorithm(self.attributes),
    {
        match Compression::from_code((self.attributes & Attribute::COMPRESSION_MASK) as i8) {
            Ok(c) => c,
            Err(_) => Compression::Plain,
        }
    }

    /// Whether the batch marks a transaction's end.
    pub fn is_control(&self) -> (r: bool)
        ensures
            r == (self.attributes & Attribute::CONTROL_MASK != 0),
    {
        self.attributes & Attribute::CONTROL_MASK != 0
    }

    /// The offset of the last record.
    pub fn last_offset(&self) -> (r: i64)
        requires
            i64::MIN <= self.base_offset + self.last_offset_delta <= i64::MAX,
        ensures
            r == self.base_offset + self.last_offset_delta,
    {
        self.base_offset + self.last_offset_delta as i64
    }

    pub fn count(&self) -> (r: usize)
        ensures
            r == self.records@.len(),
    {
        self.records.len()
    }

    /// The bytes of a batch of records. Parsing them gives the batch back, if
    /// the sizes fit their fields.
    pub fn serialize(
        base_offset: i64,
        records: Vec<Record>,
        compression: Compression,
        base_timestamp: i64,
        producer_id: i64,
        producer_epoch: i16,
        base_sequence: i32,
        partition_leader_epoch: i32,
    ) -> (r: Bytes)
        requires
            records@.len() <= i32::MAX,
            compression == Compression::Snappy ==> snappy_fits(enc_records(records.model()).len()),
        ensures
            ({
                let b = batch_of(
                    base_offset,
                    records.model(),
                    compression,
                    base_timestamp,
                    producer_id,
                    producer_epoch,
                    base_sequence,
                    partition_leader_epoch,
                );
                let data = compressed(compression, enc_records(b.records));
                &&& bytes_view(r) == enc_batch(b, data)
                &&& surely_fits(b, compression) ==> 9 + enc_body(b, data).len() <= i32::MAX
                &&& records_fit(b.records) && 9 + enc_body(b, data).len() <= i32::MAX ==> {
                    &&& parsed(bytes_view(r)) == Ok::<BatchModel, DecodeError>(b)
                    &&& !unsettled(bytes_view(r))
                    &&& frame_len(bytes_view(r)) == Some(bytes_view(r).len())
                }
            }),
    {
        let plain = encode_records(&records);
        assemble(
            base_offset,
            &records,
            &plain,
            compression,
            base_timestamp,
            producer_id,
            producer_epoch,
            base_sequence,
            partition_leader_epoch,
        )
    }

    /// The bytes of a batch of records, if the sizes fit their fields. Parsing
    /// them gives the batch back.
    pub fn try_serialize(
        base_offset: i64,
        records: &Vec<Record>,
        compression: Compression,
        base_timestamp: i64,
        producer_id: i64,
        producer_epoch: i16,
        base_sequence: i32,
        partition_leader_epoch: i32,
    ) -> (r: Option<Bytes>)
        ensures
            ({
                let b = batch_of(
                    base_offset,
                    records.model(),
                    compression,
                    base_timestamp,
                    producer_id,
                    producer_epoch,
                    base_sequence,
                    partition_leader_epoch,
                );
                let data = compressed(compression, enc_records(b.records));
                match r {
                    Some(raw) => {
                        &&& batch_fits(b, compression)
                        &&& bytes_view(raw) == enc_batch(b, data)
                        &&& parsed(bytes_view(raw)) == Ok::<BatchModel, DecodeError>(b)
                        &&& !unsettled(bytes_view(raw))
                        &&& frame_len(bytes_view(raw)) == Some(bytes_view(raw).len())
                    },
                    None => !batch_fits(b, compression) && !surely_fits(b, compression),
                }
            }),
    {
        if !check_records_fit(records) {
            return None;
        }
        let plain = encode_records(records);
        if compression == Compression::Snappy {
            let n: u64 = buf::bytes_len(&plain) as u64;
            if n > 0xffff_ffff || 32 + n + n / 6 > 0xffff_ffff {
                return None;
            }
        }
        let raw = assemble(
            base_offset,
            records,
            &plain,
            compression,
            base_timestamp,
            producer_id,
            producer_epoch,
            base_sequence,
            partition_leader_epoch,
        );
        proof {
            let b = batch_of(
                base_offset,
                records.model(),
                compression,
                base_timestamp,
                producer_id,
                producer_epoch,
                base_sequence,
                partition_leader_epoch,
            );
            lemma_fields(b, compressed(compression, enc_records(b.records)));
        }
        if buf::bytes_len(&raw) - 12 > 0x7fff_ffff {
            return None;
        }
        Some(raw)
    }

    /// The batch that bytes hold. A checksum that is wrong is no error: see
    /// [`RecordBatch::crc_mismatch`].
    pub fn parse(raw: Bytes) -> (r: Result<Self>)
        ensures
            parses(r, bytes_view(raw)),
    {
        proof {
            reveal(sp_head);
        }
        let mut cur = Decoder::new(raw.clone());
        let base_offset = cur.get_i64()?;
        let length = cur.get_i32()?;
        let partition_leader_epoch = cur.get_i32()?;
        let magic = cur.get_i8()?;
        if magic != MAGIC_V2 {
            return Err(Error::Decode(DecodeError::Magic { magic }));
        }
        if length < 49 || length as usize > buf::bytes_len(&raw) - 12 {
            return Err(Error::Decode(DecodeError::BatchLength { length }));
        }
        let end: usize = 12 + length as usize;
        let _crc = cur.get_u32()?;
        let attributes = cur.get_i16()?;
        let last_offset_delta = cur.get_i32()?;
        let base_timestamp = cur.get_i64()?;
        let max_timestamp = cur.get_i64()?;
        let producer_id = cur.get_i64()?;
        let producer_epoch = cur.get_i16()?;
        let base_sequence = cur.get_i32()?;
        let n = cur.get_i32()?;
        let data = slice_subrange(buf::bytes_slice(&raw), HEADER_BYTES, end);
        let records = parse_records(attributes, n, data)?;
        Ok(
            RecordBatch {
                base_offset,
                partition_leader_epoch,
                magic,
                attributes,
                last_offset_delta,
                base_timestamp,
                max_timestamp,
                producer_id,
                producer_epoch,
                base_sequence,
                records,
                raw,
            },
        )
    }

    /// The checksum that the batch's bytes give and the one that they should,
    /// where the two differ.
    pub fn crc_mismatch(&self) -> (r: Option<(u32, u32)>)
        ensures
            r == stored_crc_differs(bytes_view(self.raw)),
    {
        let raw = buf::bytes_slice(&self.raw);
        match batch_frame(raw) {
            Some(end) => {
                if end < 21 {
                    return None;
                }
                let part = slice_subrange(raw, 17, 21);
                proof {
                    lemma_be_value(part@);
                    lemma_pow256();
                }
                let stored = be_uint(part) as u32;
                let computed = crc32_hash(slice_subrange(raw, 21, end));
                if stored != computed {
                    Some((stored, computed))
                } else {
                    None
                }
            },
            None => None,
        }
    }
}

/// The checksum stored in a batch and the one computed, where they differ.
pub open spec fn stored_crc_differs(raw: Seq<u8>) -> Option<(u32, u32)> {
    match frame_len(raw) {
        Some(end) if end >= 21 => {
            let stored = be_value(raw.subrange(17, 21)) as u32;
            let computed = crc32(raw.subrange(21, end as int));
            if stored != computed {
                Some((stored, computed))
            } else {
                None
            }
        },
        _ => None,
    }
}

/// Goes through the batches in a run of bytes.
pub struct RecordBatchReader {
    data: Bytes,
    pos: usize,
}

impl RecordBatchReader {
    #[verifier::type_invariant]
    spec fn within(self) -> bool {
        self.pos <= bytes_view(self.data).len()
    }

    /// The bytes not yet gone through.
    pub closed spec fn rest(&self) -> Seq<u8> {
        bytes_view(self.data).skip(self.pos as int)
    }

    pub fn new(data: Bytes) -> (r: Self)
        ensures
            r.rest() == bytes_view(data),
    {
        let r = RecordBatchReader { data, pos: 0 };
        assert(r.rest() =~= bytes_view(data));
        r
    }

    /// The next batch and its bytes; none at the end, or where the bytes that
    /// are left are not all of a batch.
    pub fn next_batch(&mut self) -> (r: Result<Option<(RecordBatch, Bytes)>>)
        ensures
            match frame_len(old(self).rest()) {
                None => r matches Ok(None) && final(self).rest() == old(self).rest(),
                Some(n) => {
                    let raw = old(self).rest().take(n as int);
                    &&& final(self).rest() == old(self).rest().skip(n as int)
                    &&& match r {
                        Ok(Some((b, bytes))) => parses(Ok(b), raw) && bytes_view(bytes) == raw,
                        Ok(None) => false,
                        Err(e) => parses(Err(e), raw),
                    }
                },
            },
    {
        proof {
            use_type_invariant(&*self);
        }
        let len = buf::bytes_len(&self.data);
        let rest = slice_subrange(buf::bytes_slice(&self.data), self.pos, len);
        assert(rest@ =~= self.rest());
        match batch_frame(rest) {
            None => Ok(None),
            Some(n) => {
                let end: usize = self.pos + n;
                let raw = buf::bytes_range(&self.data, self.pos, end);
                assert(bytes_view(raw) =~= old(self).rest().take(n as int));
                self.pos = end;
                assert(self.rest() =~= old(self).rest().skip(n as int));
                let batch = RecordBatch::parse(raw.clone())?;
                Ok(Some((batch, raw)))
            },
        }
    }
}

/// A batch at the front of a run of bytes is the first one read, and the rest is
/// left.
pub proof fn law_first_batch(batch: Seq<u8>, rest: Seq<u8>)
    requires
        frame_len(batch) == Some(batch.len()),
    ensures
        frame_len(batch + rest) == Some(batch.len()),
        (batch + rest).take(batch.len() as int) == batch,
        (batch + rest).skip(batch.len() as int) == rest,
{
    let s = batch + rest;
    assert(s.subrange(8, 12) =~= batch.subrange(8, 12));
    assert(s.take(batch.len() as int) =~= batch);
    assert(s.skip(batch.len() as int) =~= rest);
}

} // verus!
