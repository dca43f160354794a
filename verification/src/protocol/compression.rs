//! Compression of the records of a batch.
//!
//! The algorithms are those of the `flate2`, `snap`, `lz4_flex` and `zstd`
//! crates. What each makes of given bytes is not described, only named; that
//! decompressing gives back what was compressed is.

use std::io::{Cursor as IoCursor, Read, Write};

use vstd::prelude::*;
use vstd::slice::slice_to_vec;

use crate::protocol::primitive::{DecodeError, Error, Result};

verus! {

#[verifier::external_type_specification]
#[verifier::external_body]
pub struct ExIoError(std::io::Error);

/// A compression algorithm.
#[derive(Debug, Clone, Copy, PartialEq, Eq, Structural)]
pub enum Compression {
    /// The records stand as they are.
    Plain,
    Gzip,
    Snappy,
    Lz4,
    Zstd,
}

/// The algorithm with a given number, if there is one.
pub open spec fn compression_of(code: i8) -> Option<Compression> {
    if code == 0 {
        Some(Compression::Plain)
    } else if code == 1 {
        Some(Compression::Gzip)
    } else if code == 2 {
        Some(Compression::Snappy)
    } else if code == 3 {
        Some(Compression::Lz4)
    } else if code == 4 {
        Some(Compression::Zstd)
    } else {
        None
    }
}

impl Compression {
    /// The number of an algorithm.
    pub open spec fn number(self) -> i8 {
        match self {
            Compression::Plain => 0,
            Compression::Gzip => 1,
            Compression::Snappy => 2,
            Compression::Lz4 => 3,
            Compression::Zstd => 4,
        }
    }

    pub fn from_code(code: i8) -> (r: Result<Self>)
        ensures
            match r {
                Ok(c) => compression_of(code) == Some(c),
                Err(e) => {
                    &&& compression_of(code) is None
                    &&& e == Error::Decode(DecodeError::UnknownCompression { code })
                },
            },
    {
        match code {
            0 => Ok(Compression::Plain),
            1 => Ok(Compression::Gzip),
            2 => Ok(Compression::Snappy),
            3 => Ok(Compression::Lz4),
            4 => Ok(Compression::Zstd),
            _ => Err(Error::Decode(DecodeError::UnknownCompression { code })),
        }
    }

    pub fn code(&self) -> (r: i8)
        ensures
            r == self.number(),
            0 <= r <= 4,
            compression_of(r) == Some(*self),
    {
        match self {
            Compression::Plain => 0,
            Compression::Gzip => 1,
            Compression::Snappy => 2,
            Compression::Lz4 => 3,
            Compression::Zstd => 4,
        }
    }
}

/// What `flate2::write::GzEncoder` at the default level makes of bytes.
pub uninterp spec fn gzip_encoded(data: Seq<u8>) -> Seq<u8>;

/// What `flate2::read::GzDecoder` reads from bytes, if they are gzip.
pub uninterp spec fn gzip_decoded(data: Seq<u8>) -> Option<Seq<u8>>;

/// What `snap::raw::Encoder` makes of bytes.
pub uninterp spec fn snappy_encoded(data: Seq<u8>) -> Seq<u8>;

/// What `snap::raw::Decoder` reads from bytes, if they are Snappy.
pub uninterp spec fn snappy_decoded(data: Seq<u8>) -> Option<Seq<u8>>;

/// What `lz4_flex::frame::FrameEncoder` makes of bytes. It looks for repetitions
/// in machine words, so it rests on how many bits those have and on whether the
/// least byte comes first.
pub uninterp spec fn lz4_encoded(data: Seq<u8>, word_bits: nat, little: bool) -> Seq<u8>;

/// What `lz4_flex::frame::FrameDecoder` reads from bytes, if they are LZ4 frames.
pub uninterp spec fn lz4_decoded(data: Seq<u8>) -> Option<Seq<u8>>;

/// What `zstd::stream::encode_all` at level 3 makes of bytes. How far back it
/// looks in very long data rests on how many bits a machine word has.
pub uninterp spec fn zstd_encoded(data: Seq<u8>, word_bits: nat) -> Seq<u8>;

/// What `zstd::stream::decode_all` reads from bytes where it reads them. Which
/// bytes it reads rests on the machine as well: on how many bits a word has, and
/// for frames that ask for a very large window on how much room it is given.
pub uninterp spec fn zstd_decoded(data: Seq<u8>, word_bits: nat) -> Seq<u8>;

/// Whether Snappy takes that many bytes: `snap` bounds the size of what it
/// would write by 32 bits.
pub open spec fn snappy_fits(n: nat) -> bool {
    32 + n + n / 6 <= u32::MAX
}

/// Whether the least byte of a number comes first in memory.
pub open spec fn least_first() -> bool {
    vstd::endian::endianness() is Little
}

/// Whether bytes are what Zstandard makes of some data.
pub open spec fn zstd_made(data: Seq<u8>) -> bool {
    exists|d: Seq<u8>| data == #[trigger] zstd_encoded(d, usize::BITS as nat)
}

/// `flate2::write::GzEncoder`: the gzip form of the data, which decodes to the
/// data.
#[verifier::external_body]
fn gzip_encode(data: &[u8]) -> (r: Vec<u8>)
    ensures
        r@ == gzip_encoded(data@),
        gzip_decoded(r@) == Some(data@),
{
    let mut enc = flate2::write::GzEncoder::new(Vec::new(), flate2::Compression::default());
    enc.write_all(data).unwrap();
    enc.finish().unwrap()
}

/// `flate2::read::GzDecoder`: the data of a gzip member, or an error.
#[verifier::external_body]
fn gzip_decode(data: &[u8]) -> (r: core::result::Result<Vec<u8>, std::io::Error>)
    ensures
        match r {
            Ok(v) => gzip_decoded(data@) == Some(v@),
            Err(_) => gzip_decoded(data@) is None,
        },
{
    let mut out = Vec::new();
    flate2::read::GzDecoder::new(data).read_to_end(&mut out).map(|_| out)
}

/// The most bytes that compressing so many can take, for the algorithms of which
/// it is known. Of gzip and Zstandard it is not.
pub open spec fn longest(c: Compression, n: nat) -> Option<nat> {
    match c {
        Compression::Plain => Some(n),
        Compression::Snappy => Some(32 + n + n / 6),
        Compression::Lz4 => Some(27 + n + 4 * (n / 0x10000)),
        Compression::Gzip => None,
        Compression::Zstd => None,
    }
}

/// `snap::raw::Encoder::compress_vec`: the Snappy form of the data, which
/// decodes to the data and is not longer than `snap::raw::max_compress_len` of
/// its length. It fails only on data that does not fit.
#[verifier::external_body]
fn snappy_encode(data: &[u8]) -> (r: Vec<u8>)
    requires
        snappy_fits(data@.len()),
    ensures
        r@ == snappy_encoded(data@),
        snappy_decoded(r@) == Some(data@),
        r@.len() <= 32 + data@.len() + data@.len() / 6,
{
    snap::raw::Encoder::new().compress_vec(data).unwrap()
}

/// `snap::raw::Decoder::decompress_vec`: the data of a Snappy block, or an error.
#[verifier::external_body]
fn snappy_decode(data: &[u8]) -> (r: core::result::Result<Vec<u8>, std::io::Error>)
    ensures
        match r {
            Ok(v) => snappy_decoded(data@) == Some(v@),
            Err(_) => snappy_decoded(data@) is None,
        },
{
    snap::raw::Decoder::new().decompress_vec(data).map_err(std::io::Error::from)
}

/// `lz4_flex::frame::FrameEncoder`: one LZ4 frame, which decodes to the data.
/// Beside a header of at most 19 bytes and an end of four, it holds for every
/// 64 KiB at least one block, of four bytes and no more than the data.
#[verifier::external_body]
fn lz4_encode(data: &[u8]) -> (r: Vec<u8>)
    ensures
        r@ == lz4_encoded(data@, usize::BITS as nat, least_first()),
        lz4_decoded(r@) == Some(data@),
        r@.len() <= 27 + data@.len() + 4 * (data@.len() / 0x10000),
{
    let mut enc = lz4_flex::frame::FrameEncoder::new(Vec::new());
    enc.write_all(data).unwrap();
    enc.finish().unwrap()
}

/// `lz4_flex::frame::FrameDecoder`: the data of an LZ4 frame, or an error.
#[verifier::external_body]
fn lz4_decode(data: &[u8]) -> (r: core::result::Result<Vec<u8>, std::io::Error>)
    ensures
        match r {
            Ok(v) => lz4_decoded(data@) == Some(v@),
            Err(_) => lz4_decoded(data@) is None,
        },
{
    let mut out = Vec::new();
    lz4_flex::frame::FrameDecoder::new(data).read_to_end(&mut out).map(|_| out)
}

/// `zstd::stream::encode_all` at level 3: a Zstandard frame, which decodes to
/// the data.
#[verifier::external_body]
fn zstd_encode(data: &[u8]) -> (r: Vec<u8>)
    ensures
        r@ == zstd_encoded(data@, usize::BITS as nat),
        zstd_decoded(r@, usize::BITS as nat) == data@,
{
    zstd::stream::encode_all(IoCursor::new(data), 3).unwrap()
}

/// `zstd::stream::decode_all`: the data of Zstandard frames, or an error. What
/// [`zstd_encode`] made is read. Of other bytes it is not said whether they are,
/// which the bytes alone do not decide.
#[verifier::external_body]
fn zstd_decode(data: &[u8]) -> (r: core::result::Result<Vec<u8>, std::io::Error>)
    ensures
        match r {
            Ok(v) => v@ == zstd_decoded(data@, usize::BITS as nat),
            Err(_) => !zstd_made(data@),
        },
{
    zstd::stream::decode_all(data)
}

/// The data compressed by an algorithm.
pub open spec fn compressed(c: Compression, data: Seq<u8>) -> Seq<u8> {
    match c {
        Compression::Plain => data,
        Compression::Gzip => gzip_encoded(data),
        Compression::Snappy => snappy_encoded(data),
        Compression::Lz4 => lz4_encoded(data, usize::BITS as nat, least_first()),
        Compression::Zstd => zstd_encoded(data, usize::BITS as nat),
    }
}

/// The data that an algorithm compressed, if it did. With Zstandard this is what
/// is read where the bytes are read at all: see [`unsettled_data`].
pub open spec fn decompressed(c: Compression, data: Seq<u8>) -> Option<Seq<u8>> {
    match c {
        Compression::Plain => Some(data),
        Compression::Gzip => gzip_decoded(data),
        Compression::Snappy => snappy_decoded(data),
        Compression::Lz4 => lz4_decoded(data),
        Compression::Zstd => Some(zstd_decoded(data, usize::BITS as nat)),
    }
}

/// Whether the bytes alone do not decide that decompressing them succeeds.
pub open spec fn unsettled_data(c: Compression, data: Seq<u8>) -> bool {
    c == Compression::Zstd && !zstd_made(data)
}

/// Compresses data; decompressing the result gives the data back.
pub fn compress(c: Compression, data: &[u8]) -> (r: Vec<u8>)
    requires
        c == Compression::Snappy ==> snappy_fits(data@.len()),
    ensures
        r@ == compressed(c, data@),
        decompressed(c, r@) == Some(data@),
        !unsettled_data(c, r@),
        longest(c, data@.len()) matches Some(m) ==> r@.len() <= m,
{
    match c {
        Compression::Plain => slice_to_vec(data),
        Compression::Gzip => gzip_encode(data),
        Compression::Snappy => snappy_encode(data),
        Compression::Lz4 => lz4_encode(data),
        Compression::Zstd => zstd_encode(data),
    }
}

/// Decompresses data; an error says which algorithm could not.
pub fn decompress(c: Compression, data: &[u8]) -> (r: Result<Vec<u8>>)
    ensures
        match r {
            Ok(v) => decompressed(c, data@) == Some(v@),
            Err(e) => {
                &&& decompressed(c, data@) is None || unsettled_data(c, data@)
                &&& e == Error::Decode(DecodeError::Decompression { code: c.number() })
            },
        },
{
    let code = c.code();
    match c {
        Compression::Plain => Ok(slice_to_vec(data)),
        Compression::Gzip => match gzip_decode(data) {
            Ok(v) => Ok(v),
            Err(_) => Err(Error::Decode(DecodeError::Decompression { code })),
        },
        Compression::Snappy => match snappy_decode(data) {
            Ok(v) => Ok(v),
            Err(_) => Err(Error::Decode(DecodeError::Decompression { code })),
        },
        Compression::Lz4 => match lz4_decode(data) {
            Ok(v) => Ok(v),
            Err(_) => Err(Error::Decode(DecodeError::Decompression { code })),
        },
        Compression::Zstd => match zstd_decode(data) {
            Ok(v) => Ok(v),
            Err(_) => Err(Error::Decode(DecodeError::Decompression { code })),
        },
    }
}

} // verus!
