//! Primitive values of the protocol: an encoder that appends them to a buffer
//! and a decoder that takes them off one.
//!
//! What a decoder does is described by functions on a [`Cursor`], the bytes
//! that are left together with the first error met, if any. Once there is an
//! error nothing more is read.

use bytes::{Bytes, BytesMut};
use vstd::prelude::*;
use vstd::slice::{slice_subrange, slice_to_vec};
use vstd::utf8::{
    decode_utf8, encode_utf8, encode_utf8_decode_utf8, encode_utf8_valid_utf8, valid_utf8,
};

use crate::buf;
use crate::buf::{bytes_mut_view, bytes_view};
use crate::protocol::wire::{
    be, be_uint, be_value, continued, enc_i16, enc_i32, enc_i64, enc_i8, lemma_be_len,
    lemma_be_round_trip, lemma_be_value, lemma_int_round_trip, lemma_pow256, lemma_uvarint,
    lemma_uvarint_len, signed16, signed32, signed64, signed8, unsigned16, unsigned32, unsigned64,
    unsigned8, uvarint, uvarint_value,
};

verus! {

/// Why bytes could not be decoded.
#[derive(Debug, Clone, Copy, PartialEq, Eq, Structural)]
pub enum DecodeError {
    /// Fewer bytes are left than the value takes.
    Short { need: usize, remaining: usize },
    /// A length that must not be negative is.
    NegativeLength,
    /// A compact string that must be there is null.
    NullCompactString,
    /// The bytes of a string are not UTF-8.
    Utf8,
    /// A varint goes on for more than ten bytes.
    VarintTooLong,
    /// A record batch is not of format 2.
    Magic { magic: i8 },
    /// The length field of a record batch does not fit its bytes.
    BatchLength { length: i32 },
    /// No compression algorithm has this number.
    UnknownCompression { code: i8 },
    /// The records of a batch do not decompress.
    Decompression { code: i8 },
}

/// Errors of encoding and decoding.
#[derive(Debug, Clone)]
pub enum Error {
    Decode(DecodeError),
    Encode(String),
    UnsupportedVersion { api_key: i16, version: i16 },
}

pub type Result<T> = core::result::Result<T, Error>;

/// The bytes left to decode, and the first error met.
pub struct Cursor {
    pub rest: Seq<u8>,
    pub err: Option<DecodeError>,
}

/// A cursor at the front of `rest`, nothing having gone wrong.
pub open spec fn cursor(rest: Seq<u8>) -> Cursor {
    Cursor { rest, err: None }
}

impl Cursor {
    /// The same position, with an error.
    pub open spec fn fail(self, e: DecodeError) -> Cursor {
        Cursor { rest: self.rest, err: Some(e) }
    }
}

/// A value together with the mathematical value it stands for.
pub trait Modeled {
    type M;

    spec fn model(&self) -> Self::M;
}

/// What a decoding step returns and leaves behind, held against what `out` says
/// it should.
pub open spec fn decodes<T: Modeled>(r: Result<T>, rest: Seq<u8>, out: (T::M, Cursor)) -> bool {
    &&& rest == out.1.rest
    &&& match r {
        Ok(v) => out.1.err is None && v.model() == out.0,
        Err(Error::Decode(e)) => out.1.err == Some(e),
        Err(_) => false,
    }
}

impl Modeled for bool {
    type M = bool;

    open spec fn model(&self) -> bool {
        *self
    }
}

impl Modeled for i8 {
    type M = i8;

    open spec fn model(&self) -> i8 {
        *self
    }
}

impl Modeled for u8 {
    type M = u8;

    open spec fn model(&self) -> u8 {
        *self
    }
}

impl Modeled for i16 {
    type M = i16;

    open spec fn model(&self) -> i16 {
        *self
    }
}

impl Modeled for i32 {
    type M = i32;

    open spec fn model(&self) -> i32 {
        *self
    }
}

impl Modeled for i64 {
    type M = i64;

    open spec fn model(&self) -> i64 {
        *self
    }
}

impl Modeled for u32 {
    type M = u32;

    open spec fn model(&self) -> u32 {
        *self
    }
}

impl Modeled for u64 {
    type M = u64;

    open spec fn model(&self) -> u64 {
        *self
    }
}

impl Modeled for String {
    type M = Seq<char>;

    open spec fn model(&self) -> Seq<char> {
        self@
    }
}

impl Modeled for Bytes {
    type M = Seq<u8>;

    open spec fn model(&self) -> Seq<u8> {
        bytes_view(*self)
    }
}

impl<T: Modeled> Modeled for Option<T> {
    type M = Option<T::M>;

    open spec fn model(&self) -> Option<T::M> {
        match self {
            Some(v) => Some(v.model()),
            None => None,
        }
    }
}

impl<T: Modeled> Modeled for Vec<T> {
    type M = Seq<T::M>;

    open spec fn model(&self) -> Seq<T::M> {
        Seq::new(self@.len(), |i: int| self@[i].model())
    }
}

// ---------------------------------------------------------------------------
// What is read

/// `n` bytes.
pub open spec fn sp_take(c: Cursor, n: usize) -> (Seq<u8>, Cursor) {
    if c.err is Some {
        (Seq::empty(), c)
    } else if c.rest.len() < n {
        (
            Seq::empty(),
            c.fail(DecodeError::Short { need: n, remaining: c.rest.len() as usize }),
        )
    } else {
        (c.rest.take(n as int), cursor(c.rest.skip(n as int)))
    }
}

pub open spec fn sp_i8(c: Cursor) -> (i8, Cursor) {
    let (s, c1) = sp_take(c, 1);
    (signed8(be_value(s)), c1)
}

pub open spec fn sp_i16(c: Cursor) -> (i16, Cursor) {
    let (s, c1) = sp_take(c, 2);
    (signed16(be_value(s)), c1)
}

pub open spec fn sp_i32(c: Cursor) -> (i32, Cursor) {
    let (s, c1) = sp_take(c, 4);
    (signed32(be_value(s)), c1)
}

pub open spec fn sp_i64(c: Cursor) -> (i64, Cursor) {
    let (s, c1) = sp_take(c, 8);
    (signed64(be_value(s)), c1)
}

pub open spec fn sp_u32(c: Cursor) -> (u32, Cursor) {
    let (s, c1) = sp_take(c, 4);
    (be_value(s) as u32, c1)
}

pub open spec fn sp_u64(c: Cursor) -> (u64, Cursor) {
    let (s, c1) = sp_take(c, 8);
    (be_value(s) as u64, c1)
}

/// `n` bytes of UTF-8.
pub open spec fn sp_utf8(c: Cursor, n: usize) -> (Seq<char>, Cursor) {
    let (s, c1) = sp_take(c, n);
    if c1.err is Some {
        (Seq::empty(), c1)
    } else if valid_utf8(s) {
        (decode_utf8(s), c1)
    } else {
        (Seq::empty(), c1.fail(DecodeError::Utf8))
    }
}

/// A two-byte length and a string; a negative length is an error.
pub open spec fn sp_string(c: Cursor) -> (Seq<char>, Cursor) {
    let (len, c1) = sp_i16(c);
    if c1.err is Some {
        (Seq::empty(), c1)
    } else if len < 0 {
        (Seq::empty(), c1.fail(DecodeError::NegativeLength))
    } else {
        sp_utf8(c1, len as usize)
    }
}

/// A two-byte length and a string; a negative length stands for none.
pub open spec fn sp_nullable_string(c: Cursor) -> (Option<Seq<char>>, Cursor) {
    let (len, c1) = sp_i16(c);
    if c1.err is Some || len < 0 {
        (None, c1)
    } else {
        let (s, c2) = sp_utf8(c1, len as usize);
        (Some(s), c2)
    }
}

/// A base-128 number of at most ten bytes.
pub open spec fn sp_varint(c: Cursor) -> (u64, Cursor) {
    let k = continued(c.rest);
    if c.err is Some {
        (0, c)
    } else if k >= 10 && c.rest.len() > 10 {
        (0, cursor(c.rest.skip(11)).fail(DecodeError::VarintTooLong))
    } else if k >= c.rest.len() {
        (0, cursor(Seq::empty()).fail(DecodeError::Short { need: 1, remaining: 0 }))
    } else {
        (uvarint_value(c.rest.take(k as int + 1)), cursor(c.rest.skip(k as int + 1)))
    }
}

/// A varint length, one more than the string's, and the string; zero is an error.
pub open spec fn sp_compact_string(c: Cursor) -> (Seq<char>, Cursor) {
    let (n, c1) = sp_varint(c);
    if c1.err is Some {
        (Seq::empty(), c1)
    } else if n == 0 {
        (Seq::empty(), c1.fail(DecodeError::NullCompactString))
    } else {
        sp_utf8(c1, (n - 1) as usize)
    }
}

/// A varint length, one more than the string's, and the string; zero stands for
/// none.
pub open spec fn sp_nullable_compact_string(c: Cursor) -> (Option<Seq<char>>, Cursor) {
    let (n, c1) = sp_varint(c);
    if c1.err is Some || n == 0 {
        (None, c1)
    } else {
        let (s, c2) = sp_utf8(c1, (n - 1) as usize);
        (Some(s), c2)
    }
}

/// A varint length, one more than the number of bytes, and the bytes; zero
/// stands for none.
pub open spec fn sp_compact_nullable_bytes(c: Cursor) -> (Option<Seq<u8>>, Cursor) {
    let (n, c1) = sp_varint(c);
    if c1.err is Some || n == 0 {
        (None, c1)
    } else {
        let (s, c2) = sp_take(c1, (n - 1) as usize);
        (Some(s), c2)
    }
}

// ---------------------------------------------------------------------------
// What is written

/// A two-byte length, cut off at 16 bits, and the string.
pub open spec fn enc_string(s: Seq<char>) -> Seq<u8> {
    enc_i16(encode_utf8(s).len() as i16) + encode_utf8(s)
}

/// A string, or the length -1 where there is none.
pub open spec fn enc_nullable_string(s: Option<Seq<char>>) -> Seq<u8> {
    match s {
        Some(s) => enc_string(s),
        None => enc_i16(-1i16),
    }
}

/// A varint that holds one more than the length, and the string.
pub open spec fn enc_compact_string(s: Seq<char>) -> Seq<u8> {
    enc_compact_bytes(encode_utf8(s))
}

/// A compact string, or zero where there is none.
pub open spec fn enc_nullable_compact_string(s: Option<Seq<char>>) -> Seq<u8> {
    match s {
        Some(s) => enc_compact_string(s),
        None => uvarint(0),
    }
}

/// A varint that holds one more than the length, and the bytes.
pub open spec fn enc_compact_bytes(b: Seq<u8>) -> Seq<u8> {
    uvarint((b.len() as u64).wrapping_add(1)) + b
}

/// Compact bytes, or zero where there are none.
pub open spec fn enc_compact_nullable_bytes(b: Option<Seq<u8>>) -> Seq<u8> {
    match b {
        Some(b) => enc_compact_bytes(b),
        None => uvarint(0),
    }
}

/// The view of an optional string slice.
pub open spec fn opt_str(s: Option<&str>) -> Option<Seq<char>> {
    match s {
        Some(s) => Some(s@),
        None => None,
    }
}

/// The view of an optional string.
pub open spec fn opt_string(s: Option<String>) -> Option<Seq<char>> {
    match s {
        Some(s) => Some(s@),
        None => None,
    }
}

/// The view of an optional byte slice.
pub open spec fn opt_slice(b: Option<&[u8]>) -> Option<Seq<u8>> {
    match b {
        Some(b) => Some(b@),
        None => None,
    }
}

/// `String::from_utf8`: the string that the bytes encode if they are UTF-8, and
/// an error, here without its detail, if they are not.
#[verifier::external_body]
pub(crate) fn string_from_utf8(v: Vec<u8>) -> (r: Option<String>)
    ensures
        r is Some <==> valid_utf8(v@),
        r matches Some(s) ==> s@ == decode_utf8(v@),
{
    String::from_utf8(v).ok()
}

/// A buffer to which primitive values are appended.
pub struct Encoder {
    buf: BytesMut,
}

impl View for Encoder {
    type V = Seq<u8>;

    /// The bytes written so far.
    closed spec fn view(&self) -> Seq<u8> {
        bytes_mut_view(self.buf)
    }
}

impl Default for Encoder {
    fn default() -> (r: Self)
        ensures
            r@ == Seq::<u8>::empty(),
    {
        Encoder { buf: buf::bytes_mut_new() }
    }
}

impl Encoder {
    pub fn new() -> (r: Self)
        ensures
            r@ == Seq::<u8>::empty(),
    {
        Encoder { buf: buf::bytes_mut_new() }
    }

    pub fn with_capacity(cap: usize) -> (r: Self)
        requires
            cap <= isize::MAX,
        ensures
            r@ == Seq::<u8>::empty(),
    {
        Encoder { buf: buf::bytes_mut_with_capacity(cap) }
    }

    pub fn into_bytes(self) -> (r: Bytes)
        ensures
            bytes_view(r) == self@,
    {
        buf::bytes_mut_freeze(self.buf)
    }

    pub fn len(&self) -> (n: usize)
        ensures
            n == self@.len(),
    {
        buf::bytes_mut_len(&self.buf)
    }

    pub fn put_i8(&mut self, v: i8)
        ensures
            final(self)@ == old(self)@ + enc_i8(v),
    {
        buf::put_i8(&mut self.buf, v)
    }

    pub fn put_i16(&mut self, v: i16)
        ensures
            final(self)@ == old(self)@ + enc_i16(v),
    {
        buf::put_i16(&mut self.buf, v)
    }

    pub fn put_i32(&mut self, v: i32)
        ensures
            final(self)@ == old(self)@ + enc_i32(v),
    {
        buf::put_i32(&mut self.buf, v)
    }

    pub fn put_i64(&mut self, v: i64)
        ensures
            final(self)@ == old(self)@ + enc_i64(v),
    {
        buf::put_i64(&mut self.buf, v)
    }

    pub fn put_u32(&mut self, v: u32)
        ensures
            final(self)@ == old(self)@ + be(v as nat, 4),
    {
        buf::put_u32(&mut self.buf, v)
    }

    pub fn put_u64(&mut self, v: u64)
        ensures
            final(self)@ == old(self)@ + be(v as nat, 8),
    {
        buf::put_u64(&mut self.buf, v)
    }

    pub fn put_bytes(&mut self, b: &[u8])
        ensures
            final(self)@ == old(self)@ + b@,
    {
        buf::put_slice(&mut self.buf, b)
    }

    pub fn put_u8(&mut self, v: u8)
        ensures
            final(self)@ == old(self)@.push(v),
    {
        buf::put_u8(&mut self.buf, v)
    }

    /// A string behind its two-byte length.
    pub fn put_string(&mut self, s: &str)
        ensures
            final(self)@ == old(self)@ + enc_string(s@),
    {
        let b = s.as_bytes();
        self.put_i16(b.len() as i16);
        self.put_bytes(b);
        assert(self@ =~= old(self)@ + enc_string(s@));
    }

    pub fn put_nullable_string(&mut self, s: Option<&str>)
        ensures
            final(self)@ == old(self)@ + enc_nullable_string(opt_str(s)),
    {
        match s {
            Some(s) => self.put_string(s),
            None => self.put_i16(-1),
        }
    }

    pub fn put_compact_string(&mut self, s: &str)
        ensures
            final(self)@ == old(self)@ + enc_compact_string(s@),
    {
        self.put_compact_bytes(s.as_bytes());
    }

    fn put_compact_bytes(&mut self, b: &[u8])
        ensures
            final(self)@ == old(self)@ + enc_compact_bytes(b@),
    {
        self.put_unsigned_varint((b.len() as u64).wrapping_add(1));
        self.put_bytes(b);
        assert(self@ =~= old(self)@ + enc_compact_bytes(b@));
    }

    pub fn put_nullable_compact_string(&mut self, s: Option<&str>)
        ensures
            final(self)@ == old(self)@ + enc_nullable_compact_string(opt_str(s)),
    {
        match s {
            Some(s) => self.put_compact_string(s),
            None => self.put_unsigned_varint(0),
        }
    }

    pub fn put_compact_nullable_bytes(&mut self, b: Option<&[u8]>)
        ensures
            final(self)@ == old(self)@ + enc_compact_nullable_bytes(opt_slice(b)),
    {
        match b {
            Some(b) => self.put_compact_bytes(b),
            None => self.put_unsigned_varint(0),
        }
    }

    pub fn put_uvarint(&mut self, v: u64)
        ensures
            final(self)@ == old(self)@ + uvarint(v),
    {
        let ghost start = self@;
        let mut v: u64 = v;
        let ghost whole = v;
        while v >= 0x80
            invariant
                start + uvarint(whole) == self@ + uvarint(v),
            decreases v,
        {
            let ghost before = self@;
            self.put_u8((v % 0x80 + 0x80) as u8);
            assert(before + uvarint(v) =~= self@ + uvarint(v / 0x80));
            v = v / 0x80;
        }
        self.put_u8(v as u8);
        assert(self@ =~= start + uvarint(whole));
    }

    pub fn put_unsigned_varint(&mut self, v: u64)
        ensures
            final(self)@ == old(self)@ + uvarint(v),
    {
        self.put_uvarint(v)
    }

    pub fn put_array_len(&mut self, n: i32)
        ensures
            final(self)@ == old(self)@ + enc_i32(n),
    {
        self.put_i32(n)
    }
}

/// A buffer from whose front primitive values are taken.
pub struct Decoder {
    buf: Bytes,
    pos: usize,
}

impl Decoder {
    #[verifier::type_invariant]
    spec fn within(self) -> bool {
        self.pos <= bytes_view(self.buf).len()
    }

    /// The bytes not yet taken.
    pub closed spec fn rest(&self) -> Seq<u8> {
        bytes_view(self.buf).skip(self.pos as int)
    }

    pub fn new(buf: Bytes) -> (r: Self)
        ensures
            r.rest() == bytes_view(buf),
    {
        let r = Decoder { buf, pos: 0 };
        assert(r.rest() =~= bytes_view(buf));
        r
    }

    pub fn remaining(&self) -> (n: usize)
        ensures
            n == self.rest().len(),
    {
        proof {
            use_type_invariant(self);
        }
        buf::bytes_len(&self.buf) - self.pos
    }

    /// Takes `n` bytes and returns where they start in the buffer.
    fn advance(&mut self, n: usize) -> (r: Result<usize>)
        ensures
            ({
                let out = sp_take(cursor(old(self).rest()), n);
                &&& final(self).rest() == out.1.rest
                &&& final(self).buf == old(self).buf
                &&& match r {
                    Ok(at) => {
                        &&& out.1.err is None
                        &&& at + n <= bytes_view(final(self).buf).len() <= usize::MAX
                        &&& bytes_view(final(self).buf).subrange(at as int, at + n) == out.0
                    },
                    Err(e) => e is Decode && out.1.err == Some(e->Decode_0),
                }
            }),
    {
        proof {
            use_type_invariant(&*self);
        }
        let at = self.pos;
        let remaining = buf::bytes_len(&self.buf) - at;
        assert(remaining == self.rest().len());
        if remaining < n {
            return Err(Error::Decode(DecodeError::Short { need: n, remaining }));
        }
        assert(bytes_view(self.buf).subrange(at as int, at + n) =~= self.rest().take(n as int));
        self.pos = at + n;
        assert(self.rest() =~= old(self).rest().skip(n as int));
        Ok(at)
    }

    /// Takes `n` bytes, at most eight, and returns the number they spell.
    fn take_uint(&mut self, n: usize) -> (r: Result<u64>)
        requires
            n <= 8,
        ensures
            ({
                let out = sp_take(cursor(old(self).rest()), n);
                &&& final(self).rest() == out.1.rest
                &&& match r {
                    Ok(u) => {
                        &&& out.1.err is None
                        &&& u == be_value(out.0)
                        &&& n == 1 ==> u < 0x100
                        &&& n == 2 ==> u < 0x1_0000
                        &&& n == 4 ==> u < 0x1_0000_0000
                    },
                    Err(e) => e is Decode && out.1.err == Some(e->Decode_0),
                }
            }),
    {
        let at = self.advance(n)?;
        let part = slice_subrange(buf::bytes_slice(&self.buf), at, at + n);
        proof {
            lemma_be_value(part@);
            lemma_pow256();
        }
        Ok(be_uint(part))
    }

    pub fn get_i8(&mut self) -> (r: Result<i8>)
        ensures
            decodes(r, final(self).rest(), sp_i8(cursor(old(self).rest()))),
    {
        let u = self.take_uint(1)?;
        Ok(if u < 0x80 { u as i8 } else { (u as i16 - 0x100) as i8 })
    }

    pub fn get_i16(&mut self) -> (r: Result<i16>)
        ensures
            decodes(r, final(self).rest(), sp_i16(cursor(old(self).rest()))),
    {
        let u = self.take_uint(2)?;
        Ok(if u < 0x8000 { u as i16 } else { (u as i32 - 0x1_0000) as i16 })
    }

    pub fn get_i32(&mut self) -> (r: Result<i32>)
        ensures
            decodes(r, final(self).rest(), sp_i32(cursor(old(self).rest()))),
    {
        let u = self.take_uint(4)?;
        Ok(if u < 0x8000_0000 { u as i32 } else { (u as i64 - 0x1_0000_0000) as i32 })
    }

    pub fn get_i64(&mut self) -> (r: Result<i64>)
        ensures
            decodes(r, final(self).rest(), sp_i64(cursor(old(self).rest()))),
    {
        let u = self.take_uint(8)?;
        Ok(
            if u < 0x8000_0000_0000_0000 {
                u as i64
            } else {
                (u as i128 - 0x1_0000_0000_0000_0000) as i64
            },
        )
    }

    pub fn get_u32(&mut self) -> (r: Result<u32>)
        ensures
            decodes(r, final(self).rest(), sp_u32(cursor(old(self).rest()))),
    {
        let u = self.take_uint(4)?;
        Ok(u as u32)
    }

    pub fn get_u64(&mut self) -> (r: Result<u64>)
        ensures
            decodes(r, final(self).rest(), sp_u64(cursor(old(self).rest()))),
    {
        self.take_uint(8)
    }

    pub fn get_bytes(&mut self, n: usize) -> (r: Result<Bytes>)
        ensures
            decodes(r, final(self).rest(), sp_take(cursor(old(self).rest()), n)),
    {
        let at = self.advance(n)?;
        Ok(buf::bytes_copy(slice_subrange(buf::bytes_slice(&self.buf), at, at + n)))
    }

    /// A string of `n` bytes.
    pub fn get_utf8(&mut self, n: usize) -> (r: Result<String>)
        ensures
            decodes(r, final(self).rest(), sp_utf8(cursor(old(self).rest()), n)),
    {
        let at = self.advance(n)?;
        let part = slice_subrange(buf::bytes_slice(&self.buf), at, at + n);
        match string_from_utf8(slice_to_vec(part)) {
            Some(s) => Ok(s),
            None => Err(Error::Decode(DecodeError::Utf8)),
        }
    }

    /// A string behind its two-byte length.
    pub fn get_string(&mut self) -> (r: Result<String>)
        ensures
            decodes(r, final(self).rest(), sp_string(cursor(old(self).rest()))),
    {
        let len = self.get_i16()?;
        if len < 0 {
            return Err(Error::Decode(DecodeError::NegativeLength));
        }
        self.get_utf8(len as usize)
    }

    pub fn get_nullable_string(&mut self) -> (r: Result<Option<String>>)
        ensures
            decodes(r, final(self).rest(), sp_nullable_string(cursor(old(self).rest()))),
    {
        let len = self.get_i16()?;
        if len < 0 {
            return Ok(None);
        }
        let s = self.get_utf8(len as usize)?;
        Ok(Some(s))
    }

    pub fn get_varint(&mut self) -> (r: Result<u64>)
        ensures
            decodes(r, final(self).rest(), sp_varint(cursor(old(self).rest()))),
    {
        let ghost s = self.rest();
        let mut result: u64 = 0;
        let mut shift: u32 = 0;
        let ghost mut i: nat = 0;
        proof {
            assert(s.skip(0) =~= s);
            let w = uvarint_value(s.take(continued(s) as int + 1));
            assert(s.skip(0).take(continued(s) as int + 1) =~= s.take(continued(s) as int + 1));
            assert(w == 0u64 | (w << 0)) by (bit_vector);
        }
        loop
            invariant
                s == old(self).rest(),
                i <= 10,
                i <= s.len(),
                shift == 7 * i,
                self.rest() == s.skip(i as int),
                continued(s) == i + continued(s.skip(i as int)),
                continued(s) < s.len() && i < 10 ==> uvarint_value(
                    s.take(continued(s) as int + 1),
                ) == result | (uvarint_value(
                    s.skip(i as int).take(continued(s.skip(i as int)) as int + 1),
                ) << shift),
            decreases 11 - i,
        {
            let ghost t = self.rest();
            proof {
                lemma_continued(t);
                assert(t.len() == 0 ==> t =~= Seq::empty());
            }
            let at = self.advance(1)?;
            let byte = buf::bytes_slice(&self.buf)[at];
            assert(byte == bytes_view(self.buf).subrange(at as int, at + 1)[0]);
            assert(byte == t[0]);
            assert(self.rest() =~= s.skip(i as int + 1));
            if shift > 63 {
                return Err(Error::Decode(DecodeError::VarintTooLong));
            }
            let payload: u64 = (byte & 0x7f) as u64;
            let ghost before = result;
            result = result | (payload << shift);
            if byte < 0x80 {
                proof {
                    let one = t.take(1);
                    assert(one.skip(1) =~= Seq::empty());
                    assert(uvarint_value(one.skip(1)) == 0);
                    assert(payload | (0u64 << 7) == payload) by (bit_vector);
                    assert(s.take(continued(s) as int + 1).len() == i + 1);
                }
                return Ok(result);
            }
            proof {
                let k = continued(t);
                let u = t.skip(1);
                assert(u =~= s.skip(i as int + 1));
                if continued(s) < s.len() {
                    assert(t.take(k as int + 1).skip(1) =~= u.take(continued(u) as int + 1));
                }
                let w = uvarint_value(u.take(continued(u) as int + 1));
                if i < 9 {
                    assert(before | ((payload | (w << 7)) << shift) == (before | (payload << shift))
                        | (w << (shift + 7) as u32)) by (bit_vector)
                        requires
                            shift <= 56,
                    ;
                }
                i = i + 1;
            }
            shift = shift + 7;
        }
    }

    pub fn get_unsigned_varint(&mut self) -> (r: Result<u64>)
        ensures
            decodes(r, final(self).rest(), sp_varint(cursor(old(self).rest()))),
    {
        self.get_varint()
    }

    pub fn get_compact_string(&mut self) -> (r: Result<String>)
        ensures
            decodes(r, final(self).rest(), sp_compact_string(cursor(old(self).rest()))),
    {
        let n = self.get_unsigned_varint()?;
        if n == 0 {
            return Err(Error::Decode(DecodeError::NullCompactString));
        }
        self.get_utf8((n - 1) as usize)
    }

    pub fn get_nullable_compact_string(&mut self) -> (r: Result<Option<String>>)
        ensures
            decodes(r, final(self).rest(), sp_nullable_compact_string(cursor(old(self).rest()))),
    {
        let n = self.get_unsigned_varint()?;
        if n == 0 {
            return Ok(None);
        }
        let s = self.get_utf8((n - 1) as usize)?;
        Ok(Some(s))
    }

    pub fn get_compact_nullable_bytes(&mut self) -> (r: Result<Option<Bytes>>)
        ensures
            decodes(r, final(self).rest(), sp_compact_nullable_bytes(cursor(old(self).rest()))),
    {
        let n = self.get_unsigned_varint()?;
        if n == 0 {
            return Ok(None);
        }
        let b = self.get_bytes((n - 1) as usize)?;
        Ok(Some(b))
    }
}

proof fn lemma_continued(s: Seq<u8>)
    ensures
        continued(s) <= s.len(),
    decreases s.len(),
{
    if s.len() > 0 {
        lemma_continued(s.skip(1));
    }
}

// ---------------------------------------------------------------------------
// What is written is what is read

/// Bytes are taken off the front as they were put there.
pub proof fn law_bytes_round_trip(b: Seq<u8>, n: usize, rest: Seq<u8>)
    requires
        n == b.len(),
    ensures
        sp_take(cursor(b + rest), n) == (b, cursor(rest)),
{
    assert((b + rest).take(n as int) =~= b);
    assert((b + rest).skip(n as int) =~= rest);
}

/// A one-byte integer reads back as written, whatever follows it.
pub proof fn law_i8_round_trip(v: i8, rest: Seq<u8>)
    ensures
        sp_i8(cursor(enc_i8(v) + rest)) == (v, cursor(rest)),
{
    lemma_int_round_trip(v, 0, 0, 0);
    lemma_be_len(unsigned8(v), 1);
    law_bytes_round_trip(enc_i8(v), 1, rest);
}

/// A two-byte integer reads back as written, whatever follows it.
pub proof fn law_i16_round_trip(v: i16, rest: Seq<u8>)
    ensures
        sp_i16(cursor(enc_i16(v) + rest)) == (v, cursor(rest)),
{
    lemma_int_round_trip(0, v, 0, 0);
    lemma_be_len(unsigned16(v), 2);
    law_bytes_round_trip(enc_i16(v), 2, rest);
}

/// A four-byte integer reads back as written, whatever follows it.
pub proof fn law_i32_round_trip(v: i32, rest: Seq<u8>)
    ensures
        sp_i32(cursor(enc_i32(v) + rest)) == (v, cursor(rest)),
{
    lemma_int_round_trip(0, 0, v, 0);
    lemma_be_len(unsigned32(v), 4);
    law_bytes_round_trip(enc_i32(v), 4, rest);
}

/// An eight-byte integer reads back as written, whatever follows it.
pub proof fn law_i64_round_trip(v: i64, rest: Seq<u8>)
    ensures
        sp_i64(cursor(enc_i64(v) + rest)) == (v, cursor(rest)),
{
    lemma_int_round_trip(0, 0, 0, v);
    lemma_be_len(unsigned64(v), 8);
    law_bytes_round_trip(enc_i64(v), 8, rest);
}

/// Unsigned integers read back as written, whatever follows them.
pub proof fn law_unsigned_round_trip(a: u32, b: u64, rest: Seq<u8>)
    ensures
        sp_u32(cursor(be(a as nat, 4) + rest)) == (a, cursor(rest)),
        sp_u64(cursor(be(b as nat, 8) + rest)) == (b, cursor(rest)),
{
    lemma_pow256();
    lemma_be_round_trip(a as nat, 4);
    lemma_be_round_trip(b as nat, 8);
    lemma_be_len(a as nat, 4);
    lemma_be_len(b as nat, 8);
    law_bytes_round_trip(be(a as nat, 4), 4, rest);
    law_bytes_round_trip(be(b as nat, 8), 8, rest);
}

/// Every 64-bit number reads back from its varint, whatever follows it.
pub proof fn law_varint_round_trip(v: u64, rest: Seq<u8>)
    ensures
        sp_varint(cursor(uvarint(v) + rest)) == (v, cursor(rest)),
{
    lemma_uvarint(v, rest);
    lemma_uvarint_len(v);
    let n = uvarint(v).len() as int;
    assert((uvarint(v) + rest).take(n) =~= uvarint(v));
    assert((uvarint(v) + rest).skip(n) =~= rest);
}

/// A string reads back from its bytes.
pub proof fn law_utf8_round_trip(s: Seq<char>, n: usize, rest: Seq<u8>)
    requires
        n == encode_utf8(s).len(),
    ensures
        sp_utf8(cursor(encode_utf8(s) + rest), n) == (s, cursor(rest)),
{
    law_bytes_round_trip(encode_utf8(s), n, rest);
    encode_utf8_valid_utf8(s);
    encode_utf8_decode_utf8(s);
}

/// A string of at most 32767 bytes reads back as written.
pub proof fn law_string_round_trip(s: Seq<char>, rest: Seq<u8>)
    requires
        encode_utf8(s).len() <= i16::MAX,
    ensures
        sp_string(cursor(enc_string(s) + rest)) == (s, cursor(rest)),
        sp_nullable_string(cursor(enc_string(s) + rest)) == (Some(s), cursor(rest)),
{
    let b = encode_utf8(s);
    assert(enc_string(s) + rest =~= enc_i16(b.len() as i16) + (b + rest));
    law_i16_round_trip(b.len() as i16, b + rest);
    law_utf8_round_trip(s, b.len() as usize, rest);
}

/// A string that may be absent reads back as written, if it is at most 32767
/// bytes long.
pub proof fn law_nullable_string_round_trip(s: Option<Seq<char>>, rest: Seq<u8>)
    requires
        s matches Some(t) ==> encode_utf8(t).len() <= i16::MAX,
    ensures
        sp_nullable_string(cursor(enc_nullable_string(s) + rest)) == (s, cursor(rest)),
{
    match s {
        Some(t) => law_string_round_trip(t, rest),
        None => law_i16_round_trip(-1i16, rest),
    }
}

/// A compact string reads back as written.
pub proof fn law_compact_string_round_trip(s: Seq<char>, rest: Seq<u8>)
    requires
        encode_utf8(s).len() < usize::MAX,
    ensures
        sp_compact_string(cursor(enc_compact_string(s) + rest)) == (s, cursor(rest)),
{
    let b = encode_utf8(s);
    let n = (b.len() as u64).wrapping_add(1);
    assert(enc_compact_string(s) + rest =~= uvarint(n) + (b + rest));
    law_varint_round_trip(n, b + rest);
    law_utf8_round_trip(s, b.len() as usize, rest);
}

/// A compact string that may be absent reads back as written.
pub proof fn law_nullable_compact_string_round_trip(s: Option<Seq<char>>, rest: Seq<u8>)
    requires
        s matches Some(t) ==> encode_utf8(t).len() < usize::MAX,
    ensures
        sp_nullable_compact_string(cursor(enc_nullable_compact_string(s) + rest)) == (
            s,
            cursor(rest),
        ),
{
    match s {
        Some(t) => {
            let b = encode_utf8(t);
            let n = (b.len() as u64).wrapping_add(1);
            assert(enc_compact_string(t) + rest =~= uvarint(n) + (b + rest));
            law_varint_round_trip(n, b + rest);
            law_utf8_round_trip(t, b.len() as usize, rest);
        },
        None => law_varint_round_trip(0, rest),
    }
}

/// Compact bytes that may be absent read back as written.
pub proof fn law_compact_bytes_round_trip(b: Option<Seq<u8>>, rest: Seq<u8>)
    requires
        b matches Some(t) ==> t.len() < usize::MAX,
    ensures
        sp_compact_nullable_bytes(cursor(enc_compact_nullable_bytes(b) + rest)) == (
            b,
            cursor(rest),
        ),
{
    match b {
        Some(t) => {
            let n = (t.len() as u64).wrapping_add(1);
            assert(enc_compact_bytes(t) + rest =~= uvarint(n) + (t + rest));
            law_varint_round_trip(n, t + rest);
            law_bytes_round_trip(t, t.len() as usize, rest);
        },
        None => law_varint_round_trip(0, rest),
    }
}

} // verus!
