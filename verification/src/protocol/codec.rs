//! Values made of primitive ones: how each is read and written, and the same of
//! runs of them.

use bytes::Bytes;
use vstd::prelude::*;

use crate::protocol::primitive::{
    cursor, decodes, sp_i32, sp_string, sp_take, sp_varint, Cursor, Decoder, Encoder, Modeled,
    Result,
};
use crate::protocol::wire::{enc_i32, uvarint};

verus! {

/// A value that can be taken off the front of a decoder.
pub trait WireRead: Modeled + Sized {
    /// The value read at `c`, and where that leaves off.
    spec fn sp_read(c: Cursor, version: i16) -> (Self::M, Cursor);

    fn read(buf: &mut Decoder, version: i16) -> (r: Result<Self>)
        ensures
            decodes(r, final(buf).rest(), Self::sp_read(cursor(old(buf).rest()), version)),
    ;
}

/// `n` values one after the other.
pub open spec fn sp_array<T: WireRead>(c: Cursor, n: nat, version: i16) -> (Seq<T::M>, Cursor)
    decreases n,
{
    if n == 0 || c.err is Some {
        (Seq::empty(), c)
    } else {
        let (xs, c1) = sp_array::<T>(c, (n - 1) as nat, version);
        if c1.err is Some {
            (xs, c1)
        } else {
            let (x, c2) = T::sp_read(c1, version);
            (xs.push(x), c2)
        }
    }
}

/// How many elements a signed array length announces.
pub open spec fn count(n: i32) -> nat {
    if n < 0 {
        0
    } else {
        n as nat
    }
}

proof fn lemma_array_stops<T: WireRead>(c: Cursor, k: nat, n: nat, version: i16)
    requires
        k <= n,
        sp_array::<T>(c, k, version).1.err is Some,
    ensures
        sp_array::<T>(c, n, version).1 == sp_array::<T>(c, k, version).1,
    decreases n,
{
    if k < n {
        lemma_array_stops::<T>(c, k, (n - 1) as nat, version);
    }
}

/// Reads `n` values one after the other.
pub fn read_array<T: WireRead>(buf: &mut Decoder, n: usize, version: i16) -> (r: Result<Vec<T>>)
    ensures
        decodes(
            r,
            final(buf).rest(),
            sp_array::<T>(cursor(old(buf).rest()), n as nat, version),
        ),
{
    let ghost c = cursor(buf.rest());
    let mut out: Vec<T> = Vec::new();
    let mut i: usize = 0;
    assert(out.model() =~= Seq::empty());
    while i < n
        invariant
            i <= n,
            c == cursor(old(buf).rest()),
            sp_array::<T>(c, i as nat, version) == (out.model(), cursor(buf.rest())),
        decreases n - i,
    {
        let ghost before = out.model();
        match T::read(buf, version) {
            Ok(v) => {
                out.push(v);
                assert(out.model() =~= before.push(v.model()));
            },
            Err(e) => {
                proof {
                    lemma_array_stops::<T>(c, (i + 1) as nat, n as nat, version);
                }
                return Err(e);
            },
        }
        i = i + 1;
    }
    Ok(out)
}

/// Reads as many values as a signed array length announces.
pub fn read_counted<T: WireRead>(buf: &mut Decoder, n: i32, version: i16) -> (r: Result<Vec<T>>)
    ensures
        decodes(r, final(buf).rest(), sp_array::<T>(cursor(old(buf).rest()), count(n), version)),
{
    let n: usize = if n < 0 { 0 } else { n as usize };
    read_array(buf, n, version)
}

/// A value that can be appended to an encoder.
pub trait WireWrite {
    /// The bytes of the value.
    spec fn wire(&self, version: i16) -> Seq<u8>;

    fn write(&self, e: &mut Encoder, version: i16)
        ensures
            final(e)@ == old(e)@ + self.wire(version),
    ;
}

/// The bytes of values one after the other.
pub open spec fn wire_all<T: WireWrite>(xs: Seq<T>, version: i16) -> Seq<u8>
    decreases xs.len(),
{
    if xs.len() == 0 {
        Seq::empty()
    } else {
        wire_all(xs.drop_last(), version) + xs.last().wire(version)
    }
}

/// A signed array length, cut off at 32 bits, and the elements.
pub open spec fn wire_array<T: WireWrite>(xs: Seq<T>, version: i16) -> Seq<u8> {
    enc_i32(xs.len() as i32) + wire_all(xs, version)
}

/// `s` where `b` holds, else nothing.
pub open spec fn only_if(b: bool, s: Seq<u8>) -> Seq<u8> {
    if b {
        s
    } else {
        Seq::empty()
    }
}

/// Appends values one after the other.
pub fn write_all<T: WireWrite>(e: &mut Encoder, xs: &Vec<T>, version: i16)
    ensures
        final(e)@ == old(e)@ + wire_all(xs@, version),
{
    let mut i: usize = 0;
    assert(old(e)@ + wire_all(xs@.take(0), version) =~= old(e)@);
    while i < xs.len()
        invariant
            i <= xs@.len(),
            e@ == old(e)@ + wire_all(xs@.take(i as int), version),
        decreases xs@.len() - i,
    {
        let ghost before = e@;
        xs[i].write(e, version);
        proof {
            let t = xs@.take(i + 1);
            assert(t.drop_last() =~= xs@.take(i as int));
            assert(e@ =~= old(e)@ + wire_all(t, version));
        }
        i = i + 1;
    }
    assert(xs@.take(i as int) =~= xs@);
}

/// Appends a signed array length and the elements.
pub fn write_array<T: WireWrite>(e: &mut Encoder, xs: &Vec<T>, version: i16)
    ensures
        final(e)@ == old(e)@ + wire_array(xs@, version),
{
    e.put_i32(xs.len() as i32);
    write_all(e, xs, version);
    assert(e@ =~= old(e)@ + wire_array(xs@, version));
}

// ---------------------------------------------------------------------------
// Tuples

impl<A: Modeled, B: Modeled> Modeled for (A, B) {
    type M = (A::M, B::M);

    open spec fn model(&self) -> (A::M, B::M) {
        (self.0.model(), self.1.model())
    }
}

impl<A: Modeled, B: Modeled, C: Modeled, D: Modeled> Modeled for (A, B, C, D) {
    type M = (A::M, B::M, C::M, D::M);

    open spec fn model(&self) -> (A::M, B::M, C::M, D::M) {
        (self.0.model(), self.1.model(), self.2.model(), self.3.model())
    }
}

// ---------------------------------------------------------------------------
// Elements that several messages share

impl WireRead for i32 {
    open spec fn sp_read(c: Cursor, version: i16) -> (i32, Cursor) {
        sp_i32(c)
    }

    fn read(buf: &mut Decoder, version: i16) -> (r: Result<Self>) {
        buf.get_i32()
    }
}

impl WireWrite for i32 {
    open spec fn wire(&self, version: i16) -> Seq<u8> {
        enc_i32(*self)
    }

    fn write(&self, e: &mut Encoder, version: i16) {
        e.put_i32(*self)
    }
}

impl WireRead for String {
    open spec fn sp_read(c: Cursor, version: i16) -> (Seq<char>, Cursor) {
        sp_string(c)
    }

    fn read(buf: &mut Decoder, version: i16) -> (r: Result<Self>) {
        buf.get_string()
    }
}

/// Four bytes of length and as many bytes.
pub open spec fn sp_bytes(c: Cursor) -> (Seq<u8>, Cursor) {
    let (len, c1) = sp_i32(c);
    sp_take(c1, len as usize)
}

/// Reads four bytes of length and as many bytes.
pub fn read_bytes(buf: &mut Decoder) -> (r: Result<Bytes>)
    ensures
        decodes(r, final(buf).rest(), sp_bytes(cursor(old(buf).rest()))),
{
    let len = buf.get_i32()?;
    buf.get_bytes(len as usize)
}

/// A name and bytes that belong to it.
impl WireRead for (String, Bytes) {
    open spec fn sp_read(c: Cursor, version: i16) -> ((Seq<char>, Seq<u8>), Cursor) {
        let (name, c1) = sp_string(c);
        let (data, c2) = sp_bytes(c1);
        ((name, data), c2)
    }

    fn read(buf: &mut Decoder, version: i16) -> (r: Result<Self>) {
        let name = buf.get_string()?;
        let data = read_bytes(buf)?;
        Ok((name, data))
    }
}

/// A field that a reader may skip: a tag, a size and that many bytes.
pub struct TaggedField;

impl Modeled for TaggedField {
    type M = ();

    open spec fn model(&self) -> () {
        ()
    }
}

impl WireRead for TaggedField {
    open spec fn sp_read(c: Cursor, version: i16) -> ((), Cursor) {
        let (tag, c1) = sp_varint(c);
        let (size, c2) = sp_varint(c1);
        ((), sp_take(c2, size as usize).1)
    }

    fn read(buf: &mut Decoder, version: i16) -> (r: Result<Self>) {
        let _tag = buf.get_unsigned_varint()?;
        let size = buf.get_unsigned_varint()?;
        let _skipped = buf.get_bytes(size as usize)?;
        Ok(TaggedField)
    }
}

/// The number of tagged fields, with the fields skipped.
pub open spec fn sp_tagged_fields(c: Cursor) -> (u32, Cursor) {
    let (n, c1) = sp_varint(c);
    (n as u32, sp_array::<TaggedField>(c1, (n as u32) as nat, 0).1)
}

/// Skips the tagged fields and returns how many there were.
pub fn read_tagged_fields(buf: &mut Decoder) -> (r: Result<u32>)
    ensures
        decodes(r, final(buf).rest(), sp_tagged_fields(cursor(old(buf).rest()))),
{
    let n: u32 = buf.get_unsigned_varint()? as u32;
    let _fields = read_array::<TaggedField>(buf, n as usize, 0)?;
    Ok(n)
}

/// Writes that there are no tagged fields.
pub fn write_tagged_fields(e: &mut Encoder)
    ensures
        final(e)@ == old(e)@ + uvarint(0),
{
    e.put_unsigned_varint(0)
}

} // verus!
