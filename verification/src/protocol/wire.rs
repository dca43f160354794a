//! Numbers as bytes: big-endian integers and base-128 varints.

use vstd::prelude::*;

verus! {

/// The `n` low bytes of `v`, most significant first.
pub open spec fn be(v: nat, n: nat) -> Seq<u8>
    decreases n,
{
    if n == 0 {
        Seq::empty()
    } else {
        be(v / 256, (n - 1) as nat).push((v % 256) as u8)
    }
}

/// The number that a run of bytes spells, most significant first.
pub open spec fn be_value(s: Seq<u8>) -> nat
    decreases s.len(),
{
    if s.len() == 0 {
        0
    } else {
        be_value(s.drop_last()) * 256 + s.last() as nat
    }
}

/// 256 to the power `n`.
pub open spec fn pow256(n: nat) -> nat
    decreases n,
{
    if n == 0 {
        1
    } else {
        256 * pow256((n - 1) as nat)
    }
}

/// The number whose bytes are the two's complement of `v`.
pub open spec fn unsigned8(v: i8) -> nat {
    if v < 0 {
        (v + 0x100) as nat
    } else {
        v as nat
    }
}

/// The number whose bytes are the two's complement of `v`.
pub open spec fn unsigned16(v: i16) -> nat {
    if v < 0 {
        (v + 0x1_0000) as nat
    } else {
        v as nat
    }
}

/// The number whose bytes are the two's complement of `v`.
pub open spec fn unsigned32(v: i32) -> nat {
    if v < 0 {
        (v + 0x1_0000_0000) as nat
    } else {
        v as nat
    }
}

/// The number whose bytes are the two's complement of `v`.
pub open spec fn unsigned64(v: i64) -> nat {
    if v < 0 {
        (v + 0x1_0000_0000_0000_0000) as nat
    } else {
        v as nat
    }
}

/// The integer whose two's complement in one byte is `u`.
pub open spec fn signed8(u: nat) -> i8 {
    if u < 0x80 {
        u as i8
    } else {
        (u - 0x100) as i8
    }
}

/// The integer whose two's complement in two bytes is `u`.
pub open spec fn signed16(u: nat) -> i16 {
    if u < 0x8000 {
        u as i16
    } else {
        (u - 0x1_0000) as i16
    }
}

/// The integer whose two's complement in four bytes is `u`.
pub open spec fn signed32(u: nat) -> i32 {
    if u < 0x8000_0000 {
        u as i32
    } else {
        (u - 0x1_0000_0000) as i32
    }
}

/// The integer whose two's complement in eight bytes is `u`.
pub open spec fn signed64(u: nat) -> i64 {
    if u < 0x8000_0000_0000_0000 {
        u as i64
    } else {
        (u - 0x1_0000_0000_0000_0000) as i64
    }
}

pub open spec fn enc_i8(v: i8) -> Seq<u8> {
    be(unsigned8(v), 1)
}

pub open spec fn enc_i16(v: i16) -> Seq<u8> {
    be(unsigned16(v), 2)
}

pub open spec fn enc_i32(v: i32) -> Seq<u8> {
    be(unsigned32(v), 4)
}

pub open spec fn enc_i64(v: i64) -> Seq<u8> {
    be(unsigned64(v), 8)
}

/// The sizes of the fixed powers of 256.
pub proof fn lemma_pow256()
    ensures
        pow256(0) == 1,
        pow256(1) == 0x100,
        pow256(2) == 0x1_0000,
        pow256(4) == 0x1_0000_0000,
        pow256(8) == 0x1_0000_0000_0000_0000,
{
    reveal_with_fuel(pow256, 9);
}

/// `n` bytes are written for every number.
pub broadcast proof fn lemma_be_len(v: nat, n: nat)
    ensures
        (#[trigger] be(v, n)).len() == n,
    decreases n,
{
    if n > 0 {
        lemma_be_len(v / 256, (n - 1) as nat);
    }
}

/// Writing a number that fits in `n` bytes and reading it back gives the number.
pub proof fn lemma_be_round_trip(v: nat, n: nat)
    requires
        v < pow256(n),
    ensures
        be_value(be(v, n)) == v,
    decreases n,
{
    if n > 0 {
        let m = (n - 1) as nat;
        assert(v / 256 < pow256(m)) by (nonlinear_arith)
            requires
                v < 256 * pow256(m),
        ;
        lemma_be_round_trip(v / 256, m);
        assert(be(v, n).drop_last() =~= be(v / 256, m));
        assert(be(v, n).last() == (v % 256) as u8);
    }
}

/// Bytes spell a number that fits in that many bytes, and writing it gives the
/// bytes back.
pub proof fn lemma_be_value(s: Seq<u8>)
    ensures
        be_value(s) < pow256(s.len()),
        be(be_value(s), s.len()) == s,
    decreases s.len(),
{
    if s.len() > 0 {
        let p = s.drop_last();
        let v = be_value(p);
        lemma_be_value(p);
        assert(v * 256 + (s.last() as nat) < 256 * pow256(p.len())) by (nonlinear_arith)
            requires
                v + 1 <= pow256(p.len()),
                s.last() as nat <= 255,
        ;
        assert((v * 256 + s.last() as nat) / 256 == v);
        assert((v * 256 + s.last() as nat) % 256 == s.last() as nat);
        assert(be(be_value(s), s.len()) =~= p.push(s.last()));
        assert(p.push(s.last()) =~= s);
    }
}

/// Big-endian signed integers read back as written.
pub proof fn lemma_int_round_trip(a: i8, b: i16, c: i32, d: i64)
    ensures
        signed8(be_value(enc_i8(a))) == a,
        signed16(be_value(enc_i16(b))) == b,
        signed32(be_value(enc_i32(c))) == c,
        signed64(be_value(enc_i64(d))) == d,
{
    lemma_pow256();
    lemma_be_round_trip(unsigned8(a), 1);
    lemma_be_round_trip(unsigned16(b), 2);
    lemma_be_round_trip(unsigned32(c), 4);
    lemma_be_round_trip(unsigned64(d), 8);
}

/// The number spelled by at most eight bytes, most significant first.
pub fn be_uint(s: &[u8]) -> (r: u64)
    requires
        s@.len() <= 8,
    ensures
        r == be_value(s@),
{
    let mut acc: u64 = 0;
    let mut i: usize = 0;
    assert(s@.take(0) =~= Seq::empty());
    while i < s.len()
        invariant
            i <= s@.len() <= 8,
            acc == be_value(s@.take(i as int)),
        decreases s@.len() - i,
    {
        proof {
            let p = s@.take(i as int);
            let q = s@.take(i + 1);
            assert(q.drop_last() =~= p);
            lemma_be_value(q);
            lemma_pow256_le((i + 1) as nat, 8);
            lemma_pow256();
        }
        acc = acc * 256 + s[i] as u64;
        i = i + 1;
    }
    assert(s@.take(i as int) =~= s@);
    acc
}

/// The signed number spelled by four bytes.
pub fn be_i32(s: &[u8]) -> (r: i32)
    requires
        s@.len() == 4,
    ensures
        r == signed32(be_value(s@)),
{
    proof {
        lemma_be_value(s@);
        lemma_pow256();
    }
    let u = be_uint(s);
    if u < 0x8000_0000 {
        u as i32
    } else {
        (u as i64 - 0x1_0000_0000) as i32
    }
}

/// The unsigned number spelled by four bytes.
pub fn be_u32(s: &[u8]) -> (r: u32)
    requires
        s@.len() == 4,
    ensures
        r == be_value(s@),
{
    proof {
        lemma_be_value(s@);
        lemma_pow256();
    }
    be_uint(s) as u32
}

/// The signed number spelled by eight bytes.
pub fn be_i64(s: &[u8]) -> (r: i64)
    requires
        s@.len() == 8,
    ensures
        r == signed64(be_value(s@)),
{
    proof {
        lemma_be_value(s@);
        lemma_pow256();
    }
    let u = be_uint(s);
    if u < 0x8000_0000_0000_0000 {
        u as i64
    } else {
        (u as i128 - 0x1_0000_0000_0000_0000) as i64
    }
}

proof fn lemma_pow256_le(a: nat, b: nat)
    requires
        a <= b,
    ensures
        pow256(a) <= pow256(b),
    decreases b,
{
    if a < b {
        lemma_pow256_le(a, (b - 1) as nat);
    }
}

/// A number in base 128, least significant group first, the high bit of every
/// byte but the last set.
pub open spec fn uvarint(v: u64) -> Seq<u8>
    decreases v,
{
    if v < 0x80 {
        seq![v as u8]
    } else {
        seq![((v % 0x80) + 0x80) as u8] + uvarint(v / 0x80)
    }
}

/// The number spelled by the base-128 groups of a varint, cut off at 64 bits.
pub open spec fn uvarint_value(s: Seq<u8>) -> u64
    decreases s.len(),
{
    if s.len() == 0 {
        0
    } else {
        ((s[0] & 0x7f) as u64) | (uvarint_value(s.skip(1)) << 7)
    }
}

/// How many bytes at the front of `s` carry the continuation bit.
pub open spec fn continued(s: Seq<u8>) -> nat
    decreases s.len(),
{
    if s.len() == 0 || s[0] < 0x80 {
        0
    } else {
        1 + continued(s.skip(1))
    }
}

/// A varint is its own prefix code: the bytes that follow do not matter, and the
/// number written is the number read.
pub proof fn lemma_uvarint(v: u64, rest: Seq<u8>)
    ensures
        1 <= uvarint(v).len(),
        continued(uvarint(v) + rest) == uvarint(v).len() - 1,
        uvarint_value(uvarint(v)) == v,
    decreases v,
{
    let s = uvarint(v);
    if v < 0x80 {
        assert((s + rest)[0] == v as u8);
        assert(s.skip(1) =~= Seq::empty());
        assert(uvarint_value(s.skip(1)) == 0);
        let b = v as u8;
        assert(((b & 0x7f) as u64) | (0u64 << 7) == v) by (bit_vector)
            requires
                v < 0x80,
                b == v as u8,
        ;
    } else {
        let w = v / 0x80;
        let b = ((v % 0x80) + 0x80) as u8;
        lemma_uvarint(w, rest);
        assert((s + rest)[0] == b);
        assert((s + rest).skip(1) =~= uvarint(w) + rest);
        assert(s.skip(1) =~= uvarint(w));
        assert(((b & 0x7f) as u64) | (w << 7) == v) by (bit_vector)
            requires
                w == v / 0x80,
                b == ((v % 0x80) + 0x80) as u8,
        ;
    }
}

/// A varint of a 64-bit number takes at most ten bytes.
pub proof fn lemma_uvarint_len(v: u64)
    ensures
        1 <= uvarint(v).len() <= 10,
{
    reveal_with_fuel(uvarint, 11);
    assert(v / 0x80 / 0x80 / 0x80 / 0x80 / 0x80 / 0x80 / 0x80 / 0x80 / 0x80 < 0x80);
}

/// Signed numbers as unsigned ones, small magnitudes first.
pub open spec fn zigzag(n: i64) -> u64 {
    if n >= 0 {
        (2 * n) as u64
    } else {
        (-2 * n - 1) as u64
    }
}

/// The signed number that `zigzag` turned into `u`.
pub open spec fn unzigzag(u: u64) -> i64 {
    if u % 2 == 0 {
        (u / 2) as i64
    } else {
        (-((u / 2) as int) - 1) as i64
    }
}

/// The unsigned number for a signed one.
pub fn to_zigzag(n: i64) -> (r: u64)
    ensures
        r == zigzag(n),
{
    if n >= 0 {
        (n as u64) * 2
    } else {
        (-(n + 1)) as u64 * 2 + 1
    }
}

/// The signed number for an unsigned one.
pub fn from_zigzag(u: u64) -> (r: i64)
    ensures
        r == unzigzag(u),
{
    if u % 2 == 0 {
        (u / 2) as i64
    } else {
        -((u / 2) as i64) - 1
    }
}

/// Every signed number comes back.
pub proof fn lemma_zigzag(n: i64)
    ensures
        unzigzag(zigzag(n)) == n,
{
}

} // verus!
