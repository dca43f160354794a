use bytes::Bytes;
use rivine::order;
use rivine::protocol::primitive::{DecodeError, Decoder, Encoder, Error};
use rivine::protocol::wire::{be_i32, be_i64, be_u32, from_zigzag, to_zigzag};
use rivine::protocol::RequestHeader;
use rivine::text;

#[test]
fn test_string_roundtrip() {
    let mut e = Encoder::new();
    e.put_string("hello");
    let bytes = e.into_bytes();
    let mut d = Decoder::new(bytes);
    assert_eq!(d.get_string().unwrap(), "hello");
}

#[test]
fn test_compact_string_roundtrip() {
    let mut e = Encoder::new();
    e.put_compact_string("world");
    let bytes = e.into_bytes();
    let mut d = Decoder::new(bytes);
    assert_eq!(d.get_compact_string().unwrap(), "world");
}

#[test]
fn test_nullable_string() {
    let mut e = Encoder::new();
    e.put_nullable_string(None);
    e.put_nullable_string(Some("abc"));
    let bytes = e.into_bytes();
    let mut d = Decoder::new(bytes);
    assert_eq!(d.get_nullable_string().unwrap(), None);
    assert_eq!(d.get_nullable_string().unwrap(), Some("abc".into()));
}

fn encoded(f: fn(&mut Encoder)) -> Vec<u8> {
    let mut e = Encoder::new();
    f(&mut e);
    e.into_bytes().to_vec()
}

fn decoder(bytes: &[u8]) -> Decoder {
    Decoder::new(Bytes::copy_from_slice(bytes))
}

#[test]
fn numbers_are_big_endian() {
    assert_eq!(encoded(|e| e.put_i8(-2)), vec![0xfe]);
    assert_eq!(encoded(|e| e.put_i16(-2)), vec![0xff, 0xfe]);
    assert_eq!(encoded(|e| e.put_i32(258)), vec![0, 0, 1, 2]);
    assert_eq!(encoded(|e| e.put_i64(-1)), vec![0xff; 8]);
    assert_eq!(encoded(|e| e.put_u32(0xdeadbeef)), vec![0xde, 0xad, 0xbe, 0xef]);
    assert_eq!(encoded(|e| e.put_u64(1)), vec![0, 0, 0, 0, 0, 0, 0, 1]);
    assert_eq!(encoded(|e| e.put_array_len(-1)), vec![0xff; 4]);
    assert_eq!(be_i32(&[0xff, 0xff, 0xff, 0xfe]), -2);
    assert_eq!(be_u32(&[0, 1, 0, 0]), 65536);
    assert_eq!(be_i64(&[0, 0, 0, 0, 0, 0, 1, 0]), 256);
}

#[test]
fn numbers_come_back() {
    let mut e = Encoder::new();
    e.put_i8(i8::MIN);
    e.put_i16(i16::MIN);
    e.put_i32(i32::MIN);
    e.put_i64(i64::MIN);
    e.put_u32(u32::MAX);
    e.put_u64(u64::MAX);
    assert_eq!(e.len(), 27);
    let mut d = Decoder::new(e.into_bytes());
    assert_eq!(d.remaining(), 27);
    assert_eq!(d.get_i8().unwrap(), i8::MIN);
    assert_eq!(d.get_i16().unwrap(), i16::MIN);
    assert_eq!(d.get_i32().unwrap(), i32::MIN);
    assert_eq!(d.get_i64().unwrap(), i64::MIN);
    assert_eq!(d.get_u32().unwrap(), u32::MAX);
    assert_eq!(d.get_u64().unwrap(), u64::MAX);
    assert_eq!(d.remaining(), 0);
}

#[test]
fn varints_come_back() {
    for (v, bytes) in [
        (0u64, vec![0u8]),
        (127, vec![127]),
        (128, vec![0x80, 1]),
        (300, vec![0xac, 2]),
        (u64::MAX, vec![0xff, 0xff, 0xff, 0xff, 0xff, 0xff, 0xff, 0xff, 0xff, 1]),
    ] {
        let mut e = Encoder::new();
        e.put_uvarint(v);
        assert_eq!(e.into_bytes().to_vec(), bytes);
        assert_eq!(decoder(&bytes).get_varint().unwrap(), v);
    }
}

#[test]
fn zigzag_interleaves_signs() {
    assert_eq!(to_zigzag(0), 0);
    assert_eq!(to_zigzag(-1), 1);
    assert_eq!(to_zigzag(1), 2);
    assert_eq!(to_zigzag(i64::MIN), u64::MAX);
    for n in [0i64, 1, -1, 63, -64, i64::MAX, i64::MIN] {
        assert_eq!(from_zigzag(to_zigzag(n)), n);
    }
}

#[test]
fn compact_lengths_are_one_more() {
    assert_eq!(encoded(|e| e.put_compact_string("ab")), vec![3, b'a', b'b']);
    assert_eq!(encoded(|e| e.put_nullable_compact_string(None)), vec![0]);
    assert_eq!(encoded(|e| e.put_compact_nullable_bytes(Some(&[7]))), vec![2, 7]);
    let mut d = decoder(&[0, 2, b'x', 1, 0, 2, 9]);
    assert_eq!(d.get_nullable_compact_string().unwrap(), None);
    assert_eq!(d.get_nullable_compact_string().unwrap(), Some("x".to_string()));
    assert_eq!(d.get_nullable_compact_string().unwrap(), Some(String::new()));
    assert!(d.get_compact_nullable_bytes().unwrap().is_none());
    assert_eq!(d.get_compact_nullable_bytes().unwrap().unwrap().to_vec(), vec![9]);
}

#[test]
fn decoding_errors() {
    assert!(matches!(
        decoder(&[1, 2]).get_i32(),
        Err(Error::Decode(DecodeError::Short { need: 4, remaining: 2 }))
    ));
    assert!(matches!(
        decoder(&[0xff, 0xff]).get_string(),
        Err(Error::Decode(DecodeError::NegativeLength))
    ));
    assert!(matches!(
        decoder(&[0]).get_compact_string(),
        Err(Error::Decode(DecodeError::NullCompactString))
    ));
    assert!(matches!(
        decoder(&[0, 1, 0xff]).get_string(),
        Err(Error::Decode(DecodeError::Utf8))
    ));
    assert!(matches!(
        decoder(&[0xff; 11]).get_varint(),
        Err(Error::Decode(DecodeError::VarintTooLong))
    ));
}

#[test]
fn strings_are_utf8() {
    let s = "gr\u{fc}n \u{1f980}";
    let mut e = Encoder::new();
    e.put_string(s);
    assert_eq!(e.len(), 2 + s.len());
    assert_eq!(Decoder::new(e.into_bytes()).get_string().unwrap(), s);
}

#[test]
fn header_without_tagged_fields() {
    let mut e = Encoder::new();
    e.put_i16(0);
    e.put_i16(3);
    e.put_i32(7);
    e.put_nullable_string(Some("me"));
    e.put_i8(42);
    let mut d = Decoder::new(e.into_bytes());
    let h = RequestHeader::decode(&mut d, 0).unwrap();
    assert_eq!((h.api_key, h.api_version, h.correlation_id), (0, 3, 7));
    assert_eq!(h.client_id, Some("me".to_string()));
    assert_eq!(d.get_i8().unwrap(), 42);
}

#[test]
fn header_with_tagged_fields() {
    let mut e = Encoder::new();
    e.put_i16(0);
    e.put_i16(9);
    e.put_i32(7);
    e.put_nullable_string(None);
    e.put_unsigned_varint(1);
    e.put_unsigned_varint(5);
    e.put_unsigned_varint(2);
    e.put_bytes(&[1, 2]);
    e.put_i8(42);
    let mut d = Decoder::new(e.into_bytes());
    let h = RequestHeader::decode(&mut d, 0).unwrap();
    assert_eq!(h.client_id, None);
    assert_eq!(d.get_i8().unwrap(), 42);
}

#[test]
fn decimals() {
    let mut s = String::new();
    text::push_nat(&mut s, 0);
    text::push_nat(&mut s, 1234567890123);
    text::push_int(&mut s, -42);
    assert_eq!(s, "01234567890123-42");
    assert_eq!(text::parse_int("+17", -100, 100), Some(17));
    assert_eq!(text::parse_int("-100", -100, 100), Some(-100));
    assert_eq!(text::parse_int("101", -100, 100), None);
    assert_eq!(text::parse_int("", -100, 100), None);
    assert_eq!(text::parse_int("-", -100, 100), None);
    assert_eq!(text::parse_int("1x", -100, 100), None);
}

#[test]
fn strings_are_ordered_by_their_bytes() {
    assert!(order::is_ordered("", "a"));
    assert!(order::is_ordered("a", "a"));
    assert!(order::is_ordered("a", "ab"));
    assert!(!order::is_ordered("ab", "a"));
    assert!(order::is_ordered("Z", "a"));
    assert!(!order::is_ordered("b", "ab"));
}
