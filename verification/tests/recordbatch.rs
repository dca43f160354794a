use bytes::{BufMut, Bytes, BytesMut};
use rivine::protocol::compression::{compress, decompress, Compression};
use rivine::protocol::primitive::{DecodeError, Error};
use rivine::protocol::recordbatch::{Record, RecordBatch, RecordBatchReader};
use rivine::protocol::run::read_run;
use rivine::storage::compaction::{CompactWorker, LogCompactor};

fn sample_records() -> Vec<Record> {
    vec![
        Record {
            attributes: 0,
            timestamp_delta: 0,
            offset_delta: 0,
            key: Some(Bytes::from("k1")),
            value: Some(Bytes::from("value1")),
            headers: vec![],
        },
        Record {
            attributes: 0,
            timestamp_delta: 100,
            offset_delta: 1,
            key: None,
            value: Some(Bytes::from("value2")),
            headers: vec![("h".into(), Some(Bytes::from("v")))],
        },
    ]
}

#[test]
fn test_recordbatch_roundtrip() {
    for comp in [Compression::Plain, Compression::Gzip, Compression::Snappy] {
        let bytes = RecordBatch::serialize(0, sample_records(), comp, 1_000_000, 0, 0, 0, 0);
        let parsed = RecordBatch::parse(bytes).unwrap();
        assert_eq!(parsed.records.len(), 2);
        assert_eq!(parsed.records[0].key.as_ref().unwrap(), "k1");
        assert_eq!(parsed.records[0].value.as_ref().unwrap(), "value1");
        assert_eq!(parsed.records[1].value.as_ref().unwrap(), "value2");
        assert_eq!(parsed.records[1].headers[0].0, "h");
        assert_eq!(parsed.compression(), comp);
        assert_eq!(parsed.base_offset, 0);
        assert_eq!(parsed.last_offset(), 1);
    }
}

#[test]
fn test_recordbatch_reader() {
    let b1 = RecordBatch::serialize(0, sample_records(), Compression::Plain, 100, 0, 0, 0, 0);
    let b2 = RecordBatch::serialize(2, sample_records(), Compression::Plain, 200, 0, 0, 2, 0);
    let mut all = BytesMut::new();
    all.put_slice(&b1);
    all.put_slice(&b2);
    let mut r = RecordBatchReader::new(all.freeze());
    assert!(r.next_batch().unwrap().is_some());
    assert!(r.next_batch().unwrap().is_some());
    assert!(r.next_batch().unwrap().is_none());
}

#[test]
fn joined_batches_are_read_in_turn() {
    let mut all = BytesMut::new();
    let mut raws = Vec::new();
    for (i, comp) in [Compression::Plain, Compression::Zstd, Compression::Lz4].iter().enumerate() {
        let raw = RecordBatch::serialize(2 * i as i64, sample_records(), *comp, 1, 0, 0, 0, 0);
        all.put_slice(&raw);
        raws.push(raw);
    }
    let whole = all.freeze();
    let mut r = RecordBatchReader::new(whole.clone());
    for raw in &raws {
        let (batch, bytes) = r.next_batch().unwrap().unwrap();
        assert_eq!(&bytes, raw);
        assert_eq!(batch.raw, RecordBatch::parse(raw.clone()).unwrap().raw);
    }
    assert!(r.next_batch().unwrap().is_none());
    assert!(r.next_batch().unwrap().is_none());

    // What is cut short is not read.
    let run = read_run(whole.slice(0..whole.len() - 1));
    assert_eq!((run.batches.len(), run.err), (2, None));
}

#[test]
fn reading_stops_at_the_first_refusal() {
    let good = RecordBatch::serialize(0, sample_records(), Compression::Plain, 1, 0, 0, 0, 0);
    let mut bad = good.to_vec();
    bad[16] = 1;
    let mut zstd = RecordBatch::serialize(0, sample_records(), Compression::Zstd, 1, 0, 0, 0, 0)
        .to_vec();
    zstd[61] ^= 0xff;
    let all = [good.to_vec(), bad, good.to_vec()].concat();
    let run = read_run(Bytes::from(all));
    assert_eq!(run.batches.len(), 1);
    assert_eq!(run.err, Some(DecodeError::Magic { magic: 1 }));
    let run = read_run(Bytes::from(zstd));
    assert_eq!(run.batches.len(), 0);
    assert_eq!(run.err, Some(DecodeError::Decompression { code: 4 }));
    let run = read_run(Bytes::new());
    assert_eq!((run.batches.len(), run.err), (0, None));
}

#[test]
fn every_algorithm_comes_back() {
    for comp in [Compression::Lz4, Compression::Zstd] {
        let bytes = RecordBatch::serialize(5, sample_records(), comp, 1, 2, 3, 4, 6);
        let parsed = RecordBatch::parse(bytes).unwrap();
        assert_eq!(parsed.compression(), comp);
        assert_eq!(parsed.base_offset, 5);
        assert_eq!(parsed.last_offset(), 6);
        assert_eq!(parsed.base_timestamp, 1);
        assert_eq!(parsed.producer_id, 2);
        assert_eq!(parsed.producer_epoch, 3);
        assert_eq!(parsed.base_sequence, 4);
        assert_eq!(parsed.partition_leader_epoch, 6);
        assert_eq!(parsed.records[0].key.as_ref().unwrap(), "k1");
        assert_eq!(parsed.records[1].headers[0].1.as_ref().unwrap(), "v");
    }
}

#[test]
fn codecs_change_and_restore() {
    let data = vec![7u8; 5000];
    for comp in [
        Compression::Gzip,
        Compression::Snappy,
        Compression::Lz4,
        Compression::Zstd,
    ] {
        let packed = compress(comp, &data);
        assert_ne!(packed, data);
        assert!(packed.len() < data.len());
        assert_eq!(decompress(comp, &packed).unwrap(), data);
    }
    assert_eq!(compress(Compression::Plain, &data), data);
    assert_eq!(decompress(Compression::Plain, &data).unwrap(), data);
}

#[test]
fn gzip_starts_with_its_magic() {
    assert_eq!(compress(Compression::Gzip, b"abc")[0..2], [0x1f, 0x8b]);
    assert_eq!(compress(Compression::Zstd, b"abc")[0..4], [0x28, 0xb5, 0x2f, 0xfd]);
}

#[test]
fn garbage_does_not_decompress() {
    for comp in [
        Compression::Gzip,
        Compression::Snappy,
        Compression::Lz4,
        Compression::Zstd,
    ] {
        let r = decompress(comp, &[0xff; 20]);
        assert!(matches!(
            r,
            Err(Error::Decode(DecodeError::Decompression { code })) if code == comp.code()
        ));
    }
}

#[test]
fn codes_of_algorithms() {
    for code in 0i8..5 {
        assert_eq!(Compression::from_code(code).unwrap().code(), code);
    }
    assert!(matches!(
        Compression::from_code(5),
        Err(Error::Decode(DecodeError::UnknownCompression { code: 5 }))
    ));
}

#[test]
fn layout_of_a_batch() {
    let bytes = RecordBatch::serialize(9, vec![], Compression::Plain, 0, -1, -1, -1, 0);
    assert_eq!(bytes.len(), 61);
    assert_eq!(bytes[0..8], 9i64.to_be_bytes());
    assert_eq!(bytes[8..12], 49i32.to_be_bytes());
    assert_eq!(bytes[16], 2);
    assert_eq!(bytes[17..21], crc32fast::hash(&bytes[21..]).to_be_bytes());
    assert_eq!(bytes[57..61], 0i32.to_be_bytes());
}

#[test]
fn crc_of_a_batch() {
    let bytes = RecordBatch::serialize(0, sample_records(), Compression::Plain, 0, 0, 0, 0, 0);
    assert!(RecordBatch::parse(bytes.clone()).unwrap().crc_mismatch().is_none());
    let mut bad = bytes.to_vec();
    bad[17] ^= 1;
    let parsed = RecordBatch::parse(Bytes::from(bad.clone())).unwrap();
    let (stored, actual) = parsed.crc_mismatch().unwrap();
    assert_ne!(stored, actual);
    assert_eq!(actual, crc32fast::hash(&bytes[21..]));
}

#[test]
fn a_wrong_checksum_changes_nothing() {
    for c in [Compression::Plain, Compression::Gzip, Compression::Zstd] {
        let good = RecordBatch::serialize(7, sample_records(), c, 50, 3, 1, 9, 0);
        let mut other = good.to_vec();
        for at in 17..21 {
            other[at] = !other[at];
        }
        let a = RecordBatch::parse(good).unwrap();
        let b = RecordBatch::parse(Bytes::from(other)).unwrap();
        assert_eq!(
            (a.base_offset, a.attributes, a.base_timestamp, a.max_timestamp),
            (b.base_offset, b.attributes, b.base_timestamp, b.max_timestamp)
        );
        assert_eq!(
            (a.producer_id, a.producer_epoch, a.base_sequence, a.count()),
            (b.producer_id, b.producer_epoch, b.base_sequence, b.count())
        );
        assert_eq!(a.records.len(), 2);
        for (x, y) in a.records.iter().zip(&b.records) {
            assert_eq!((&x.key, &x.value), (&y.key, &y.value));
            assert_eq!(x.timestamp_delta, y.timestamp_delta);
        }
    }
}

#[test]
fn every_other_format_is_refused() {
    let good = RecordBatch::serialize(0, sample_records(), Compression::Plain, 0, 0, 0, 0, 0);
    for m in 0..=255u8 {
        let mut raw = good.to_vec();
        raw[16] = m;
        match RecordBatch::parse(Bytes::from(raw)) {
            Ok(_) => assert_eq!(m, 2),
            Err(Error::Decode(DecodeError::Magic { magic })) => {
                assert_ne!(m, 2);
                assert_eq!(magic, m as i8);
            }
            Err(e) => panic!("{e:?}"),
        }
    }
}

#[test]
fn compressed_data_is_not_much_longer() {
    let mut x: u32 = 1;
    for n in [0usize, 1, 100, 70_000, 300_000] {
        let mut data = vec![];
        for _ in 0..n {
            x = x.wrapping_mul(1_664_525).wrapping_add(1_013_904_223);
            data.push((x >> 24) as u8);
        }
        assert!(compress(Compression::Snappy, &data).len() <= 32 + n + n / 6);
        assert!(compress(Compression::Lz4, &data).len() <= 27 + n + 4 * (n / 0x10000));
        assert_eq!(compress(Compression::Plain, &data).len(), n);
    }
}

#[test]
fn what_is_no_batch() {
    let bytes = RecordBatch::serialize(0, sample_records(), Compression::Plain, 0, 0, 0, 0, 0);
    let mut other = bytes.to_vec();
    other[16] = 1;
    assert!(matches!(
        RecordBatch::parse(Bytes::from(other)),
        Err(Error::Decode(DecodeError::Magic { magic: 1 }))
    ));
    assert!(matches!(
        RecordBatch::parse(bytes.slice(0..10)),
        Err(Error::Decode(DecodeError::Short { .. }))
    ));
    let mut long = bytes.to_vec();
    long[11] = long[11].wrapping_add(1);
    assert!(RecordBatch::parse(Bytes::from(long)).is_err());
    let mut r = RecordBatchReader::new(bytes.slice(0..bytes.len() - 1));
    assert!(r.next_batch().unwrap().is_none());
}

#[test]
fn flags_of_a_batch() {
    let bytes = RecordBatch::serialize(0, sample_records(), Compression::Zstd, 0, 0, 0, 0, 0);
    let batch = RecordBatch::parse(bytes).unwrap();
    assert_eq!(batch.attributes & 7, 4);
    assert!(!batch.is_control());
    assert_eq!(batch.count(), 2);
}

#[test]
fn batches_that_do_not_fit_are_not_written() {
    let b = RecordBatch::try_serialize(0, &sample_records(), Compression::Snappy, 0, 0, 0, 0, 0);
    let parsed = RecordBatch::parse(b.unwrap()).unwrap();
    assert_eq!(parsed.records[1].value.as_ref().unwrap(), "value2");
}

#[test]
fn test_compaction_keeps_latest() {
    let records = vec![
        Record {
            attributes: 0,
            timestamp_delta: 0,
            offset_delta: 0,
            key: Some(Bytes::from("a")),
            value: Some(Bytes::from("1")),
            headers: vec![],
        },
        Record {
            attributes: 0,
            timestamp_delta: 0,
            offset_delta: 1,
            key: Some(Bytes::from("b")),
            value: Some(Bytes::from("2")),
            headers: vec![],
        },
        Record {
            attributes: 0,
            timestamp_delta: 0,
            offset_delta: 2,
            key: Some(Bytes::from("a")),
            value: Some(Bytes::from("3")),
            headers: vec![],
        },
    ];
    let raw = RecordBatch::serialize(0, records, Compression::Plain, 100, 0, 0, 0, 0);
    let compacted = LogCompactor::compact_batches(raw).unwrap();
    // a -> 3, b -> 2
    let vals: Vec<Option<Bytes>> = compacted.iter().map(|r| r.value.clone()).collect();
    assert!(vals.contains(&Some(Bytes::from("3"))));
    assert!(vals.contains(&Some(Bytes::from("2"))));
    assert!(!vals.contains(&Some(Bytes::from("1"))));
}

#[test]
fn compaction_keeps_one_record_per_key_and_those_without() {
    let record = |key: Option<&'static str>, value: &'static str| Record {
        attributes: 0,
        timestamp_delta: 0,
        offset_delta: 0,
        key: key.map(Bytes::from),
        value: Some(Bytes::from(value)),
        headers: vec![],
    };
    let first = vec![record(Some("a"), "1"), record(None, "x"), record(Some("b"), "2")];
    let second = vec![record(Some("a"), "3"), record(None, "y")];
    let mut all = BytesMut::new();
    all.put_slice(&RecordBatch::serialize(0, first, Compression::Gzip, 0, 0, 0, 0, 0));
    all.put_slice(&RecordBatch::serialize(3, second, Compression::Plain, 0, 0, 0, 0, 0));
    let _ = CompactWorker::new();
    let kept = LogCompactor::compact_batches(all.freeze()).unwrap();
    let count = |v: &str| kept.iter().filter(|r| r.value.as_ref().unwrap() == v).count();
    assert_eq!(kept.len(), 4);
    assert_eq!([count("1"), count("2"), count("3"), count("x"), count("y")], [0, 1, 1, 1, 1]);
}

#[test]
fn compaction_of_garbage_is_an_error() {
    let mut raw =
        RecordBatch::serialize(0, sample_records(), Compression::Plain, 0, 0, 0, 0, 0).to_vec();
    raw[16] = 0;
    assert!(LogCompactor::compact_batches(Bytes::from(raw)).is_err());
}
