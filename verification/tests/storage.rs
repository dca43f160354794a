use std::sync::Arc;

use bytes::Bytes;
use rivine::config::BrokerConfig;
use rivine::protocol::compression::Compression;
use rivine::protocol::primitive::DecodeError;
use rivine::protocol::recordbatch::{Record, RecordBatch};
use rivine::storage::index::{OffsetIndex, TimeIndex};
use rivine::storage::log::{rebase_batch, segment_base, segment_bases, SegmentFiles};
use rivine::storage::scan::{last_batch_offset, select_batches};
use rivine::storage::segment::{SegmentWrite, StorageError};
use rivine::storage::{LogSegment, PartitionLog};

#[test]
fn test_offset_index_binary_search() {
    let mut idx = OffsetIndex::open(&[]);
    for (rel, pos) in [(0u32, 0u32), (10, 100), (20, 200), (30, 300)] {
        idx.append(rel as i32, pos);
    }
    assert_eq!(idx.lookup(5).unwrap(), 0);
    assert_eq!(idx.lookup(15).unwrap(), 100);
    assert_eq!(idx.lookup(30).unwrap(), 300);
    assert_eq!(idx.lookup(35).unwrap(), 300);
}

#[test]
fn offset_index_file() {
    let mut idx = OffsetIndex::open(&[]);
    assert!(idx.is_empty());
    assert_eq!(idx.last_position(), 0);
    assert_eq!(idx.lookup(3), None);
    let mut file = idx.append(1, 2).to_vec();
    assert_eq!(file, vec![0, 0, 0, 1, 0, 0, 0, 2]);
    file.extend_from_slice(&idx.append(5, 900));
    file.extend_from_slice(&idx.append(7, 1800));
    let again = OffsetIndex::open(&file);
    assert_eq!(again.len(), 3);
    assert_eq!(again.last_position(), 1800);
    assert_eq!(again.lookup(0), None);
    assert_eq!(again.lookup(6), Some(900));
    // What is left of a torn entry is not read.
    assert_eq!(OffsetIndex::open(&file[..20]).len(), 2);
}

#[test]
fn offset_index_is_truncated() {
    let mut idx = OffsetIndex::open(&[]);
    idx.append(0, 0);
    idx.append(5, 500);
    idx.append(9, 900);
    let file = idx.truncate_to(500);
    assert_eq!(idx.lookup(100), OffsetIndex::open(&file).lookup(100));
    assert!(idx.last_position() <= 500);
}

#[test]
fn time_index_file() {
    let mut idx = TimeIndex::open(&[]);
    let mut file = idx.append(1000, 1).to_vec();
    assert_eq!(file, vec![0, 0, 0, 0, 0, 0, 3, 232, 0, 0, 0, 1]);
    file.extend_from_slice(&idx.append(2000, 5));
    let again = TimeIndex::open(&file);
    assert_eq!(again.lookup(999), idx.lookup(999));
    assert_eq!(again.lookup(1000), Some(1));
    assert_eq!(again.lookup(1500), Some(5));
    assert_eq!(again.lookup(2500), None);
}

fn record(value: &str) -> Record {
    Record {
        attributes: 0,
        timestamp_delta: 0,
        offset_delta: 0,
        key: None,
        value: Some(Bytes::copy_from_slice(value.as_bytes())),
        headers: vec![],
    }
}

fn batch(base: i64, values: &[&str]) -> Bytes {
    let records = values.iter().map(|v| record(v)).collect();
    RecordBatch::serialize(base, records, Compression::Plain, 1000, 0, 0, 0, 0)
}

fn config() -> BrokerConfig {
    BrokerConfig::default()
}

/// The files of a log, as its writes leave them.
fn files(writes: &[SegmentWrite]) -> Vec<SegmentFiles> {
    let mut out: Vec<SegmentFiles> = Vec::new();
    for w in writes {
        if out.last().map(|f| f.base_offset) != Some(w.segment) {
            out.push(SegmentFiles {
                base_offset: w.segment,
                log: vec![],
                index: vec![],
                time_index: vec![],
            });
        }
        let f = out.last_mut().unwrap();
        f.log.extend_from_slice(&w.log);
        if let Some((i, t)) = &w.entries {
            f.index.extend_from_slice(i);
            f.time_index.extend_from_slice(t);
        }
    }
    out
}

fn read(log: &PartitionLog, files: &[SegmentFiles], offset: i64, max: usize) -> Bytes {
    match log.read_position(offset) {
        None => Bytes::new(),
        Some((base, pos)) => {
            let f = files.iter().find(|f| f.base_offset == base).unwrap();
            log.read(offset, max, &f.log[pos as usize..])
        }
    }
}

fn values(run: &Bytes) -> Vec<(i64, String)> {
    let mut out = Vec::new();
    let mut reader = rivine::protocol::RecordBatchReader::new(run.clone());
    while let Some((b, _)) = reader.next_batch().unwrap() {
        for (i, r) in b.records.iter().enumerate() {
            let v = String::from_utf8(r.value.as_ref().unwrap().to_vec()).unwrap();
            out.push((b.base_offset + i as i64, v));
        }
    }
    out
}

#[test]
fn segment_appends_and_reads() {
    let mut seg = LogSegment::open(0, &[], &[], &[], 1, 1 << 20, 1 << 40, 5);
    assert_eq!(seg.log_name(), "00000000000000000000.log");
    assert_eq!(seg.index_name(), "00000000000000000000.index");
    assert_eq!(seg.timeindex_name(), "00000000000000000000.timeindex");
    let b = RecordBatch::parse(batch(0, &["a", "b"])).unwrap();
    let (result, write) = seg.append(&b, 77).unwrap();
    assert_eq!((result.base_offset, result.last_offset), (0, 1));
    assert_eq!(result.log_append_time_ms, 77);
    assert_eq!(write.segment, 0);
    assert_eq!(seg.size_in_bytes as usize, write.log.len());
    assert_eq!(seg.max_offset, 1);
    let pos = seg.read_position(0).unwrap() as usize;
    let data = seg.read(0, 1 << 20, &write.log[pos..]);
    assert_eq!(data, write.log);
    assert!(!seg.should_roll(6));
    seg.flush_log();
    seg.close();
    assert!(matches!(seg.append(&b, 78), Err(StorageError::Closed)));
}

#[test]
fn offsets_by_time() {
    let mut seg = LogSegment::open(10, &[], &[], &[], 1, 1 << 20, 1 << 40, 5);
    assert_eq!(seg.offset_for_timestamp(0), None);
    let b = RecordBatch::parse(batch(10, &["a"])).unwrap();
    seg.append(&b, 0).unwrap();
    let b = RecordBatch::parse(batch(11, &["b"])).unwrap();
    seg.append(&b, 0).unwrap();
    assert_eq!(seg.offset_for_timestamp(1000), Some(10));
    assert_eq!(seg.offset_for_timestamp(1001), None);
}

#[test]
fn segment_rolls_when_it_is_full_or_old() {
    let mut seg = LogSegment::open(0, &[], &[], &[], 4096, 10, 1000, 0);
    assert!(!seg.should_roll(0));
    let b = RecordBatch::parse(batch(0, &["a"])).unwrap();
    seg.append(&b, 0).unwrap();
    assert!(seg.should_roll(0));
    let old = LogSegment::open(0, &[], &[], &[], 4096, 1 << 20, 1000, 0);
    assert!(!old.should_roll(999));
    assert!(old.should_roll(1000));
}

#[test]
fn segment_outlives_its_time() {
    let seg = LogSegment::open(0, &[], &[], &[], 4096, 10, 1000, 0);
    assert!(!seg.is_expired(0, 3_600_000, 1));
    assert!(seg.is_expired(0, 3_600_001, 1));
    assert!(seg.is_expired(0, 1, 0));
    assert!(!seg.is_expired(1, 1, 0));
}

#[test]
fn log_appends_consecutive_offsets() {
    let mut log = PartitionLog::open("t", 0, &vec![], Arc::new(config()), 1).unwrap();
    assert_eq!(log.segment_count(), 1);
    assert_eq!((log.leo(), log.log_start(), log.high_watermark()), (0, 0, 0));
    let mut writes = Vec::new();
    // The offsets that a producer gives do not matter.
    let r = log
        .append_at(&vec![batch(7, &["a", "b"]), batch(100, &["c"])], 10, &mut writes)
        .unwrap();
    assert_eq!((r[0].base_offset, r[0].last_offset), (0, 1));
    assert_eq!((r[1].base_offset, r[1].last_offset), (2, 2));
    assert_eq!(log.next_offset(), 3);
    assert_eq!(log.bounds(), (3, 0));
    let fs = files(&writes);
    assert_eq!(
        values(&read(&log, &fs, 0, 1 << 20)),
        vec![(0, "a".to_string()), (1, "b".to_string()), (2, "c".to_string())]
    );
    assert_eq!(values(&read(&log, &fs, 2, 1 << 20)), vec![(2, "c".to_string())]);
    assert!(read(&log, &fs, 3, 1 << 20).is_empty());
    log.flush();
}

#[test]
fn log_rolls_and_reads_every_segment() {
    let mut cfg = config();
    cfg.log_segment_bytes = 1;
    let mut log = PartitionLog::open("t", 0, &vec![], Arc::new(cfg), 1).unwrap();
    let mut writes = Vec::new();
    for i in 0..5 {
        let v = format!("v{i}");
        log.append_at(&vec![batch(0, &[v.as_str()])], 10, &mut writes).unwrap();
    }
    let fs = files(&writes);
    assert_eq!(log.segment_count(), 5);
    assert_eq!(fs.iter().map(|f| f.base_offset).collect::<Vec<_>>(), vec![0, 1, 2, 3, 4]);
    for i in 0..5i64 {
        let got = values(&read(&log, &fs, i, 1 << 20));
        assert_eq!(got[0], (i, format!("v{i}")));
    }
}

#[test]
fn later_appends_leave_earlier_batches_alone() {
    let mut cfg = config();
    cfg.log_segment_bytes = 150;
    let mut log = PartitionLog::open("t", 0, &vec![], Arc::new(cfg), 1).unwrap();
    let mut writes = Vec::new();
    for i in 0..20i64 {
        let v = format!("v{i}");
        log.append_at(&vec![batch(0, &[v.as_str()])], 10, &mut writes).unwrap();
        let fs = files(&writes);
        for j in 0..=i {
            let got = values(&read(&log, &fs, j, 1 << 20));
            assert_eq!(got[0], (j, format!("v{j}")));
        }
    }
}

#[test]
fn offsets_of_appends_have_no_gap() {
    let mut log = PartitionLog::open("t", 0, &vec![], Arc::new(config()), 1).unwrap();
    let mut writes = Vec::new();
    let mut next = 0i64;
    for values in [vec!["a"], vec!["b", "c", "d"], vec!["e", "f"]] {
        // Where the batches say that they begin does not matter.
        let run = [batch(77, &values).to_vec(), batch(3, &["z"]).to_vec()].concat();
        let results = log.append_at(&vec![Bytes::from(run)], 10, &mut writes).unwrap();
        assert_eq!(results.len(), 2);
        for (r, n) in results.iter().zip([values.len() as i64, 1]) {
            assert_eq!((r.base_offset, r.last_offset), (next, next + n - 1));
            next += n;
        }
    }
    assert_eq!(log.leo(), 9);
    assert_eq!(log.high_watermark(), 9);
}

#[test]
fn log_is_recovered() {
    let mut cfg = config();
    cfg.log_segment_bytes = 200;
    cfg.index_interval_bytes = 1;
    let cfg = Arc::new(cfg);
    let mut log = PartitionLog::open("t", 3, &vec![], cfg.clone(), 1).unwrap();
    let mut writes = Vec::new();
    for i in 0..9 {
        let v = format!("v{i}");
        log.append_at(&vec![batch(0, &[v.as_str(), "x"])], 10, &mut writes).unwrap();
    }
    let fs = files(&writes);
    assert!(fs.len() > 1);
    let again = PartitionLog::open("t", 3, &fs, cfg, 99).unwrap();
    assert_eq!(again.leo(), 18);
    assert_eq!(again.segment_count(), log.segment_count());
    for i in 0..9i64 {
        assert_eq!(values(&read(&again, &fs, 2 * i, 1 << 20))[0], (2 * i, format!("v{i}")));
    }
}

#[test]
fn log_refuses_what_is_no_batch() {
    let mut log = PartitionLog::open("t", 0, &vec![], Arc::new(config()), 1).unwrap();
    let mut bad = batch(0, &["a"]).to_vec();
    bad[16] = 1;
    let mut writes = Vec::new();
    let r = log.append_at(&vec![batch(0, &["ok"]), Bytes::from(bad)], 1, &mut writes);
    assert_eq!(r, Err(StorageError::Decode(DecodeError::Magic { magic: 1 })));
    // What came before it is in the log.
    assert_eq!(log.leo(), 1);
    assert_eq!(writes.len(), 1);
}

#[test]
fn log_reads_at_most_what_is_asked() {
    let mut log = PartitionLog::open("t", 0, &vec![], Arc::new(config()), 1).unwrap();
    let mut writes = Vec::new();
    log.append_at(&vec![batch(0, &["a"]), batch(0, &["b"])], 1, &mut writes).unwrap();
    let fs = files(&writes);
    let one = batch(0, &["a"]).len();
    assert_eq!(values(&read(&log, &fs, 0, one)), vec![(0, "a".to_string())]);
    assert_eq!(values(&read(&log, &fs, 0, 2 * one)).len(), 2);
}

#[test]
fn retention_gives_up_old_segments() {
    let mut cfg = config();
    cfg.log_segment_bytes = 1;
    cfg.log_retention_hours = 1;
    let mut log = PartitionLog::open("t", 0, &vec![], Arc::new(cfg), 0).unwrap();
    let mut writes = Vec::new();
    for _ in 0..3 {
        log.append_at(&vec![batch(0, &["v"])], 0, &mut writes).unwrap();
    }
    assert_eq!(log.segment_count(), 3);
    let gone = log.cleanup_retention(&vec![0, 0, 0], 3_600_000);
    assert!(gone.is_empty());
    let gone = log.cleanup_retention(&vec![0, 0, 0], 3_600_001);
    assert_eq!(gone, vec![0, 1]);
    assert_eq!(log.segment_count(), 1);
    assert_eq!(log.leo(), 3);
    assert_eq!(log.log_start(), 2);
}

#[test]
fn retention_by_size() {
    let mut cfg = config();
    cfg.log_segment_bytes = 1;
    cfg.log_retention_bytes = 10;
    cfg.log_retention_hours = -1;
    let mut log = PartitionLog::open("t", 0, &vec![], Arc::new(cfg), 0).unwrap();
    let mut writes = Vec::new();
    for _ in 0..3 {
        log.append_at(&vec![batch(0, &["v"])], 0, &mut writes).unwrap();
    }
    assert_eq!(log.cleanup_retention(&vec![0, 0, 0], 0), vec![0, 1]);
    assert_eq!(log.segment_count(), 1);
}

#[test]
fn names_of_segments() {
    assert_eq!(segment_base("00000000000000000042.log"), Some(42));
    assert_eq!(segment_base("00000000000000000042.index"), None);
    assert_eq!(segment_base("abc.log"), Some(0));
    let names = ["00000000000000000007.log", "x", "00000000000000000000.log"];
    let names = names.iter().map(|s| s.to_string()).collect();
    assert_eq!(segment_bases(&names), vec![0, 7]);
}

#[test]
fn offsets_come_to_an_end() {
    let fs = vec![SegmentFiles {
        base_offset: i64::MIN,
        log: vec![],
        index: vec![],
        time_index: vec![],
    }];
    let r = PartitionLog::open("t", 0, &fs, Arc::new(config()), 1);
    assert!(matches!(r, Err(StorageError::OffsetOverflow)));
}

#[test]
fn batches_are_rebased() {
    let b = RecordBatch::parse(batch(5, &["a", "b"])).unwrap();
    let r = rebase_batch(&b, 40).unwrap();
    assert_eq!(r.base_offset, 40);
    assert_eq!(r.records.len(), 2);
    let again = RecordBatch::parse(r.raw.clone()).unwrap();
    assert_eq!(again.base_offset, 40);
    assert!(again.crc_mismatch().is_none());
}

#[test]
fn scans_over_batches() {
    let mut run = batch(0, &["a"]).to_vec();
    run.extend_from_slice(&batch(1, &["b", "c"]));
    let one = batch(0, &["a"]).len();
    assert_eq!(select_batches(&run, 1, 1 << 20).to_vec(), run[one..].to_vec());
    assert_eq!(select_batches(&run, 0, one).to_vec(), run[..one].to_vec());
    assert_eq!(last_batch_offset(&run), Some(2));
    assert_eq!(last_batch_offset(&run[..one - 1]), None);
}
