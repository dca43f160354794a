use std::collections::HashMap;
use std::sync::Arc;

use bytes::Bytes;
use rivine::config::BrokerConfig;
use rivine::group::GroupCoordinator;
use rivine::internals::InternalTopics;
use rivine::protocol::compression::Compression;
use rivine::protocol::error_codes;
use rivine::protocol::messages::groups::ListGroupsRequest;
use rivine::protocol::messages::produce::{
    ProduceResponse, ProduceResponsePartition, ProduceResponseTopic,
};
use rivine::protocol::recordbatch::{Record, RecordBatch, RecordBatchReader};
use rivine::protocol::{Decoder, Encoder};
use rivine::server::handler::{answer_produce, Reply};
use rivine::server::metadata::parse_topic_partition;
use rivine::server::records::mark_failed;
use rivine::server::request::{framed, read_request, request_len, Request};
use rivine::server::state::{PartitionWrite, ProducerIds};
use rivine::server::{MetadataManager, RequestHandler};
use rivine::storage::log::SegmentFiles;
use rivine::SUPPORTED_API_KEYS;

/// A broker whose files are in memory.
struct TestBroker {
    handler: RequestHandler,
    ids: ProducerIds,
    disk: HashMap<(String, i32), Vec<SegmentFiles>>,
    deleted: Vec<(String, i32)>,
    now: i64,
}

impl TestBroker {
    fn new(config: BrokerConfig) -> Self {
        let metadata = MetadataManager::new(Arc::new(config));
        let handler = RequestHandler::new(metadata, GroupCoordinator::new());
        let mut b = TestBroker {
            handler,
            ids: ProducerIds::new(),
            disk: HashMap::new(),
            deleted: vec![],
            now: 1_700_000_000_000,
        };
        let (offsets, cluster) = InternalTopics::new().ensure_created(&mut b.handler.metadata);
        for p in offsets {
            b.open("__consumer_offsets", p);
        }
        for p in cluster {
            b.open("__cluster_metadata", p);
        }
        b
    }

    fn open(&mut self, topic: &str, partition: i32) {
        let files = self.disk.entry((topic.to_string(), partition)).or_default();
        self.handler
            .metadata
            .open_partition(topic, partition, files, self.now)
            .unwrap();
    }

    fn create(&mut self, topic: &str, partitions: i32) {
        let wants = vec![(topic.to_string(), partitions)];
        for (t, p) in self.handler.create_all(&wants) {
            self.open(&t, p);
        }
    }

    fn apply(&mut self, writes: Vec<PartitionWrite>) {
        for w in writes {
            let segments = self.disk.get_mut(&(w.topic, w.partition)).unwrap();
            if segments.last().map(|f| f.base_offset) != Some(w.write.segment) {
                segments.push(SegmentFiles {
                    base_offset: w.write.segment,
                    log: vec![],
                    index: vec![],
                    time_index: vec![],
                });
            }
            let f = segments.last_mut().unwrap();
            f.log.extend_from_slice(&w.write.log);
            if let Some((i, t)) = &w.write.entries {
                f.index.extend_from_slice(i);
                f.time_index.extend_from_slice(t);
            }
        }
    }

    fn serve(&mut self, body: &[u8], time_is_up: bool) -> Reply {
        let body = Bytes::copy_from_slice(body);
        let mut tails: Vec<Vec<Bytes>> = vec![];
        if let Some((_, req)) = read_request(body.clone()) {
            let wants = self.handler.wants(&req);
            for (t, p) in self.handler.create_all(&wants) {
                self.open(&t, p);
            }
            if let Request::Fetch(f) = &req {
                let positions = self.handler.fetch_positions(f);
                for (t, ps) in f.topics.iter().zip(positions) {
                    let mut row = vec![];
                    for (p, pos) in t.partitions.iter().zip(ps) {
                        row.push(match pos {
                            None => Bytes::new(),
                            Some((base, at)) => {
                                let key = (t.topic.clone(), p.partition_index);
                                let file = self.disk[&key]
                                    .iter()
                                    .find(|s| s.base_offset == base)
                                    .unwrap();
                                Bytes::copy_from_slice(&file.log[at as usize..])
                            }
                        });
                    }
                    tails.push(row);
                }
            }
        }
        let mut writes = vec![];
        let mut gone = vec![];
        let reply = self.handler.process(
            body,
            &tails,
            self.now,
            0,
            time_is_up,
            &mut self.ids,
            &mut writes,
            &mut gone,
        );
        self.apply(writes);
        for k in gone {
            self.disk.remove(&k);
            self.deleted.push(k);
        }
        reply
    }

    /// The answer to a request, without the number of the request.
    fn send(&mut self, correlation_id: i32, body: Encoder) -> Decoder {
        match self.serve(&body.into_bytes(), true) {
            Reply::Body(b) => {
                assert_eq!(b[0..4], correlation_id.to_be_bytes());
                Decoder::new(b.slice(4..))
            }
            r => panic!("no answer: {r:?}"),
        }
    }
}

fn broker() -> TestBroker {
    TestBroker::new(BrokerConfig::default())
}

fn request(api_key: i16, api_version: i16, correlation_id: i32) -> Encoder {
    let mut e = Encoder::new();
    e.put_i16(api_key);
    e.put_i16(api_version);
    e.put_i32(correlation_id);
    e.put_i16(-1);
    e
}

fn produce_request(id: i32, acks: i16, topic: &str, partition: i32, value: &str) -> Encoder {
    let record = Record {
        attributes: 0,
        timestamp_delta: 0,
        offset_delta: 0,
        key: Some(Bytes::from("k")),
        value: Some(Bytes::copy_from_slice(value.as_bytes())),
        headers: vec![],
    };
    let batch =
        RecordBatch::serialize(0, vec![record], Compression::Plain, 1_700_000_000_000, 0, 0, 0, 0);
    let mut e = request(0, 3, id);
    e.put_nullable_string(None);
    e.put_i16(acks);
    e.put_i32(1000);
    e.put_i32(1);
    e.put_string(topic);
    e.put_i32(1);
    e.put_i32(partition);
    e.put_i32(batch.len() as i32);
    e.put_bytes(&batch);
    e
}

fn fetch_request(id: i32, topic: &str, partition: i32, offset: i64) -> Encoder {
    let mut e = request(1, 4, id);
    e.put_i32(-1);
    e.put_i32(100);
    e.put_i32(1);
    e.put_i32(100 * 1024 * 1024);
    e.put_i8(0);
    e.put_i32(1);
    e.put_string(topic);
    e.put_i32(1);
    e.put_i32(partition);
    e.put_i64(offset);
    e.put_i32(1024 * 1024);
    e
}

/// The error code and the base offset that a produce request is answered.
fn produced(d: &mut Decoder) -> (i16, i64) {
    assert_eq!(d.get_i32().unwrap(), 1);
    d.get_string().unwrap();
    assert_eq!(d.get_i32().unwrap(), 1);
    d.get_i32().unwrap();
    (d.get_i16().unwrap(), d.get_i64().unwrap())
}

/// The error code, the high watermark and the values that a fetch is answered.
fn fetched(d: &mut Decoder) -> (i16, i64, Vec<String>) {
    assert_eq!(d.get_i32().unwrap(), 0);
    assert_eq!(d.get_i32().unwrap(), 1);
    d.get_string().unwrap();
    assert_eq!(d.get_i32().unwrap(), 1);
    d.get_i32().unwrap();
    let code = d.get_i16().unwrap();
    let hw = d.get_i64().unwrap();
    d.get_i64().unwrap();
    assert_eq!(d.get_i32().unwrap(), 0);
    let n = d.get_i32().unwrap();
    let mut reader = RecordBatchReader::new(d.get_bytes(n as usize).unwrap());
    let mut values = vec![];
    while let Some((b, _)) = reader.next_batch().unwrap() {
        for r in b.records {
            values.push(String::from_utf8(r.value.unwrap().to_vec()).unwrap());
        }
    }
    (code, hw, values)
}

#[test]
fn api_versions() {
    let mut b = broker();
    let mut e = request(18, 3, 42);
    e.put_compact_string("test-client");
    e.put_compact_string("test-client");
    e.put_unsigned_varint(0);
    let mut d = b.send(42, e);
    assert_eq!(d.get_i16().unwrap(), 0);

    let mut d = b.send(43, request(18, 0, 43));
    assert_eq!(d.get_i16().unwrap(), 0);
    assert_eq!(d.get_i32().unwrap(), 17);
    assert_eq!(
        (d.get_i16().unwrap(), d.get_i16().unwrap(), d.get_i16().unwrap()),
        (0, 0, 3)
    );
}

#[test]
fn produce_and_fetch() {
    let mut b = broker();
    b.create("test-topic", 1);
    let mut d = b.send(1, produce_request(1, 1, "test-topic", 0, "hello-rivine"));
    assert_eq!(produced(&mut d), (0, 0));
    let mut d = b.send(2, fetch_request(2, "test-topic", 0, 0));
    assert_eq!(fetched(&mut d), (0, 1, vec!["hello-rivine".to_string()]));
}

#[test]
fn every_message_comes_back_in_order() {
    let mut b = broker();
    for i in 0..50i64 {
        let value = format!("m-{i}");
        let mut d = b.send(7, produce_request(7, -1, "t", 0, &value));
        assert_eq!(produced(&mut d), (0, i));
    }
    let mut d = b.send(8, fetch_request(8, "t", 0, 0));
    let (code, hw, values) = fetched(&mut d);
    assert_eq!((code, hw), (0, 50));
    let want: Vec<String> = (0..50).map(|i| format!("m-{i}")).collect();
    assert_eq!(values, want);
}

#[test]
fn produce_creates_topics() {
    let mut b = broker();
    assert!(b.handler.metadata.get_topic("new").is_none());
    let mut d = b.send(1, produce_request(1, 1, "new", 0, "v"));
    assert_eq!(produced(&mut d), (0, 0));
    assert_eq!(b.handler.metadata.partitions_of("new"), 1);
    // A partition that a new topic does not get.
    let mut d = b.send(2, produce_request(2, 1, "new", 5, "v"));
    assert_eq!(produced(&mut d), (error_codes::UNKNOWN_TOPIC_OR_PARTITION, -1));
}

#[test]
fn acknowledgements() {
    let mut b = broker();
    let mut d = b.send(1, produce_request(1, 3, "t", 0, "v"));
    assert_eq!(produced(&mut d), (error_codes::INVALID_REQUIRED_ACKS, -1));
    assert!(b.handler.metadata.get_topic("t").is_none());
    let r = b.serve(&produce_request(2, 0, "t", 0, "v").into_bytes(), true);
    assert!(matches!(r, Reply::Silence));
    assert_eq!(b.handler.metadata.partition_leo_sync("t", 0), Some(1));
}

#[test]
fn fetches_wait_for_records() {
    let mut b = broker();
    b.create("t", 1);
    let body = fetch_request(1, "t", 0, 0).into_bytes();
    assert!(matches!(b.serve(&body, false), Reply::Later));
    let mut d = b.send(1, fetch_request(1, "t", 0, 0));
    assert_eq!(fetched(&mut d), (0, 0, vec![]));
    b.send(2, produce_request(2, 1, "t", 0, "v"));
    assert!(matches!(b.serve(&body, false), Reply::Body(_)));
}

#[test]
fn fetches_that_fail() {
    let mut b = broker();
    b.create("t", 1);
    let body = fetch_request(1, "t", 0, 9).into_bytes();
    assert!(matches!(b.serve(&body, false), Reply::Body(_)));
    let mut d = b.send(1, fetch_request(1, "t", 0, 9));
    assert_eq!(fetched(&mut d).0, error_codes::OFFSET_OUT_OF_RANGE);
    let mut d = b.send(1, fetch_request(1, "nowhere", 0, 0));
    assert_eq!(fetched(&mut d).0, error_codes::UNKNOWN_TOPIC_OR_PARTITION);
}

#[test]
fn fetches_say_where_the_log_starts() {
    let start = |b: &mut TestBroker, offset: i64| {
        let mut e = request(1, 5, 1);
        e.put_i32(-1);
        e.put_i32(100);
        e.put_i32(1);
        e.put_i32(100 * 1024 * 1024);
        e.put_i8(0);
        e.put_i32(1);
        e.put_string("t");
        e.put_i32(1);
        e.put_i32(0);
        e.put_i64(offset);
        e.put_i64(-1);
        e.put_i32(1024 * 1024);
        let mut d = b.send(1, e);
        d.get_i32().unwrap();
        d.get_i32().unwrap();
        d.get_string().unwrap();
        d.get_i32().unwrap();
        d.get_i32().unwrap();
        let code = d.get_i16().unwrap();
        let hw = d.get_i64().unwrap();
        assert_eq!(d.get_i64().unwrap(), hw);
        (code, hw, d.get_i64().unwrap())
    };
    let mut b = broker();
    b.create("t", 1);
    b.send(1, produce_request(1, 1, "t", 0, "v"));
    b.send(1, produce_request(1, 1, "t", 0, "w"));
    assert_eq!(start(&mut b, 0), (0, 2, 0));
    assert_eq!(start(&mut b, 9), (error_codes::OFFSET_OUT_OF_RANGE, 2, 0));
    // A log whose first segment does not start at zero.
    let mut b = broker();
    let first = SegmentFiles { base_offset: 5, log: vec![], index: vec![], time_index: vec![] };
    b.disk.insert(("t".to_string(), 0), vec![first]);
    b.open("t", 0);
    assert_eq!(b.handler.metadata.partition_log_start_sync("t", 0), Some(5));
    assert_eq!(start(&mut b, 9).2, 5);
}

#[test]
fn what_could_not_be_written_is_not_acknowledged() {
    let answer = |partition_index: i32, error_code: i16, base_offset: i64| {
        ProduceResponsePartition {
            partition_index,
            error_code,
            base_offset,
            log_append_time_ms: 8,
            log_start_offset: 0,
        }
    };
    let topic = |name: &str| ProduceResponseTopic {
        topic: name.to_string(),
        partitions: vec![answer(0, 0, 4), answer(1, 0, 6), answer(2, 21, -1)],
    };
    let mut resp =
        ProduceResponse { topics: vec![topic("a"), topic("b")], throttle_time_ms: 0 };
    mark_failed(&mut resp, &vec![("a".to_string(), 1), ("a".to_string(), 2)]);
    let found: Vec<(i32, i16, i64, i64, i64)> = resp
        .topics
        .iter()
        .flat_map(|t| &t.partitions)
        .map(|p| {
            (
                p.partition_index,
                p.error_code,
                p.base_offset,
                p.log_append_time_ms,
                p.log_start_offset,
            )
        })
        .collect();
    assert_eq!(
        found,
        vec![
            (0, 0, 4, 8, 0),
            (1, error_codes::UNKNOWN_TOPIC_OR_PARTITION, -1, -1, -1),
            (2, 21, -1, 8, 0),
            (0, 0, 4, 8, 0),
            (1, 0, 6, 8, 0),
            (2, 21, -1, 8, 0),
        ]
    );
    let (header, _) = read_request(produce_request(7, 1, "a", 0, "v").into_bytes()).unwrap();
    assert!(matches!(answer_produce(&header, 0, &resp), Reply::Silence));
    match answer_produce(&header, 1, &resp) {
        Reply::Body(b) => assert_eq!(b[0..4], 7i32.to_be_bytes()),
        r => panic!("no answer: {r:?}"),
    }
}

#[test]
fn a_restart_keeps_the_records() {
    let mut cfg = BrokerConfig::default();
    cfg.log_segment_bytes = 100;
    let mut b = TestBroker::new(cfg.clone());
    for i in 0..5 {
        let value = format!("m-{i}");
        b.send(1, produce_request(1, 1, "t", 0, &value));
    }
    let disk = b.disk;
    let mut b = TestBroker::new(cfg);
    b.disk = disk;
    b.open("t", 0);
    for i in 0..5i64 {
        let mut d = b.send(2, fetch_request(2, "t", 0, i));
        let (code, hw, values) = fetched(&mut d);
        assert_eq!((code, hw), (0, 5));
        assert_eq!(values[0], format!("m-{i}"));
    }
    let mut d = b.send(3, produce_request(3, 1, "t", 0, "next"));
    assert_eq!(produced(&mut d), (0, 5));
}

#[test]
fn metadata_of_topics() {
    let mut b = broker();
    b.create("t", 2);
    let mut e = request(3, 4, 1);
    e.put_i32(2);
    e.put_string("t");
    e.put_string("u");
    e.put_i8(0);
    let mut d = b.send(1, e);
    assert_eq!(d.get_i32().unwrap(), 0);
    assert_eq!(d.get_i32().unwrap(), 1);
    assert_eq!(d.get_i32().unwrap(), 0);
    assert_eq!(d.get_string().unwrap(), "127.0.0.1");
    assert_eq!(d.get_i32().unwrap(), 9092);
    assert_eq!(d.get_nullable_string().unwrap(), None);
    assert_eq!(d.get_nullable_string().unwrap(), Some("rivine-cluster".to_string()));
    assert_eq!(d.get_i32().unwrap(), 0);
    assert_eq!(d.get_i32().unwrap(), 2);
    assert_eq!(d.get_i16().unwrap(), 0);
    assert_eq!(d.get_string().unwrap(), "t");
    assert_eq!(d.get_i8().unwrap(), 0);
    assert_eq!(d.get_i32().unwrap(), 2);
    for p in 0..2 {
        assert_eq!(d.get_i16().unwrap(), 0);
        assert_eq!(d.get_i32().unwrap(), p);
        assert_eq!(d.get_i32().unwrap(), b.handler.metadata.config.broker_id);
        assert_eq!(d.get_i32().unwrap(), 1);
        d.get_i32().unwrap();
        assert_eq!(d.get_i32().unwrap(), 1);
        d.get_i32().unwrap();
    }
    assert_eq!(d.get_i16().unwrap(), error_codes::UNKNOWN_TOPIC_OR_PARTITION);
    assert_eq!(d.get_string().unwrap(), "u");
    assert!(b.handler.metadata.get_topic("u").is_none());
}

#[test]
fn metadata_creates_topics() {
    let mut b = broker();
    let mut e = request(3, 4, 1);
    e.put_i32(1);
    e.put_string("u");
    e.put_i8(1);
    b.send(1, e);
    assert_eq!(b.handler.metadata.partitions_of("u"), 1);
    assert!(b.handler.metadata.partition_exists("u", 0));
}

#[test]
fn topics_are_created_and_deleted() {
    let mut b = broker();
    let mut e = request(19, 1, 1);
    e.put_i32(1);
    e.put_string("t");
    e.put_i32(3);
    e.put_i16(1);
    e.put_i32(0);
    e.put_i32(0);
    e.put_i32(1000);
    e.put_i8(0);
    let mut d = b.send(1, e);
    assert_eq!(d.get_i32().unwrap(), 1);
    assert_eq!(d.get_string().unwrap(), "t");
    assert_eq!(d.get_i16().unwrap(), 0);
    assert_eq!(d.get_i16().unwrap(), -1);
    assert_eq!(d.remaining(), 0);
    assert_eq!(b.handler.metadata.partitions_of("t"), 3);

    let mut e = request(20, 1, 2);
    e.put_i32(1);
    e.put_string("t");
    e.put_i32(1000);
    let mut d = b.send(2, e);
    assert_eq!(d.get_i32().unwrap(), 1);
    assert_eq!(d.get_string().unwrap(), "t");
    assert_eq!(d.get_i16().unwrap(), 0);
    assert_eq!(d.get_i32().unwrap(), 0);
    assert_eq!(b.deleted.len(), 3);
    assert!(b.handler.metadata.get_topic("t").is_none());
    let mut d = b.send(3, fetch_request(3, "t", 0, 0));
    assert_eq!(fetched(&mut d).0, error_codes::UNKNOWN_TOPIC_OR_PARTITION);
}

fn bounds_request(version: i16, timestamp: i64, max: i32, topic: &str) -> Encoder {
    let mut e = request(2, version, 1);
    e.put_i32(-1);
    if version >= 2 {
        e.put_i8(0);
    }
    e.put_i32(1);
    e.put_string(topic);
    e.put_i32(1);
    e.put_i32(0);
    e.put_i64(timestamp);
    if version == 0 {
        e.put_i32(max);
    }
    e
}

#[test]
fn bounds_of_partitions() {
    let mut b = broker();
    for _ in 0..4 {
        b.send(1, produce_request(1, 1, "t", 0, "v"));
    }
    for (timestamp, want) in [(-1i64, (-1i64, 4i64)), (-2, (-1, 0)), (77, (77, 4))] {
        let mut d = b.send(1, bounds_request(1, timestamp, 0, "t"));
        assert_eq!(d.get_i32().unwrap(), 1);
        d.get_string().unwrap();
        assert_eq!(d.get_i32().unwrap(), 1);
        assert_eq!(d.get_i32().unwrap(), 0);
        assert_eq!(d.get_i16().unwrap(), 0);
        assert_eq!((d.get_i64().unwrap(), d.get_i64().unwrap()), want);
    }
    let mut d = b.send(1, bounds_request(0, -1, 3, "t"));
    d.get_i32().unwrap();
    d.get_string().unwrap();
    d.get_i32().unwrap();
    d.get_i32().unwrap();
    assert_eq!(d.get_i16().unwrap(), 0);
    assert_eq!(d.get_i32().unwrap(), 3);
    let offsets: Vec<i32> = (0..3).map(|_| d.get_i32().unwrap()).collect();
    assert_eq!(offsets, vec![3, 2, 1]);
    let mut d = b.send(1, bounds_request(1, -1, 0, "nowhere"));
    d.get_i32().unwrap();
    d.get_string().unwrap();
    d.get_i32().unwrap();
    d.get_i32().unwrap();
    assert_eq!(d.get_i16().unwrap(), error_codes::UNKNOWN_TOPIC_OR_PARTITION);
    assert_eq!((d.get_i64().unwrap(), d.get_i64().unwrap()), (-1, -1));
}

#[test]
fn producers_get_ids() {
    let mut b = broker();
    for want in 0..3i64 {
        let mut e = request(22, 0, 9);
        e.put_nullable_string(None);
        e.put_i32(1000);
        let mut d = b.send(9, e);
        assert_eq!(d.get_i32().unwrap(), 0);
        assert_eq!(d.get_i16().unwrap(), 0);
        assert_eq!(d.get_i64().unwrap(), want);
        assert_eq!(d.get_i16().unwrap(), 0);
    }
}

#[test]
fn handlers_draw_on_the_same_producer_ids() {
    let mut ids = ProducerIds::new();
    for want in 0..4i64 {
        let mut b = broker();
        b.ids = ids;
        let mut e = request(22, 0, 9);
        e.put_nullable_string(None);
        e.put_i32(1000);
        let mut d = b.send(9, e);
        d.get_i32().unwrap();
        d.get_i16().unwrap();
        assert_eq!(d.get_i64().unwrap(), want);
        ids = b.ids;
    }
    let mut last = ProducerIds { next: i64::MAX };
    assert_eq!((last.draw(), last.draw()), (i64::MAX, i64::MIN));
}

#[test]
fn coordinator_of_a_group() {
    let mut b = broker();
    let mut e = request(10, 1, 1);
    e.put_string("g");
    e.put_i8(0);
    let mut d = b.send(1, e);
    assert_eq!(d.get_i32().unwrap(), 0);
    assert_eq!(d.get_i16().unwrap(), 0);
    assert_eq!(d.get_nullable_string().unwrap(), None);
    assert_eq!(d.get_i32().unwrap(), 0);
    assert_eq!(d.get_string().unwrap(), "127.0.0.1");
    assert_eq!(d.get_i32().unwrap(), 9092);
}

fn join_request(group: &str) -> Encoder {
    let mut e = request(11, 1, 1);
    e.put_string(group);
    e.put_i32(1000);
    e.put_i32(1000);
    e.put_string("");
    e.put_string("consumer");
    e.put_i32(1);
    e.put_string("range");
    e.put_i32(2);
    e.put_bytes(b"md");
    e
}

/// Lets a member join and returns its id.
fn join(b: &mut TestBroker, group: &str) -> String {
    let mut d = b.send(1, join_request(group));
    assert_eq!(d.get_i32().unwrap(), 0);
    assert_eq!(d.get_i16().unwrap(), 0);
    assert_eq!(d.get_i32().unwrap(), 1);
    assert_eq!(d.get_nullable_string().unwrap(), Some("range".to_string()));
    let leader = d.get_string().unwrap();
    let id = d.get_string().unwrap();
    assert_eq!(leader, id);
    assert_eq!(d.get_i32().unwrap(), 1);
    id
}

fn commit_request(group: &str, generation: i32, member: &str, offset: i64) -> Encoder {
    let mut e = request(8, 2, 1);
    e.put_string(group);
    e.put_i32(generation);
    e.put_string(member);
    e.put_i64(-1);
    e.put_i32(1);
    e.put_string("t");
    e.put_i32(1);
    e.put_i32(0);
    e.put_i64(offset);
    e.put_nullable_string(Some("note"));
    e
}

fn commit(b: &mut TestBroker, body: Encoder) -> i16 {
    let mut d = b.send(1, body);
    assert_eq!(d.get_i32().unwrap(), 1);
    assert_eq!(d.get_string().unwrap(), "t");
    assert_eq!(d.get_i32().unwrap(), 1);
    assert_eq!(d.get_i32().unwrap(), 0);
    d.get_i16().unwrap()
}

fn committed(b: &mut TestBroker, group: &str) -> (i64, Option<String>) {
    let mut e = request(9, 1, 1);
    e.put_string(group);
    e.put_i32(1);
    e.put_string("t");
    e.put_i32(1);
    e.put_i32(0);
    let mut d = b.send(1, e);
    assert_eq!(d.get_i32().unwrap(), 0);
    assert_eq!(d.get_i32().unwrap(), 1);
    assert_eq!(d.get_string().unwrap(), "t");
    assert_eq!(d.get_i32().unwrap(), 1);
    assert_eq!(d.get_i32().unwrap(), 0);
    let offset = d.get_i64().unwrap();
    let note = d.get_nullable_string().unwrap();
    assert_eq!(d.get_i16().unwrap(), 0);
    (offset, note)
}

#[test]
fn a_group_commits_offsets() {
    let mut b = broker();
    let id = join(&mut b, "g");
    assert_eq!(
        commit(&mut b, commit_request("g", 1, &id, 5)),
        error_codes::REBALANCE_IN_PROGRESS
    );
    assert_eq!(committed(&mut b, "g"), (-1, None));

    let mut e = request(14, 0, 1);
    e.put_string("g");
    e.put_i32(1);
    e.put_string(&id);
    e.put_i32(1);
    e.put_string(&id);
    e.put_i32(1);
    e.put_bytes(b"a");
    let mut d = b.send(1, e);
    let rest = d.remaining();
    let bytes = d.get_bytes(rest).unwrap();
    assert_eq!(bytes[rest - 1], b'a');

    assert_eq!(commit(&mut b, commit_request("g", 1, &id, 5)), 0);
    assert_eq!(committed(&mut b, "g"), (5, Some("note".to_string())));
    assert_eq!(
        commit(&mut b, commit_request("g", 2, &id, 6)),
        error_codes::ILLEGAL_GENERATION
    );
    assert_eq!(
        commit(&mut b, commit_request("g", 1, "who", 6)),
        error_codes::UNKNOWN_MEMBER_ID
    );
    assert_eq!(committed(&mut b, "g"), (5, Some("note".to_string())));
    assert_eq!(committed(&mut b, "other"), (-1, None));

    // The commit is in the topic that holds commits.
    let target = b.handler.groups.coordinator_partition("g");
    let held = &b.disk[&("__consumer_offsets".to_string(), target)];
    let mut again = GroupCoordinator::new();
    again.init(&vec![Bytes::copy_from_slice(&held[0].log)]);
    assert_eq!(again.fetch_offset("g", "t", 0), Some(5));

    let mut e = request(12, 1, 1);
    e.put_string("g");
    e.put_i32(1);
    e.put_string(&id);
    let mut d = b.send(1, e);
    assert_eq!((d.get_i32().unwrap(), d.get_i16().unwrap()), (0, 0));
    let mut e = request(13, 0, 1);
    e.put_string("g");
    e.put_string(&id);
    let mut d = b.send(1, e);
    assert_eq!((d.get_i16().unwrap(), d.remaining()), (0, 0));
}

#[test]
fn groups_are_listed_in_order() {
    let mut b = broker();
    for g in ["b", "a", "c"] {
        join(&mut b, g);
    }
    assert_eq!(commit(&mut b, commit_request("aa", -1, "", 1)), 0);
    let mut d = b.send(1, request(16, 1, 1));
    assert_eq!(d.get_i32().unwrap(), 0);
    assert_eq!(d.get_i16().unwrap(), 0);
    assert_eq!(d.get_i32().unwrap(), 4);
    let list: Vec<(String, String)> =
        (0..4).map(|_| (d.get_string().unwrap(), d.get_string().unwrap())).collect();
    let ids: Vec<&str> = list.iter().map(|g| g.0.as_str()).collect();
    assert_eq!(ids, vec!["a", "aa", "b", "c"]);
    assert_eq!(list[1].1, "");
    assert_eq!(list[2].1, "consumer");
}

#[test]
fn groups_are_listed_by_state() {
    let mut b = broker();
    join(&mut b, "b");
    commit(&mut b, commit_request("a", -1, "", 1));
    let list = |b: &TestBroker, state: &str| {
        let req = ListGroupsRequest { states_filter: vec![state.to_string()] };
        let r = b.handler.handle_list_groups(&req);
        r.groups.iter().map(|g| g.group_id.clone()).collect::<Vec<_>>()
    };
    assert_eq!(list(&b, "Empty"), vec!["a".to_string()]);
    assert_eq!(list(&b, "CompletingRebalance"), vec!["b".to_string()]);
    assert!(list(&b, "Stable").is_empty());
}

#[test]
fn groups_are_described() {
    let mut b = broker();
    let id = join(&mut b, "g");
    let mut e = request(15, 0, 1);
    e.put_i32(2);
    e.put_string("g");
    e.put_string("nobody");
    let mut d = b.send(1, e);
    assert_eq!(d.get_i32().unwrap(), 2);
    assert_eq!(d.get_i16().unwrap(), 0);
    assert_eq!(d.get_string().unwrap(), "g");
    assert_eq!(d.get_string().unwrap(), "CompletingRebalance");
    assert_eq!(d.get_string().unwrap(), "consumer");
    assert_eq!(d.get_string().unwrap(), "");
    assert_eq!(d.get_i32().unwrap(), 1);
    assert_eq!(d.get_string().unwrap(), id);
    assert_eq!(d.get_string().unwrap(), "");
    assert_eq!(d.get_string().unwrap(), "");
    let n = d.get_i32().unwrap();
    assert_eq!(d.get_bytes(n as usize).unwrap(), "md");
    assert_eq!(d.get_i32().unwrap(), 0);
    assert_eq!(d.get_i16().unwrap(), 0);
    assert_eq!(d.get_string().unwrap(), "nobody");
    assert_eq!(d.get_string().unwrap(), "Dead");
    assert_eq!(d.get_string().unwrap(), "");
}

#[test]
fn requests_that_cannot_be_served() {
    let mut b = broker();
    // One of a kind that is not supported.
    let mut e = request(99, 0, 5);
    e.put_unsigned_varint(0);
    let mut d = b.send(5, e);
    assert_eq!(d.get_i16().unwrap(), error_codes::UNSUPPORTED_VERSION);
    // A body that does not decode.
    let d = b.send(6, request(3, 4, 6));
    assert_eq!(d.remaining(), 0);
    let r = b.serve(&request(0, 3, 7).into_bytes(), true);
    assert!(matches!(r, Reply::Silence));
    // A header that does not.
    assert!(matches!(b.serve(&[0, 1, 2], true), Reply::Silence));
}

#[test]
fn commits_change_nothing_else() {
    let mut b = broker();
    assert_eq!(commit(&mut b, commit_request("g", -1, "", 3)), 0);
    assert_eq!(commit(&mut b, commit_request("h", -1, "", 4)), 0);
    assert_eq!(committed(&mut b, "g").0, 3);
    assert_eq!(commit(&mut b, commit_request("g", -1, "", 8)), 0);
    assert_eq!(committed(&mut b, "g").0, 8);
    assert_eq!(committed(&mut b, "h").0, 4);
}

#[test]
fn topics_that_exist_stay() {
    let mut b = broker();
    b.create("t", 2);
    b.send(1, produce_request(1, 1, "t", 1, "v"));
    b.create("t", 3);
    assert_eq!(b.handler.metadata.partitions_of("t"), 3);
    assert_eq!(b.handler.metadata.partition_leo_sync("t", 1), Some(1));
    assert_eq!(b.handler.metadata.partition_log_start_sync("t", 1), Some(0));
    assert_eq!(b.handler.metadata.partition_leo("t", 7), None);
}

#[test]
fn supported_versions_are_not_compact() {
    let max = |key: i16| SUPPORTED_API_KEYS.iter().find(|k| k.0 == key).unwrap().2;
    assert!(max(0) < 9 && max(1) < 12 && max(3) < 9 && max(8) < 8 && max(22) < 2);
    assert_eq!(SUPPORTED_API_KEYS.len(), 17);
}

#[test]
fn lengths_of_requests() {
    assert_eq!(request_len(&[0, 0, 0, 0]), None);
    assert_eq!(request_len(&[0, 0, 1, 0]), Some(256));
    assert_eq!(request_len(&[6, 64, 0, 0]), Some(104857600));
    assert_eq!(request_len(&[6, 64, 0, 1]), None);
    assert_eq!(framed(&Bytes::from("ab")).to_vec(), vec![0, 0, 0, 2, b'a', b'b']);
}

#[test]
fn names_of_directories() {
    let m = MetadataManager::new(Arc::new(BrokerConfig::default()));
    let (dir, name) = m.partition_dir("my-topic", 3);
    assert_eq!(dir, BrokerConfig::default().log_dirs[0]);
    assert_eq!(name, "my-topic-3");
    assert_eq!(parse_topic_partition("my-topic-3"), Some(("my-topic".to_string(), 3)));
    assert_eq!(parse_topic_partition("nothing"), None);
    assert_eq!(parse_topic_partition("t-x"), None);
}
