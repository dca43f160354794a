use std::collections::HashMap;
use std::sync::Arc;

use bytes::Bytes;
use rivine::config::BrokerConfig;
use rivine::group::coordinator::GroupState;
use rivine::group::offset_store::{
    decode_offset, encode_offset, stable_hash, OffsetStore, CONSUMER_OFFSETS_TOPIC,
};
use rivine::group::GroupCoordinator;
use rivine::internals::InternalTopics;
use rivine::protocol::error_codes;
use rivine::server::MetadataManager;

fn make_metadata() -> MetadataManager {
    MetadataManager::new(Arc::new(BrokerConfig::default()))
}

/// The contents of the partitions of the topic that holds commits.
type Logs = HashMap<i32, Vec<u8>>;

fn commit(
    store: &mut OffsetStore,
    metadata: &mut MetadataManager,
    logs: &mut Logs,
    group: &str,
    topic: &str,
    partition: i32,
    offset: i64,
    note: Option<String>,
) {
    let mut writes = Vec::new();
    let target = store
        .commit(metadata, group, topic, partition, offset, note, 5, &mut writes)
        .unwrap();
    for w in writes {
        logs.entry(target).or_default().extend_from_slice(&w.log);
    }
}

#[test]
fn test_offset_commit_and_recover() {
    let mut metadata = make_metadata();
    let mut store = OffsetStore::new();
    for p in store.ensure_created(&mut metadata) {
        metadata.open_partition(CONSUMER_OFFSETS_TOPIC, p, &vec![], 0).unwrap();
    }
    let mut logs: Logs = HashMap::new();

    commit(&mut store, &mut metadata, &mut logs, "group-a", "topic-1", 0, 42, None);
    commit(
        &mut store,
        &mut metadata,
        &mut logs,
        "group-a",
        "topic-1",
        1,
        100,
        Some("meta".into()),
    );
    commit(&mut store, &mut metadata, &mut logs, "group-b", "topic-2", 3, 7, None);

    assert_eq!(store.fetch_offset("group-a", "topic-1", 0), Some(42));
    assert_eq!(
        store.fetch_offset_with_meta("group-a", "topic-1", 1),
        Some((100, Some("meta".to_string())))
    );
    assert_eq!(store.fetch_offset("group-b", "topic-2", 3), Some(7));
    assert_eq!(store.fetch_offset("group-a", "topic-2", 0), None);

    // After a restart.
    let mut store2 = OffsetStore::new();
    let held: Vec<Bytes> = logs.into_values().map(Bytes::from).collect();
    store2.recover(&held);

    assert_eq!(store2.fetch_offset("group-a", "topic-1", 0), Some(42));
    assert_eq!(
        store2.fetch_offset_with_meta("group-a", "topic-1", 1),
        Some((100, Some("meta".to_string())))
    );
    assert_eq!(store2.fetch_offset("group-b", "topic-2", 3), Some(7));
}

#[test]
fn later_commits_replace_earlier_ones() {
    let mut metadata = make_metadata();
    let mut store = OffsetStore::new();
    for p in store.ensure_created(&mut metadata) {
        metadata.open_partition(CONSUMER_OFFSETS_TOPIC, p, &vec![], 0).unwrap();
    }
    let mut logs: Logs = HashMap::new();
    for offset in [1, 5, 3] {
        commit(&mut store, &mut metadata, &mut logs, "g", "t", 0, offset, None);
    }
    assert_eq!(store.fetch_offset("g", "t", 0), Some(3));
    let mut again = OffsetStore::new();
    again.recover(&logs.into_values().map(Bytes::from).collect());
    assert_eq!(again.fetch_offset("g", "t", 0), Some(3));
    assert_eq!(again.groups_with_offsets(), vec!["g".to_string()]);
}

#[test]
fn commits_are_remembered_without_their_topic() {
    let mut metadata = make_metadata();
    let mut store = OffsetStore::new();
    let mut writes = Vec::new();
    let r = store.commit(&mut metadata, "g", "t", 0, 9, None, 5, &mut writes);
    assert!(r.is_err());
    assert!(writes.is_empty());
    assert_eq!(store.fetch_offset("g", "t", 0), Some(9));
}

#[test]
fn value_of_a_commit() {
    let v = encode_offset("t", 3, 7, Some("m"));
    assert_eq!(
        v.to_vec(),
        vec![0, 1, b't', 0, 0, 0, 3, 0, 0, 0, 0, 0, 0, 0, 7, 0, 1, b'm']
    );
    assert_eq!(decode_offset(&v), Some(("t".to_string(), 3, 7, Some("m".to_string()))));
    assert_eq!(decode_offset(&v.slice(0..5)), None);
}

#[test]
fn groups_have_partitions() {
    assert_eq!(stable_hash(""), 0);
    assert_eq!(stable_hash("ab"), 97 * 31 + 98);
    for (a, b) in [("group-", "a"), ("", "x"), ("\u{e4}", "\u{20ac}uro-and-more-than-64-bits")] {
        let mut h = stable_hash(a);
        for _ in b.as_bytes() {
            h = h.wrapping_mul(31);
        }
        assert_eq!(stable_hash(&format!("{a}{b}")), h.wrapping_add(stable_hash(b)));
    }
    let store = OffsetStore::new();
    assert_eq!(store.coordinator_partition("ab"), (97 * 31 + 98) % 50);
    assert_eq!(GroupCoordinator::new().coordinator_partition("ab"), 5);
}

#[test]
fn internal_topics_are_created() {
    let mut metadata = make_metadata();
    let (offsets, cluster) = InternalTopics::new().ensure_created(&mut metadata);
    assert_eq!(offsets.len(), 50);
    assert_eq!(cluster, vec![0]);
    let names: Vec<String> = metadata.topic_list().iter().map(|t| t.name.clone()).collect();
    assert!(names.contains(&"__consumer_offsets".to_string()));
    assert!(metadata.get_topic("__consumer_offsets").unwrap().is_internal);
    assert_eq!(metadata.topic_count(), 2);
}

fn protocols() -> Vec<(String, Bytes)> {
    vec![
        ("range".to_string(), Bytes::from("meta")),
        ("sticky".to_string(), Bytes::from("other")),
    ]
}

#[test]
fn a_member_joins_syncs_and_leaves() {
    let mut c = GroupCoordinator::new();
    let (err, generation, leader, id, protocol, members) =
        c.join_group_at("g", 1000, 1000, "", "consumer", protocols(), 0);
    assert_eq!((err, generation), (0, 1));
    assert_eq!(id, "rivine-g-1");
    assert_eq!(leader, id);
    assert_eq!(protocol, Some("range".to_string()));
    assert_eq!(members, vec![(id.clone(), Bytes::from("meta"))]);
    assert_eq!(c.group_state_str("g"), Some("CompletingRebalance".to_string()));
    assert_eq!(c.commit_refusal("g", 1, &id), Some(error_codes::REBALANCE_IN_PROGRESS));

    let (err, assignment) =
        c.sync_group("g", 1, &id, vec![(id.clone(), Bytes::from("mine"))]);
    assert_eq!(err, 0);
    assert_eq!(assignment, "mine");
    assert_eq!(c.group_state_str("g"), Some("Stable".to_string()));
    assert_eq!(c.commit_refusal("g", 1, &id), None);
    assert_eq!(c.heartbeat_at("g", 1, &id, 10), 0);
    assert_eq!(c.heartbeat_at("g", 2, &id, 10), error_codes::ILLEGAL_GENERATION);
    assert_eq!(c.heartbeat_at("g", 1, "who", 10), error_codes::UNKNOWN_MEMBER_ID);
    let described = c.describe_members("g");
    assert_eq!(described, vec![(id.clone(), Bytes::from("meta"), Bytes::from("mine"))]);
    assert_eq!(c.group_protocol_type("g"), Some("consumer".to_string()));

    assert_eq!(c.leave_group("g", &id), 0);
    assert_eq!(c.group_state_str("g"), Some("Empty".to_string()));
    assert_eq!(c.leave_group("unknown", &id), error_codes::NOT_COORDINATOR);
}

#[test]
fn a_second_member_begins_a_generation() {
    let mut c = GroupCoordinator::new();
    let first = c.join_group_at("g", 1000, 1000, "", "consumer", protocols(), 0).3;
    let (err, generation, leader, second, _, members) =
        c.join_group_at("g", 1000, 1000, "", "consumer", protocols(), 1);
    assert_eq!((err, generation), (0, 2));
    assert_eq!(second, "rivine-g-2");
    assert_eq!(leader, second);
    assert_eq!(members.len(), 2);
    // The first one has to join again.
    assert_eq!(c.sync_group("g", 1, &first, vec![]).0, error_codes::ILLEGAL_GENERATION);
    assert_eq!(c.commit_refusal("g", 1, &first), Some(error_codes::ILLEGAL_GENERATION));
    let r = c.join_group_at("g", 1000, 1000, &first, "consumer", protocols(), 2);
    assert_eq!((r.0, r.1), (0, 3));
}

#[test]
fn joins_that_are_refused() {
    let mut c = GroupCoordinator::new();
    let r = c.join_group_at("g", -1, 0, "", "consumer", protocols(), 0);
    assert_eq!(r.0, error_codes::INVALID_SESSION_TIMEOUT);
    assert_eq!(c.group_state_str("g"), None);
    let r = c.join_group_at("g", 1000, 0, "", "consumer", vec![], 0);
    assert_eq!(r.0, error_codes::INCONSISTENT_GROUP_PROTOCOL);
    c.join_group_at("g", 1000, 0, "", "consumer", protocols(), 0);
    let r = c.join_group_at("g", 1000, 0, "", "connect", protocols(), 0);
    assert_eq!(r.0, error_codes::INCONSISTENT_GROUP_PROTOCOL);
}

#[test]
fn members_that_are_not_heard_of_are_dropped() {
    let mut c = GroupCoordinator::new();
    let id = c.join_group_at("g", 10, 10, "", "consumer", protocols(), 0).3;
    c.expire_members(10_000_000);
    assert_eq!(c.describe_members("g").len(), 1);
    c.heartbeat_at("g", 1, &id, 5_000_000);
    c.expire_members(15_999_999);
    assert_eq!(c.describe_members("g").len(), 1);
    c.expire_members(16_000_000);
    assert_eq!(c.describe_members("g").len(), 0);
    assert_eq!(c.group_state_str("g"), Some("Empty".to_string()));
}

#[test]
fn consumers_without_a_group_may_commit() {
    let c = GroupCoordinator::new();
    assert_eq!(c.commit_refusal("g", -1, ""), None);
    assert_eq!(c.commit_refusal("g", 3, "m"), None);
}

#[test]
fn groups_are_listed_once() {
    let mut metadata = make_metadata();
    let mut c = GroupCoordinator::new();
    c.join_group_at("a", 1000, 1000, "", "consumer", protocols(), 0);
    let mut writes = Vec::new();
    for g in ["a", "b", "b"] {
        let _ = c.commit_offset(&mut metadata, g, "t", 0, 1, None, 0, &mut writes);
    }
    let mut list = c.list_groups();
    list.sort();
    assert_eq!(
        list,
        vec![
            ("a".to_string(), "consumer".to_string()),
            ("b".to_string(), String::new())
        ]
    );
    assert_eq!(GroupState::Empty, GroupState::Empty);
}
