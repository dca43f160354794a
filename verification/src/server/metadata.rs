//! The topics of a broker, their partitions, and the partitions' logs.

use std::sync::Arc;

use bytes::Bytes;
use dashmap::DashMap;
use vstd::prelude::*;
use vstd::string::{StrSliceExecFns, StringExecFns};

use crate::buf::bytes_view;
use crate::config::BrokerConfig;
use crate::maps::goes_through;
use crate::protocol::primitive::Modeled;
use crate::protocol::run::{all_read, read_runs, BatchRun, RunModel};
use crate::storage::log::{
    append_all, append_start, files_in_order, limits_of, log_read, log_wf, opened_log, segment_for,
    AppendResult, LogView, PartitionLog, SegmentFiles, StorageError,
};
use crate::storage::scan::selected;
use crate::storage::segment::{indexable, indexed_at, sound, SegmentWrite, WriteModel};
use crate::text;

verus! {

/// A partition and the brokers that hold it.
#[derive(Debug, Clone)]
pub struct PartitionInfo {
    pub topic: String,
    pub partition: i32,
    pub leader: i32,
    pub replicas: Vec<i32>,
    pub isr: Vec<i32>,
}

/// A topic.
#[derive(Debug, Clone)]
pub struct TopicInfo {
    pub name: String,
    pub is_internal: bool,
    pub partitions: Vec<PartitionInfo>,
}

/// The mathematical value of a partition.
pub struct PartitionModel {
    pub topic: Seq<char>,
    pub partition: i32,
    pub leader: i32,
    pub replicas: Seq<i32>,
    pub isr: Seq<i32>,
}

/// The mathematical value of a topic.
pub struct TopicModel {
    pub name: Seq<char>,
    pub is_internal: bool,
    pub partitions: Seq<PartitionModel>,
}

impl Modeled for PartitionInfo {
    type M = PartitionModel;

    open spec fn model(&self) -> PartitionModel {
        PartitionModel {
            topic: self.topic@,
            partition: self.partition,
            leader: self.leader,
            replicas: self.replicas@,
            isr: self.isr@,
        }
    }
}

impl Modeled for TopicInfo {
    type M = TopicModel;

    open spec fn model(&self) -> TopicModel {
        TopicModel {
            name: self.name@,
            is_internal: self.is_internal,
            partitions: self.partitions.model(),
        }
    }
}

/// A topic and the number of a partition.
pub type PartitionKey = (Seq<char>, i32);

/// The mathematical value of a broker's topics and logs.
pub struct MetaView {
    pub topics: Map<Seq<char>, TopicModel>,
    pub logs: Map<PartitionKey, LogView>,
}

/// Topics by their names.
pub type TopicMap = DashMap<String, TopicInfo>;

/// Logs by topic and partition.
pub type LogMap = DashMap<(String, i32), PartitionLog>;

/// What a map of topics holds.
pub uninterp spec fn topics_view(m: TopicMap) -> Map<Seq<char>, TopicModel>;

/// What a map of logs holds.
pub uninterp spec fn logs_view(m: LogMap) -> Map<PartitionKey, LogView>;

// ---------------------------------------------------------------------------

/// The numbers, a second time.
pub fn copy_ints(v: &Vec<i32>) -> (r: Vec<i32>)
    ensures
        r@ == v@,
{
    let mut out: Vec<i32> = Vec::new();
    let mut i: usize = 0;
    while i < v.len()
        invariant
            i <= v@.len(),
            out@ == v@.take(i as int),
        decreases v@.len() - i,
    {
        out.push(v[i]);
        assert(out@ =~= v@.take(i as int + 1));
        i = i + 1;
    }
    assert(v@.take(i as int) =~= v@);
    out
}

/// The topic, a second time.
pub fn copy_topic(t: &TopicInfo) -> (r: TopicInfo)
    ensures
        r.model() == t.model(),
{
    let mut partitions: Vec<PartitionInfo> = Vec::new();
    let mut i: usize = 0;
    while i < t.partitions.len()
        invariant
            i <= t.partitions@.len(),
            partitions.model() =~= t.partitions.model().take(i as int),
        decreases t.partitions@.len() - i,
    {
        let ghost before = partitions.model();
        let p = &t.partitions[i];
        partitions.push(
            PartitionInfo {
                topic: p.topic.clone(),
                partition: p.partition,
                leader: p.leader,
                replicas: copy_ints(&p.replicas),
                isr: copy_ints(&p.isr),
            },
        );
        assert(partitions.model() =~= before.push(t.partitions.model()[i as int]));
        i = i + 1;
    }
    assert(t.partitions.model().take(i as int) =~= t.partitions.model());
    TopicInfo { name: t.name.clone(), is_internal: t.is_internal, partitions }
}

/// `DashMap::new`: holds nothing.
#[verifier::external_body]
fn topics_new() -> (r: TopicMap)
    ensures
        topics_view(r).dom() == Set::<Seq<char>>::empty(),
{
    DashMap::new()
}

/// `DashMap::view`: what the given function makes of the value of a key, if it
/// has one; here a copy of the value.
#[verifier::external_body]
fn topics_get(m: &TopicMap, key: &str) -> (r: Option<TopicInfo>)
    ensures
        r.model() == topics_view(*m).get(key@),
{
    m.view(key, |_, t| copy_topic(t))
}

/// `DashMap::insert`: gives a key a value in place of the one it had.
#[verifier::external_body]
fn topics_insert(m: &mut TopicMap, key: String, value: TopicInfo)
    ensures
        topics_view(*final(m)) == topics_view(*old(m)).insert(key@, value.model()),
{
    m.insert(key, value);
}

/// `DashMap::remove`: takes a key out.
#[verifier::external_body]
fn topics_remove(m: &mut TopicMap, key: &str)
    ensures
        topics_view(*final(m)) == topics_view(*old(m)).remove(key@),
{
    m.remove(key);
}

/// `DashMap::iter`: every entry once, in some order; here with a copy of the
/// value.
#[verifier::external_body]
fn topics_all(m: &TopicMap) -> (r: Vec<(String, TopicInfo)>)
    ensures
        goes_through(r.model(), topics_view(*m)),
{
    m.iter().map(|e| (e.key().clone(), copy_topic(e.value()))).collect()
}

/// `DashMap::len`: the number of entries.
#[verifier::external_body]
fn topics_len(m: &TopicMap) -> (n: usize)
    ensures
        n == topics_view(*m).dom().len(),
{
    m.len()
}

/// `DashMap::new`: holds nothing.
#[verifier::external_body]
fn logs_new() -> (r: LogMap)
    ensures
        logs_view(r).dom() == Set::<PartitionKey>::empty(),
{
    DashMap::new()
}

/// `DashMap::insert`: gives a key a value in place of the one it had.
#[verifier::external_body]
fn logs_put(m: &mut LogMap, key: (String, i32), log: PartitionLog)
    ensures
        logs_view(*final(m)) == logs_view(*old(m)).insert((key.0@, key.1), log@),
{
    m.insert(key, log);
}

/// `DashMap::remove`: takes a key out and hands over the value that it had.
#[verifier::external_body]
fn logs_take(m: &mut LogMap, key: &(String, i32)) -> (r: Option<PartitionLog>)
    ensures
        logs_view(*final(m)) == logs_view(*old(m)).remove((key.0@, key.1)),
        match r {
            Some(l) => logs_view(*old(m)).get((key.0@, key.1)) == Some(l@),
            None => !logs_view(*old(m)).contains_key((key.0@, key.1)),
        },
{
    m.remove(key).map(|e| e.1)
}

/// `DashMap::view`: what the given function makes of the value of a key, if it
/// has one; here the offset after the last record and the oldest one.
#[verifier::external_body]
fn logs_bounds(m: &LogMap, key: &(String, i32)) -> (r: Option<(i64, i64)>)
    ensures
        r == bounds_of(logs_view(*m).get((key.0@, key.1))),
{
    m.view(key, |_, l| l.bounds())
}

/// The offset after the last record of a log, and the oldest one.
pub open spec fn bounds_of(l: Option<LogView>) -> Option<(i64, i64)> {
    match l {
        Some(l) => Some((l.high_watermark, l.log_start_offset)),
        None => None,
    }
}

// ---------------------------------------------------------------------------
// What is done to topics and logs

/// Whether a topic lists a partition.
pub open spec fn lists(t: TopicModel, partition: i32) -> bool {
    exists|i: int|
        0 <= i < t.partitions.len() && (#[trigger] t.partitions[i]).partition == partition
}

/// Whether every log is in order and its partition is listed by its topic.
pub open spec fn meta_wf(m: MetaView) -> bool {
    &&& forall|k: PartitionKey| #[trigger]
        m.logs.contains_key(k) ==> log_wf(m.logs[k]) && m.topics.contains_key(k.0) && lists(
            m.topics[k.0],
            k.1,
        )
    &&& forall|t: Seq<char>| #[trigger] m.topics.contains_key(t) ==> m.topics[t].name == t
}

/// A topic without partitions.
pub open spec fn bare_topic(name: Seq<char>, is_internal: bool) -> TopicModel {
    TopicModel { name, is_internal, partitions: Seq::empty() }
}

/// A partition that one broker holds.
pub open spec fn own_partition(topic: Seq<char>, partition: i32, broker_id: i32) -> PartitionModel {
    PartitionModel {
        topic,
        partition,
        leader: broker_id,
        replicas: seq![broker_id],
        isr: seq![broker_id],
    }
}

/// The topic of a name; one without partitions if there is none.
pub open spec fn topic_or_bare(m: MetaView, topic: Seq<char>, is_internal: bool) -> TopicModel {
    match m.topics.get(topic) {
        Some(t) => t,
        None => bare_topic(topic, is_internal),
    }
}

/// After a partition's log was opened.
pub open spec fn with_partition(
    m: MetaView,
    topic: Seq<char>,
    partition: i32,
    broker_id: i32,
    log: LogView,
) -> MetaView {
    let t = topic_or_bare(m, topic, false);
    MetaView {
        topics: m.topics.insert(
            topic,
            TopicModel {
                partitions: t.partitions.push(own_partition(topic, partition, broker_id)),
                ..t
            },
        ),
        logs: m.logs.insert((topic, partition), log),
    }
}

/// After a topic was created, its partitions not opened yet.
pub open spec fn with_topic(m: MetaView, topic: Seq<char>, is_internal: bool) -> MetaView {
    MetaView { topics: m.topics.insert(topic, topic_or_bare(m, topic, is_internal)), ..m }
}

/// The partitions below `n` of a topic that have no log.
pub open spec fn missing(m: MetaView, topic: Seq<char>, n: int) -> Seq<i32>
    decreases n,
{
    if n <= 0 {
        Seq::empty()
    } else {
        let before = missing(m, topic, n - 1);
        if m.logs.contains_key((topic, (n - 1) as i32)) {
            before
        } else {
            before.push((n - 1) as i32)
        }
    }
}

/// After a topic was deleted.
pub open spec fn without_topic(m: MetaView, topic: Seq<char>) -> MetaView {
    MetaView {
        topics: m.topics.remove(topic),
        logs: Map::new(
            |k: PartitionKey| m.logs.contains_key(k) && k.0 != topic,
            |k: PartitionKey| m.logs[k],
        ),
    }
}

/// The first and last offsets of what was appended.
pub open spec fn offset_pairs(rs: Seq<AppendResult>) -> Seq<(i64, i64)> {
    Seq::new(rs.len(), |i: int| (rs[i].base_offset, rs[i].last_offset))
}

/// Why records could not be appended.
#[derive(Debug, Clone, Copy, PartialEq, Eq, Structural)]
pub enum RecordsError {
    /// There is no such partition.
    NoPartition,
    Storage(StorageError),
}

// ---------------------------------------------------------------------------
// The names of directories

/// The name of a partition's directory.
pub open spec fn dir_name(topic: Seq<char>, partition: i32) -> Seq<char> {
    topic + seq!['-'] + text::decimal(partition as int)
}

/// The place of the last dash in a name, or -1.
pub open spec fn last_dash(name: Seq<char>) -> int
    decreases name.len(),
{
    if name.len() == 0 {
        -1
    } else if name.last() == '-' {
        name.len() - 1
    } else {
        last_dash(name.drop_last())
    }
}

/// The topic and partition whose directory has that name.
pub open spec fn named_partition(name: Seq<char>) -> Option<PartitionKey> {
    let k = last_dash(name);
    if k < 0 {
        None
    } else {
        match text::read_int(name.skip(k + 1), i32::MIN as int, i32::MAX as int) {
            Some(p) => Some((name.take(k), p as i32)),
            None => None,
        }
    }
}

proof fn lemma_last_dash(name: Seq<char>, k: int)
    requires
        0 <= k < name.len(),
        name[k] == '-',
        forall|i: int| k < i < name.len() ==> name[i] != '-',
    ensures
        last_dash(name) == k,
    decreases name.len(),
{
    if k < name.len() - 1 {
        assert(name.last() == name[name.len() - 1]);
        lemma_last_dash(name.drop_last(), k);
    }
}

/// The name of a partition's directory gives the topic and the partition.
pub proof fn law_dir_name_round_trip(topic: Seq<char>, partition: i32)
    requires
        partition >= 0,
    ensures
        named_partition(dir_name(topic, partition)) == Some((topic, partition)),
{
    let d = text::decimal(partition as int);
    let name = dir_name(topic, partition);
    let k = topic.len() as int;
    text::law_decimal_round_trip(partition as int, i32::MIN as int, i32::MAX as int);
    text::lemma_no_sign(partition as nat);
    assert(name.skip(k + 1) =~= d);
    assert(name.take(k) =~= topic);
    assert forall|i: int| k < i < name.len() implies name[i] != '-' by {
        assert(name[i] == d[i - k - 1]);
        assert(text::is_digit(d[i - k - 1]));
    }
    lemma_last_dash(name, k);
}

/// The topic and partition whose directory has that name.
pub fn parse_topic_partition(name: &str) -> (r: Option<(String, i32)>)
    ensures
        match r {
            Some((topic, p)) => named_partition(name@) == Some((topic@, p)),
            None => named_partition(name@) is None,
        },
{
    let len = name.unicode_len();
    let mut k: usize = len;
    assert(name@.take(len as int) =~= name@);
    while k > 0
        invariant
            k <= len,
            len == name@.len(),
            last_dash(name@) == last_dash(name@.take(k as int)),
        decreases k,
    {
        assert(name@.take(k as int).drop_last() =~= name@.take(k - 1));
        assert(name@.take(k as int).last() == name@[k - 1]);
        if name.get_char(k - 1) == '-' {
            let part = name.substring_char(k, len);
            assert(part@ =~= name@.skip(k as int));
            return match text::parse_int(part, i32::MIN as i64, i32::MAX as i64) {
                Some(p) => {
                    let topic = name.substring_char(0, k - 1);
                    assert(topic@ =~= name@.take(k - 1));
                    Some((topic.to_string(), p as i32))
                },
                None => None,
            };
        }
        k = k - 1;
    }
    None
}

// ---------------------------------------------------------------------------

/// The topics of a broker and their logs.
pub struct MetadataManager {
    pub config: Arc<BrokerConfig>,
    pub logs: LogMap,
    pub topics: TopicMap,
}

impl View for MetadataManager {
    type V = MetaView;

    open spec fn view(&self) -> MetaView {
        MetaView { topics: topics_view(self.topics), logs: logs_view(self.logs) }
    }
}

impl MetadataManager {
    pub open spec fn wf(&self) -> bool {
        meta_wf(self@)
    }

    /// No topics.
    pub fn new(config: Arc<BrokerConfig>) -> (r: Self)
        ensures
            r.wf(),
            r.config == config,
            r@.topics == Map::<Seq<char>, TopicModel>::empty(),
            r@.logs == Map::<PartitionKey, LogView>::empty(),
    {
        let r = MetadataManager { config, logs: logs_new(), topics: topics_new() };
        assert(r@.topics =~= Map::empty());
        assert(r@.logs =~= Map::empty());
        r
    }

    /// Opens the log of a partition on the files that its directory holds, and
    /// adds the partition to its topic.
    pub fn open_partition(
        &mut self,
        topic: &str,
        partition: i32,
        files: &Vec<SegmentFiles>,
        now: i64,
    ) -> (r: core::result::Result<(), StorageError>)
        requires
            old(self).wf(),
            files_in_order(files.model()),
        ensures
            final(self).wf(),
            final(self).config == old(self).config,
            ({
                let l = opened_log(files.model(), limits_of(old(self).config), now);
                let overflows = l.segments.last().max_offset == i64::MAX || exists|i: int|
                    0 <= i < files@.len() && (#[trigger] files@[i]).base_offset == i64::MIN;
                match r {
                    Ok(()) => !overflows && final(self)@ == with_partition(
                        old(self)@,
                        topic@,
                        partition,
                        old(self).config.broker_id,
                        l,
                    ),
                    Err(e) => overflows && e == StorageError::OffsetOverflow && final(self)@
                        == old(self)@,
                }
            }),
    {
        let log = match PartitionLog::open(topic, partition, files, self.config.clone(), now) {
            Ok(log) => log,
            Err(e) => {
                return Err(e);
            },
        };
        let ghost before = self@;
        logs_put(&mut self.logs, (topic.to_string(), partition), log);
        let mut info = match topics_get(&self.topics, topic) {
            Some(t) => t,
            None => TopicInfo {
                name: topic.to_string(),
                is_internal: false,
                partitions: Vec::new(),
            },
        };
        assert(info.model() == topic_or_bare(before, topic@, false)) by {
            if !before.topics.contains_key(topic@) {
                assert(info.partitions.model() =~= Seq::empty());
            }
        }
        let ghost ps = info.partitions.model();
        let id = self.config.broker_id;
        let mut replicas: Vec<i32> = Vec::new();
        replicas.push(id);
        let mut isr: Vec<i32> = Vec::new();
        isr.push(id);
        assert(replicas@ =~= seq![id]);
        assert(isr@ =~= seq![id]);
        info.partitions.push(
            PartitionInfo { topic: topic.to_string(), partition, leader: id, replicas, isr },
        );
        assert(info.partitions.model() =~= ps.push(own_partition(topic@, partition, id)));
        topics_insert(&mut self.topics, topic.to_string(), info);
        proof {
            let after = self@;
            assert(after == with_partition(before, topic@, partition, id, log@));
            assert forall|k: PartitionKey| #[trigger] after.logs.contains_key(k) implies log_wf(
                after.logs[k],
            ) && after.topics.contains_key(k.0) && lists(after.topics[k.0], k.1) by {
                let t = after.topics[topic@];
                if k == (topic@, partition) {
                    assert(t.partitions[ps.len() as int].partition == partition);
                } else {
                    assert(before.logs.contains_key(k));
                    if k.0 == topic@ {
                        let i = choose|i: int|
                            0 <= i < before.topics[k.0].partitions.len() && (
                            #[trigger] before.topics[k.0].partitions[i]).partition == k.1;
                        assert(t.partitions[i].partition == k.1);
                    }
                }
            }
        }
        Ok(())
    }

    /// The directory and name of a partition's directory.
    pub fn partition_dir(&self, topic: &str, partition: i32) -> (r: (String, String))
        requires
            self.config.log_dirs@.len() > 0,
        ensures
            r.0@ == self.config.log_dirs@[0]@,
            r.1@ == dir_name(topic@, partition),
    {
        let mut name = topic.to_string();
        proof {
            reveal_strlit("-");
            assert("-"@ =~= seq!['-']);
        }
        name.append("-");
        text::push_int(&mut name, partition as i64);
        (self.config.primary_log_dir(), name)
    }

    /// Creates a topic, if there is none. What is returned are the partitions
    /// that have to be opened.
    pub fn create_topic(&mut self, topic: &str, num_partitions: i32, is_internal: bool) -> (r: Vec<
        i32,
    >)
        requires
            old(self).wf(),
        ensures
            final(self).wf(),
            final(self).config == old(self).config,
            final(self)@ == with_topic(old(self)@, topic@, is_internal),
            r@ == missing(old(self)@, topic@, num_partitions as int),
    {
        let ghost before = self@;
        match topics_get(&self.topics, topic) {
            Some(_) => {
                assert(before.topics.insert(topic@, before.topics[topic@]) =~= before.topics);
            },
            None => {
                let partitions: Vec<PartitionInfo> = Vec::new();
                assert(partitions.model() =~= Seq::empty());
                let info = TopicInfo { name: topic.to_string(), is_internal, partitions };
                topics_insert(&mut self.topics, topic.to_string(), info);
            },
        }
        proof {
            let after = self@;
            assert forall|k: PartitionKey| #[trigger] after.logs.contains_key(k) implies log_wf(
                after.logs[k],
            ) && after.topics.contains_key(k.0) && lists(after.topics[k.0], k.1) by {
                assert(before.logs.contains_key(k));
            }
            assert forall|t: Seq<char>| #[trigger] after.topics.contains_key(
                t,
            ) implies after.topics[t].name == t by {
                if t != topic@ {
                    assert(before.topics.contains_key(t));
                }
            }
        }
        let mut out: Vec<i32> = Vec::new();
        let mut p: i32 = 0;
        assert(out@ =~= Seq::empty());
        while p < num_partitions
            invariant
                0 <= p,
                p <= num_partitions || p == 0,
                self.wf(),
                self.config == old(self).config,
                self@ == with_topic(before, topic@, is_internal),
                out@ == missing(before, topic@, p as int),
            decreases num_partitions - p,
        {
            if !self.partition_exists(topic, p) {
                out.push(p);
            }
            p = p + 1;
        }
        out
    }

    /// Creates a topic of the broker's own.
    pub fn create_internal_topic(&mut self, name: &str, partitions: i32) -> (r: Vec<i32>)
        requires
            old(self).wf(),
        ensures
            final(self).wf(),
            final(self).config == old(self).config,
            final(self)@ == with_topic(old(self)@, name@, true),
            r@ == missing(old(self)@, name@, partitions as int),
    {
        self.create_topic(name, partitions, true)
    }

    /// Deletes a topic and its logs. What is returned are the partitions whose
    /// directories are to be deleted.
    pub fn delete_topic(&mut self, topic: &str) -> (r: Vec<i32>)
        requires
            old(self).wf(),
        ensures
            final(self).wf(),
            final(self).config == old(self).config,
            final(self)@ == without_topic(old(self)@, topic@),
            forall|p: i32| #[trigger]
                r@.contains(p) <==> old(self)@.logs.contains_key((topic@, p)),
            r@.no_duplicates(),
    {
        let ghost before = self@;
        let mut out: Vec<i32> = Vec::new();
        match topics_get(&self.topics, topic) {
            Some(info) => {
                let ghost t = info.model();
                let mut i: usize = 0;
                while i < info.partitions.len()
                    invariant
                        i <= info.partitions@.len(),
                        t == info.model(),
                        before == old(self)@,
                        self.config == old(self).config,
                        self@.topics == before.topics,
                        forall|k: PartitionKey| #[trigger]
                            self@.logs.contains_key(k) <==> before.logs.contains_key(k) && !(k.0
                                == topic@ && out@.contains(k.1)),
                        forall|k: PartitionKey| #[trigger]
                            self@.logs.contains_key(k) ==> self@.logs[k] == before.logs[k],
                        forall|p: i32| #[trigger]
                            out@.contains(p) ==> before.logs.contains_key((topic@, p)),
                        forall|j: int|
                            0 <= j < i && before.logs.contains_key(
                                (topic@, (#[trigger] t.partitions[j]).partition),
                            ) ==> out@.contains(t.partitions[j].partition),
                        out@.no_duplicates(),
                    decreases info.partitions@.len() - i,
                {
                    let p = info.partitions[i].partition;
                    let ghost had = out@;
                    let ghost logs = self@.logs;
                    assert(t.partitions[i as int].partition == p);
                    match logs_take(&mut self.logs, &(topic.to_string(), p)) {
                        Some(_) => {
                            assert(logs.contains_key((topic@, p)));
                            out.push(p);
                            proof {
                                assert(forall|q: i32|
                                    #[trigger] out@.contains(q) <==> had.contains(q) || q == p) by {
                                    assert forall|q: i32| #[trigger] out@.contains(q) <==>
                                        had.contains(q) || q == p by {
                                        if had.contains(q) {
                                            let j = choose|j: int|
                                                0 <= j < had.len() && had[j] == q;
                                            assert(out@[j] == q);
                                        }
                                        if q == p {
                                            assert(out@[had.len() as int] == q);
                                        }
                                    }
                                }
                            }
                        },
                        None => {
                            assert(!logs.contains_key((topic@, p)));
                        },
                    }
                    i = i + 1;
                }
            },
            None => {},
        }
        let ghost left = self@.logs;
        assert(forall|k: PartitionKey| #[trigger]
            left.contains_key(k) <==> before.logs.contains_key(k) && !(k.0 == topic@
                && out@.contains(k.1)));
        assert(forall|k: PartitionKey| #[trigger]
            left.contains_key(k) ==> left[k] == before.logs[k]);
        topics_remove(&mut self.topics, topic);
        proof {
            assert(self@.logs == left);
            assert forall|p: i32| #[trigger] out@.contains(p) <==> before.logs.contains_key(
                (topic@, p),
            ) by {
                if before.logs.contains_key((topic@, p)) {
                    let t = before.topics[topic@];
                    let j = choose|j: int|
                        0 <= j < t.partitions.len() && (#[trigger] t.partitions[j]).partition == p;
                    assert(t.partitions[j].partition == p);
                }
            }
            let after = without_topic(before, topic@);
            assert forall|k: PartitionKey| #[trigger] left.contains_key(k)
                <==> after.logs.contains_key(k) by {
                assert(k == (k.0, k.1));
                if before.logs.contains_key(k) {
                    assert(out@.contains(k.1) <==> before.logs.contains_key((topic@, k.1)));
                }
            }
            assert(left =~= after.logs);
            assert forall|k: PartitionKey| #[trigger] self@.logs.contains_key(k) implies log_wf(
                self@.logs[k],
            ) && self@.topics.contains_key(k.0) && lists(self@.topics[k.0], k.1) by {
                assert(before.logs.contains_key(k));
            }
        }
        out
    }

    /// Appends the batches in runs of bytes to a partition. What is added to
    /// `writes` is to be written, in that order.
    pub fn append_records(
        &mut self,
        topic: &str,
        partition: i32,
        batches: &Vec<Bytes>,
        now: i64,
        writes: &mut Vec<SegmentWrite>,
    ) -> (r: core::result::Result<Vec<(i64, i64)>, RecordsError>)
        requires
            old(self).wf(),
        ensures
            final(self).wf(),
            final(self).config == old(self).config,
            exists|read: Seq<RunModel>|
                all_read(batches.model(), read) && outcome_says(
                    #[trigger] records_appended(
                        old(self)@,
                        topic@,
                        partition,
                        read,
                        old(writes).model(),
                        now,
                    ),
                    final(self)@,
                    final(writes).model(),
                    r,
                ),
    {
        let runs = read_runs(batches);
        self.append_read(topic, partition, &runs, now, writes)
    }

    /// Appends what was read of runs to a partition. What is added to `writes` is
    /// to be written, in that order.
    pub fn append_read(
        &mut self,
        topic: &str,
        partition: i32,
        runs: &Vec<BatchRun>,
        now: i64,
        writes: &mut Vec<SegmentWrite>,
    ) -> (r: core::result::Result<Vec<(i64, i64)>, RecordsError>)
        requires
            old(self).wf(),
        ensures
            final(self).wf(),
            final(self).config == old(self).config,
            outcome_says(
                records_appended(
                    old(self)@,
                    topic@,
                    partition,
                    runs.model(),
                    old(writes).model(),
                    now,
                ),
                final(self)@,
                final(writes).model(),
                r,
            ),
    {
        let ghost before = self@;
        let ghost k = (topic@, partition);
        let key: (String, i32) = (topic.to_string(), partition);
        let mut log = match logs_take(&mut self.logs, &key) {
            Some(log) => log,
            None => {
                assert(before.logs.remove(k) =~= before.logs);
                return Err(RecordsError::NoPartition);
            },
        };
        assert(before.logs.contains_key(k));
        let result = log.append_read(runs, now, writes);
        logs_put(&mut self.logs, key, log);
        proof {
            assert(self@.logs =~= before.logs.insert(k, log@));
            assert forall|j: PartitionKey| #[trigger] self@.logs.contains_key(j) implies log_wf(
                self@.logs[j],
            ) && self@.topics.contains_key(j.0) && lists(self@.topics[j.0], j.1) by {
                assert(before.logs.contains_key(j));
            }
        }
        match result {
            Ok(results) => {
                let mut out: Vec<(i64, i64)> = Vec::new();
                let mut i: usize = 0;
                while i < results.len()
                    invariant
                        i <= results@.len(),
                        out@ =~= offset_pairs(results@).take(i as int),
                    decreases results@.len() - i,
                {
                    out.push((results[i].base_offset, results[i].last_offset));
                    i = i + 1;
                }
                assert(offset_pairs(results@).take(i as int) =~= offset_pairs(results@));
                Ok(out)
            },
            Err(e) => Err(RecordsError::Storage(e)),
        }
    }

    /// Where to begin to read a partition for an offset: the first offset of a
    /// segment and a position in its log; nowhere if there is nothing to read.
    pub fn read_position(&mut self, topic: &str, partition: i32, start_offset: i64) -> (r: Option<
        (i64, u64),
    >)
        requires
            old(self).wf(),
        ensures
            final(self).wf(),
            final(self).config == old(self).config,
            final(self)@ == old(self)@,
            !old(self)@.logs.contains_key((topic@, partition)) ==> r is None,
            old(self)@.logs.contains_key((topic@, partition)) ==> position_says(
                old(self)@.logs[(topic@, partition)],
                start_offset,
                r,
            ),
    {
        let ghost before = self@;
        let ghost k = (topic@, partition);
        let key: (String, i32) = (topic.to_string(), partition);
        let log = match logs_take(&mut self.logs, &key) {
            Some(log) => log,
            None => {
                assert(before.logs.remove(k) =~= before.logs);
                return None;
            },
        };
        let r = log.read_position(start_offset);
        logs_put(&mut self.logs, key, log);
        assert(self@.logs =~= before.logs);
        r
    }

    /// The batches of a partition from an offset on, at most `max_bytes` of
    /// them, and the offset after its last record. `tail` is the log of the
    /// segment from the position on that [`MetadataManager::read_position`] gave.
    pub fn read_records(
        &mut self,
        topic: &str,
        partition: i32,
        start_offset: i64,
        max_bytes: usize,
        tail: &[u8],
    ) -> (r: Option<(Bytes, i64)>)
        requires
            old(self).wf(),
        ensures
            final(self).wf(),
            final(self).config == old(self).config,
            final(self)@ == old(self)@,
            match r {
                Some((data, hw)) => {
                    let l = old(self)@.logs[(topic@, partition)];
                    &&& old(self)@.logs.contains_key((topic@, partition))
                    &&& hw == l.high_watermark
                    &&& bytes_view(data) == read_from_tail(
                        l,
                        start_offset,
                        max_bytes as int,
                        tail@,
                    )
                },
                None => !old(self)@.logs.contains_key((topic@, partition)),
            },
    {
        let ghost before = self@;
        let ghost k = (topic@, partition);
        let key: (String, i32) = (topic.to_string(), partition);
        let log = match logs_take(&mut self.logs, &key) {
            Some(log) => log,
            None => {
                assert(before.logs.remove(k) =~= before.logs);
                return None;
            },
        };
        let hw = log.high_watermark();
        let data = log.read(start_offset, max_bytes, tail);
        logs_put(&mut self.logs, key, log);
        assert(self@.logs =~= before.logs);
        Some((data, hw))
    }

    /// The offset after the last record of a partition.
    pub fn partition_leo(&self, topic: &str, partition: i32) -> (r: Option<i64>)
        ensures
            r == match self@.logs.get((topic@, partition)) {
                Some(l) => Some(l.high_watermark),
                None => None,
            },
    {
        match logs_bounds(&self.logs, &(topic.to_string(), partition)) {
            Some((leo, _)) => Some(leo),
            None => None,
        }
    }

    /// The offset after the last record of a partition, at once.
    pub fn partition_leo_sync(&self, topic: &str, partition: i32) -> (r: Option<i64>)
        ensures
            r == match self@.logs.get((topic@, partition)) {
                Some(l) => Some(l.high_watermark),
                None => None,
            },
    {
        self.partition_leo(topic, partition)
    }

    /// The oldest offset of a partition.
    pub fn partition_log_start_sync(&self, topic: &str, partition: i32) -> (r: Option<i64>)
        ensures
            r == match self@.logs.get((topic@, partition)) {
                Some(l) => Some(l.log_start_offset),
                None => None,
            },
    {
        match logs_bounds(&self.logs, &(topic.to_string(), partition)) {
            Some((_, start)) => Some(start),
            None => None,
        }
    }

    /// All topics, in some order.
    pub fn topic_list(&self) -> (r: Vec<TopicInfo>)
        ensures
            exists|list: Seq<(Seq<char>, TopicModel)>| #[trigger]
                goes_through(list, self@.topics) && r.model() == values_of(list),
    {
        let all = topics_all(&self.topics);
        let ghost list = all.model();
        let mut out: Vec<TopicInfo> = Vec::new();
        let mut i: usize = 0;
        while i < all.len()
            invariant
                i <= all@.len(),
                list == all.model(),
                out.model() =~= values_of(list).take(i as int),
            decreases all@.len() - i,
        {
            let ghost before = out.model();
            out.push(copy_topic(&all[i].1));
            assert(list[i as int] == all@[i as int].model());
            assert(out.model() =~= before.push(values_of(list)[i as int]));
            i = i + 1;
        }
        assert(values_of(list).take(i as int) =~= values_of(list));
        assert(goes_through(list, self@.topics));
        out
    }

    /// The topic of a name.
    pub fn get_topic(&self, topic: &str) -> (r: Option<TopicInfo>)
        ensures
            r.model() == self@.topics.get(topic@),
    {
        topics_get(&self.topics, topic)
    }

    /// Whether there is a log for a partition.
    pub fn partition_exists(&self, topic: &str, partition: i32) -> (r: bool)
        ensures
            r == self@.logs.contains_key((topic@, partition)),
    {
        logs_bounds(&self.logs, &(topic.to_string(), partition)).is_some()
    }

    /// The number of topics.
    pub fn topic_count(&self) -> (r: usize)
        ensures
            r == self@.topics.dom().len(),
    {
        topics_len(&self.topics)
    }

    /// The number of partitions of a topic that does not say.
    pub fn default_partitions(&self) -> (r: i32)
        ensures
            r == default_partitions_of(self.config.num_partitions),
    {
        if self.config.num_partitions > 1 {
            self.config.num_partitions
        } else {
            1
        }
    }

    /// The number of partitions of a topic.
    pub fn partitions_of(&self, topic: &str) -> (r: i32)
        ensures
            r == match self@.topics.get(topic@) {
                Some(t) => t.partitions.len() as i32,
                None => 0,
            },
    {
        match topics_get(&self.topics, topic) {
            Some(t) => t.partitions.len() as i32,
            None => 0,
        }
    }
}

/// A number of partitions, at least one.
pub open spec fn default_partitions_of(n: i32) -> i32 {
    if n > 1 {
        n
    } else {
        1
    }
}

/// The second parts of pairs.
pub open spec fn values_of<V>(list: Seq<(Seq<char>, V)>) -> Seq<V> {
    Seq::new(list.len(), |i: int| list[i].1)
}

/// What an append of records comes to.
pub struct AppendOutcome {
    pub meta: MetaView,
    pub writes: Seq<WriteModel>,
    pub offsets: core::result::Result<Seq<(i64, i64)>, RecordsError>,
}

/// What an append of what was read of runs to a partition comes to.
pub open spec fn records_appended(
    m: MetaView,
    topic: Seq<char>,
    partition: i32,
    runs: Seq<RunModel>,
    writes: Seq<WriteModel>,
    now: i64,
) -> AppendOutcome {
    let k = (topic, partition);
    if m.logs.contains_key(k) {
        let st = append_all(
            append_start(m.logs[k], writes),
            runs,
            now,
        );
        AppendOutcome {
            meta: MetaView { logs: m.logs.insert(k, st.log), ..m },
            writes: st.writes,
            offsets: match st.err {
                None => Ok(offset_pairs(st.results)),
                Some(e) => Err(RecordsError::Storage(e)),
            },
        }
    } else {
        AppendOutcome { meta: m, writes, offsets: Err(RecordsError::NoPartition) }
    }
}

/// What an append of records returns and leaves behind, held against what it
/// should.
pub open spec fn outcome_says(
    out: AppendOutcome,
    meta: MetaView,
    writes: Seq<WriteModel>,
    r: core::result::Result<Vec<(i64, i64)>, RecordsError>,
) -> bool {
    &&& meta == out.meta
    &&& writes == out.writes
    &&& match r {
        Ok(v) => out.offsets == Ok::<Seq<(i64, i64)>, RecordsError>(v@),
        Err(e) => out.offsets == Err::<Seq<(i64, i64)>, RecordsError>(e),
    }
}

/// Whether there is nothing to read in a log from an offset on.
pub open spec fn nothing_at(l: LogView, start_offset: i64) -> bool {
    let k = segment_for(l.segments, start_offset);
    start_offset < l.log_start_offset || k < 0 || start_offset > l.segments[k].max_offset
}

/// Whether a position is one from which a log can be read for an offset.
pub open spec fn position_says(l: LogView, start_offset: i64, r: Option<(i64, u64)>) -> bool {
    match r {
        Some((base, p)) => {
            let s = l.segments[segment_for(l.segments, start_offset)];
            &&& !nothing_at(l, start_offset)
            &&& base == s.base_offset
            &&& indexed_at(s, start_offset, p)
            &&& sound(s) && indexable(s) ==> {
                &&& p <= s.log.len()
                &&& forall|max: int| #[trigger]
                    selected(s.log.skip(p as int), start_offset, max) == log_read(
                        l,
                        start_offset,
                        max,
                    )
            }
        },
        None => nothing_at(l, start_offset),
    }
}

/// What is read of a log out of the end of a segment's log.
pub open spec fn read_from_tail(l: LogView, start_offset: i64, max: int, tail: Seq<u8>) -> Seq<u8> {
    if nothing_at(l, start_offset) {
        Seq::empty()
    } else {
        selected(tail, start_offset, max)
    }
}

} // verus!
