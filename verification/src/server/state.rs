//! The state that requests work on.

use std::sync::Arc;

use vstd::prelude::*;

use crate::config::BrokerConfig;
use crate::group::coordinator::GroupModel;
use crate::group::offset_store::{OffsetKey, OffsetModel, OffsetValue};
use crate::group::GroupCoordinator;
use crate::protocol::primitive::Modeled;
use crate::server::metadata::{MetaView, MetadataManager};
use crate::storage::segment::{SegmentWrite, WriteModel};

verus! {

/// What handles requests: the topics, the groups, and what the broker says of
/// itself.
pub struct RequestHandler {
    pub metadata: MetadataManager,
    pub groups: GroupCoordinator,
    pub broker_host: String,
    pub broker_port: i32,
    pub broker_id: i32,
}

/// The ids of idempotent producers. All handlers of a process draw on the same.
#[derive(Debug)]
pub struct ProducerIds {
    /// The id that the next producer gets.
    pub next: i64,
}

impl ProducerIds {
    /// No id given out.
    pub fn new() -> (r: Self)
        ensures
            r.next == 0,
    {
        ProducerIds { next: 0 }
    }

    /// Gives out an id. After the greatest comes the least.
    pub fn draw(&mut self) -> (r: i64)
        ensures
            r == old(self).next,
            final(self).next == old(self).next.wrapping_add(1),
    {
        let id = self.next;
        self.next = id.wrapping_add(1);
        id
    }
}

/// What a broker says of itself, and how it is set up.
pub struct Setup {
    pub host: Seq<char>,
    pub port: i32,
    pub id: i32,
    pub config: Arc<BrokerConfig>,
    /// The number of partitions of the topic that holds commits.
    pub offsets_partitions: i32,
}

/// The mathematical value of the state.
pub struct HandlerView {
    pub meta: MetaView,
    pub groups: Map<Seq<char>, GroupModel>,
    pub offsets: Map<OffsetKey, OffsetValue>,
}

impl View for RequestHandler {
    type V = HandlerView;

    open spec fn view(&self) -> HandlerView {
        HandlerView {
            meta: self.metadata@,
            groups: self.groups@,
            offsets: self.groups.offset_store@,
        }
    }
}

/// Bytes for a file of a partition.
#[derive(Debug)]
pub struct PartitionWrite {
    pub topic: String,
    pub partition: i32,
    pub write: SegmentWrite,
}

/// The mathematical value of bytes for a file of a partition.
pub struct PartitionWriteModel {
    pub topic: Seq<char>,
    pub partition: i32,
    pub write: WriteModel,
}

impl Modeled for PartitionWrite {
    type M = PartitionWriteModel;

    open spec fn model(&self) -> PartitionWriteModel {
        PartitionWriteModel {
            topic: self.topic@,
            partition: self.partition,
            write: self.write.model(),
        }
    }
}

/// The writes of a partition.
pub open spec fn writes_of(topic: Seq<char>, partition: i32, ws: Seq<WriteModel>) -> Seq<
    PartitionWriteModel,
> {
    Seq::new(
        ws.len(),
        |i: int| PartitionWriteModel { topic, partition, write: ws[i] },
    )
}

/// Puts writes behind others, marked with the partition they are for.
pub fn add_writes(
    out: &mut Vec<PartitionWrite>,
    topic: &str,
    partition: i32,
    writes: Vec<SegmentWrite>,
)
    ensures
        final(out).model() == old(out).model() + writes_of(topic@, partition, writes.model()),
{
    let ghost ws = writes.model();
    let ghost all = writes_of(topic@, partition, ws);
    let mut writes = writes;
    let n = writes.len();
    let mut i: usize = 0;
    assert(old(out).model() + all.take(0) =~= old(out).model());
    while i < n
        invariant
            i <= n,
            n == ws.len(),
            all == writes_of(topic@, partition, ws),
            writes@.len() == n - i,
            forall|j: int| 0 <= j < n - i ==> (#[trigger] writes@[j]).model() == ws[i + j],
            out.model() == old(out).model() + all.take(i as int),
        decreases n - i,
    {
        let ghost before = out.model();
        let write = writes.remove(0);
        assert(write.model() == ws[i as int]);
        out.push(PartitionWrite { topic: topic.to_string(), partition, write });
        assert(out.model() =~= before.push(all[i as int]));
        assert(out.model() =~= old(out).model() + all.take(i as int + 1));
        i = i + 1;
    }
    assert(all.take(i as int) =~= all);
}

impl RequestHandler {
    /// Whether the topics and the groups are in order.
    pub open spec fn wf(&self) -> bool {
        self.metadata.wf() && self.groups.wf()
    }

    /// How the broker is set up.
    pub open spec fn setup(&self) -> Setup {
        Setup {
            host: self.broker_host@,
            port: self.broker_port,
            id: self.broker_id,
            config: self.metadata.config,
            offsets_partitions: self.groups.offset_store.offsets_topic_partitions,
        }
    }

    /// The commits in the order in which they are kept.
    pub open spec fn commit_list(&self) -> Seq<OffsetModel> {
        self.groups.offset_store.cache.model()
    }

    /// A broker that says it is number zero, at the default address.
    pub fn new(metadata: MetadataManager, groups: GroupCoordinator) -> (r: Self)
        requires
            metadata.wf(),
            groups.wf(),
        ensures
            r.wf(),
            r@ == (HandlerView {
                meta: metadata@,
                groups: groups@,
                offsets: groups.offset_store@,
            }),
            r.setup() == (Setup {
                host: "127.0.0.1"@,
                port: 9092,
                id: 0,
                config: metadata.config,
                offsets_partitions: groups.offset_store.offsets_topic_partitions,
            }),
            r.groups == groups,
            r.metadata == metadata,
    {
        RequestHandler {
            metadata,
            groups,
            broker_host: "127.0.0.1".to_string(),
            broker_port: 9092,
            broker_id: 0,
        }
    }
}

} // verus!
