//! The internal topics: `__consumer_offsets` holds what consumer groups have
//! committed, and `__cluster_metadata` the changes of metadata.

use vstd::prelude::*;

use crate::server::metadata::{missing, with_topic, MetadataManager};

pub use crate::group::offset_store::CONSUMER_OFFSETS_TOPIC;

verus! {

/// The internal topic that holds changes of metadata.
pub const CLUSTER_METADATA_TOPIC: &'static str = "__cluster_metadata";

/// Sees to the internal topics.
pub struct InternalTopics;

impl InternalTopics {
    pub fn new() -> (r: Self)
        ensures
            r == InternalTopics,
    {
        InternalTopics
    }

    /// Creates the internal topics, if there are none: one of fifty partitions
    /// and one of a single partition. What is returned are the partitions of
    /// each that have to be opened.
    pub fn ensure_created(&self, metadata: &mut MetadataManager) -> (r: (Vec<i32>, Vec<i32>))
        requires
            old(metadata).wf(),
        ensures
            final(metadata).wf(),
            final(metadata).config == old(metadata).config,
            final(metadata)@ == with_topic(
                with_topic(old(metadata)@, CONSUMER_OFFSETS_TOPIC@, true),
                CLUSTER_METADATA_TOPIC@,
                true,
            ),
            r.0@ == missing(old(metadata)@, CONSUMER_OFFSETS_TOPIC@, 50),
            r.1@ == missing(old(metadata)@, CLUSTER_METADATA_TOPIC@, 1),
    {
        let ghost m = metadata@;
        let offsets = metadata.create_internal_topic(CONSUMER_OFFSETS_TOPIC, 50);
        let changes = metadata.create_internal_topic(CLUSTER_METADATA_TOPIC, 1);
        proof {
            lemma_missing_same_logs(
                m,
                with_topic(m, CONSUMER_OFFSETS_TOPIC@, true),
                CLUSTER_METADATA_TOPIC@,
                1,
            );
        }
        (offsets, changes)
    }
}

/// Which partitions have no log is a matter of the logs.
pub proof fn lemma_missing_same_logs(
    a: crate::server::metadata::MetaView,
    b: crate::server::metadata::MetaView,
    topic: Seq<char>,
    n: int,
)
    requires
        a.logs == b.logs,
    ensures
        missing(a, topic, n) == missing(b, topic, n),
    decreases n,
{
    if n > 0 {
        lemma_missing_same_logs(a, b, topic, n - 1);
    }
}

} // verus!
