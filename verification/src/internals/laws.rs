//! What holds of idempotent producers and of internal topics.

use vstd::prelude::*;

use crate::group::offset_store::CONSUMER_OFFSETS_TOPIC;
use crate::internals::idempotence::{progress, refusal, ProducerKey, ProducerPartitionState};
use crate::internals::topics::CLUSTER_METADATA_TOPIC;
use crate::server::metadata::{with_topic, MetaView};

verus! {

/// After a batch that was taken, only a batch is taken that begins at its last
/// number or right behind it: one from before, one beyond a gap, and the same batch
/// again are refused, the last as a duplicate.
pub proof fn law_what_is_taken_after_a_batch(base: i32, delta: i32, next: i32)
    requires
        delta >= 0,
        base + delta <= i32::MAX,
    ensures
        ({
            let r = refusal(Some(progress(base, delta)), next);
            &&& r is None <==> next != base && (next == base + delta || next == base + delta + 1)
            &&& next == base ==> r == Some(46i16)
            &&& next != base && next < base + delta ==> r == Some(45i16)
            &&& next > base + delta + 1 ==> r == Some(45i16)
        }),
{
}

/// Batches without a gap are all taken, however many: each begins right behind the
/// one before it.
pub proof fn law_batches_in_sequence_are_taken(base: i32, deltas: Seq<i32>)
    requires
        deltas.len() > 0,
        forall|i: int| 0 <= i < deltas.len() ==> #[trigger] deltas[i] >= 0,
        base + deltas.fold_left(0int, |n: int, d: i32| n + d + 1) <= i32::MAX,
    ensures
        ({
            let before = deltas.drop_last().fold_left(0int, |n: int, d: i32| n + d + 1);
            let next = base + before;
            &&& base <= next <= i32::MAX
            &&& deltas.len() > 1 ==> refusal(
                Some(
                    progress(
                        (next - deltas[deltas.len() - 2] - 1) as i32,
                        deltas[deltas.len() - 2],
                    ),
                ),
                next as i32,
            ) is None
        }),
{
    reveal(Seq::fold_left);
    let front = deltas.drop_last();
    let f = |n: int, d: i32| n + d + 1;
    lemma_sum_grows(front);
    assert(deltas[deltas.len() - 1] >= 0);
    assert(deltas.fold_left(0int, f) == front.fold_left(0int, f) + deltas.last() + 1);
    if deltas.len() > 1 {
        let k = deltas.len() - 2;
        assert(front.last() == deltas[k]);
        assert(deltas[k] >= 0);
        let less = front.drop_last();
        assert(front.fold_left(0int, f) == less.fold_left(0int, f) + front.last() + 1);
        assert forall|i: int| 0 <= i < less.len() implies #[trigger] less[i] >= 0 by {
            assert(less[i] == deltas[i]);
        }
        lemma_sum_grows(less);
    }
}

proof fn lemma_sum_grows(deltas: Seq<i32>)
    requires
        forall|i: int| 0 <= i < deltas.len() ==> #[trigger] deltas[i] >= 0,
    ensures
        deltas.fold_left(0int, |n: int, d: i32| n + d + 1) >= 0,
    decreases deltas.len(),
{
    reveal(Seq::fold_left);
    if deltas.len() > 0 {
        let front = deltas.drop_last();
        assert forall|i: int| 0 <= i < front.len() implies #[trigger] front[i] >= 0 by {
            assert(front[i] == deltas[i]);
        }
        lemma_sum_grows(front);
        assert(deltas[deltas.len() - 1] >= 0);
        assert(deltas.last() == deltas[deltas.len() - 1]);
    }
}

/// What a producer did in one partition, or in one epoch, decides nothing about
/// another.
pub proof fn law_partitions_do_not_mix(
    states: Map<ProducerKey, ProducerPartitionState>,
    id: i64,
    epoch: i16,
    topic: Seq<char>,
    p: i32,
    q: i32,
    state: ProducerPartitionState,
    base: i32,
)
    requires
        p != q,
    ensures
        refusal(states.insert((id, epoch, topic, p), state).get((id, epoch, topic, q)), base)
            == refusal(states.get((id, epoch, topic, q)), base),
        refusal(states.insert((id, epoch, topic, p), state).get((id, epoch, topic, p)), base)
            == refusal(Some(state), base),
{
}

/// The internal topics are internal, if they were not there before, and what was
/// there stays as it was.
pub proof fn law_internal_topics(m: MetaView, t: Seq<char>)
    ensures
        ({
            let w = with_topic(
                with_topic(m, CONSUMER_OFFSETS_TOPIC@, true),
                CLUSTER_METADATA_TOPIC@,
                true,
            );
            &&& w.topics.contains_key(CONSUMER_OFFSETS_TOPIC@)
            &&& w.topics.contains_key(CLUSTER_METADATA_TOPIC@)
            &&& !m.topics.contains_key(t) && w.topics.contains_key(t) ==> w.topics[t].is_internal
                && w.topics[t].name == t && w.topics[t].partitions.len() == 0
            &&& m.topics.contains_key(t) ==> w.topics.get(t) == m.topics.get(t)
            &&& w.logs == m.logs
        }),
{
}

} // verus!
