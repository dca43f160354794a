//! What idempotent producers have written: for every producer, each of its
//! epochs and every partition the sequence numbers of the last batch that was
//! taken.
//!
//! The first batch of a producer's epoch in a partition is taken. After that, a
//! batch that begins with the number that the last one began with was sent again
//! and is refused as a duplicate. One that begins with the last number or with
//! the one behind it goes on from there and is taken. All others, from before or
//! beyond a gap, are refused as out of order.

use dashmap::DashMap;
use vstd::prelude::*;

use crate::protocol::error_codes;

verus! {

/// The id of a producer that is not idempotent.
pub const NO_PRODUCER_ID: i64 = -1;

/// How far a producer has come in a partition.
#[derive(Debug, Clone, Copy, PartialEq, Eq, Structural)]
pub struct ProducerPartitionState {
    /// The first sequence number of the last batch that was taken.
    pub last_base_sequence: i32,
    /// The last sequence number of that batch.
    pub last_sequence: i32,
}

/// A producer, its epoch and a partition of a topic.
pub type ProducerKey = (i64, i16, Seq<char>, i32);

/// How far producers have come, by their ids, their epochs and the partitions.
pub type ProducerStates = DashMap<(i64, i16, String, i32), ProducerPartitionState>;

/// What a map of producers holds.
pub uninterp spec fn states_view(m: ProducerStates) -> Map<ProducerKey, ProducerPartitionState>;

/// `DashMap::new`: holds nothing.
#[verifier::external_body]
fn states_new() -> (r: ProducerStates)
    ensures
        states_view(r).dom() == Set::<ProducerKey>::empty(),
{
    DashMap::new()
}

/// `DashMap::get`: the value of a key, if it has one.
#[verifier::external_body]
fn states_get(
    m: &ProducerStates,
    key: &(i64, i16, String, i32),
) -> (r: Option<ProducerPartitionState>)
    ensures
        r == states_view(*m).get((key.0, key.1, key.2@, key.3)),
{
    m.get(key).map(|e| *e.value())
}

/// `DashMap::insert`: gives a key a value in place of the one it had.
#[verifier::external_body]
fn states_insert(
    m: &mut ProducerStates,
    key: (i64, i16, String, i32),
    value: ProducerPartitionState,
)
    ensures
        states_view(*final(m)) == states_view(*old(m)).insert(
            (key.0, key.1, key.2@, key.3),
            value,
        ),
{
    m.insert(key, value);
}

/// Why a batch is refused, if it is.
pub open spec fn refusal(state: Option<ProducerPartitionState>, base_sequence: i32) -> Option<i16> {
    match state {
        None => None,
        Some(s) => if base_sequence == s.last_base_sequence {
            Some(error_codes::DUPLICATE_SEQUENCE_NUMBER)
        } else if s.last_sequence <= base_sequence <= s.last_sequence + 1 {
            None
        } else {
            Some(error_codes::OUT_OF_ORDER_SEQUENCE_NUMBER)
        },
    }
}

/// How far a producer has come after a batch.
pub open spec fn progress(base_sequence: i32, last_offset_delta: i32) -> ProducerPartitionState {
    ProducerPartitionState {
        last_base_sequence: base_sequence,
        last_sequence: (base_sequence + last_offset_delta) as i32,
    }
}

/// A batch that was taken is refused as a duplicate when it comes again.
pub proof fn law_retry_is_duplicate(base_sequence: i32, last_offset_delta: i32)
    ensures
        refusal(Some(progress(base_sequence, last_offset_delta)), base_sequence) == Some(
            error_codes::DUPLICATE_SEQUENCE_NUMBER,
        ),
{
}

/// The batch whose numbers go on where those of the last one ended is taken.
pub proof fn law_next_batch_is_taken(base_sequence: i32, last_offset_delta: i32)
    requires
        last_offset_delta >= 0,
        base_sequence + last_offset_delta < i32::MAX,
    ensures
        refusal(
            Some(progress(base_sequence, last_offset_delta)),
            (base_sequence + last_offset_delta + 1) as i32,
        ) is None,
{
}

/// A batch that goes on neither at the last number nor behind it is refused,
/// whether it comes from before or beyond a gap: as out of order, if it is not the
/// last batch once more.
pub proof fn law_stray_batch_is_refused(state: ProducerPartitionState, base_sequence: i32)
    requires
        base_sequence < state.last_sequence || base_sequence > state.last_sequence + 1,
    ensures
        refusal(Some(state), base_sequence) == if base_sequence == state.last_base_sequence {
            Some(error_codes::DUPLICATE_SEQUENCE_NUMBER)
        } else {
            Some(error_codes::OUT_OF_ORDER_SEQUENCE_NUMBER)
        },
{
}

/// The first batch of a producer's epoch in a partition is taken, whatever its
/// number.
pub proof fn law_first_batch_is_taken(
    states: Map<ProducerKey, ProducerPartitionState>,
    key: ProducerKey,
    base_sequence: i32,
)
    requires
        !states.contains_key(key),
    ensures
        refusal(states.get(key), base_sequence) is None,
{
}

/// An epoch of a producer in a partition stays where it is, whatever another
/// epoch, producer or partition does.
pub proof fn law_epochs_do_not_mix(
    states: Map<ProducerKey, ProducerPartitionState>,
    key: ProducerKey,
    other: ProducerKey,
    state: ProducerPartitionState,
    base_sequence: i32,
)
    requires
        key != other,
    ensures
        refusal(states.insert(other, state).get(key), base_sequence) == refusal(
            states.get(key),
            base_sequence,
        ),
{
}

/// What idempotent producers have written.
pub struct IdempotentStateManager {
    states: ProducerStates,
}

impl View for IdempotentStateManager {
    type V = Map<ProducerKey, ProducerPartitionState>;

    closed spec fn view(&self) -> Map<ProducerKey, ProducerPartitionState> {
        states_view(self.states)
    }
}

impl Default for IdempotentStateManager {
    fn default() -> (r: Self)
        ensures
            r@ == Map::<ProducerKey, ProducerPartitionState>::empty(),
    {
        let r = IdempotentStateManager { states: states_new() };
        assert(r@ =~= Map::empty());
        r
    }
}

impl IdempotentStateManager {
    pub fn new() -> (r: Self)
        ensures
            r@ == Map::<ProducerKey, ProducerPartitionState>::empty(),
    {
        let r = IdempotentStateManager { states: states_new() };
        assert(r@ =~= Map::empty());
        r
    }

    /// Takes note of a batch, or says by which error code it is refused. A
    /// producer that is not idempotent is refused nothing.
    pub fn validate_and_advance(
        &mut self,
        producer_id: i64,
        producer_epoch: i16,
        topic: &str,
        partition: i32,
        base_sequence: i32,
        last_offset_delta: i32,
    ) -> (r: core::result::Result<(), i16>)
        requires
            producer_id != NO_PRODUCER_ID && refusal(
                old(self)@.get((producer_id, producer_epoch, topic@, partition)),
                base_sequence,
            ) is None ==> i32::MIN <= base_sequence + last_offset_delta <= i32::MAX,
        ensures
            ({
                let key = (producer_id, producer_epoch, topic@, partition);
                let state = old(self)@.get(key);
                if producer_id == NO_PRODUCER_ID {
                    r is Ok && final(self)@ == old(self)@
                } else {
                    match refusal(state, base_sequence) {
                        Some(code) => r == Err::<(), i16>(code) && final(self)@ == old(self)@,
                        None => r is Ok && final(self)@ == old(self)@.insert(
                            key,
                            progress(base_sequence, last_offset_delta),
                        ),
                    }
                }
            }),
    {
        if producer_id == NO_PRODUCER_ID {
            return Ok(());
        }
        let key: (i64, i16, String, i32) = (
            producer_id,
            producer_epoch,
            topic.to_string(),
            partition,
        );
        match states_get(&self.states, &key) {
            None => {},
            Some(s) => {
                if base_sequence == s.last_base_sequence {
                    return Err(error_codes::DUPLICATE_SEQUENCE_NUMBER);
                }
                let next: i64 = s.last_sequence as i64 + 1;
                if base_sequence != s.last_sequence && base_sequence as i64 != next {
                    return Err(error_codes::OUT_OF_ORDER_SEQUENCE_NUMBER);
                }
            },
        }
        let state = ProducerPartitionState {
            last_base_sequence: base_sequence,
            last_sequence: base_sequence + last_offset_delta,
        };
        states_insert(&mut self.states, key, state);
        Ok(())
    }
}

} // verus!
