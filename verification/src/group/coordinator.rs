//! The coordinator of consumer groups.
//!
//! A group goes from `Empty` through `PreparingRebalance` and
//! `CompletingRebalance` to `Stable`. What a request does to a group is
//! described by functions on a [`GroupModel`], the group as a mathematical
//! value, in which the clock stands as the nanoseconds since the coordinator
//! was made.

use std::time::Instant;

use bytes::Bytes;
use dashmap::DashMap;
use vstd::prelude::*;
use vstd::string::StringExecFns;

use crate::buf;
use crate::buf::bytes_view;
use crate::clock;
use crate::group::offset_store::{
    after_runs, commit_outcome, group_partition, has_string, stable_hash, OffsetKey, OffsetModel,
    OffsetStore, OffsetValue, CONSUMER_OFFSETS_TOPIC, DEFAULT_OFFSETS_PARTITIONS,
};
use crate::maps::goes_through;
use crate::protocol::error_codes;
use crate::protocol::primitive::Modeled;
use crate::protocol::run::{all_read, RunModel};
use crate::server::metadata::{missing, with_topic, MetadataManager, RecordsError};
use crate::storage::segment::SegmentWrite;
use crate::text;

verus! {

/// Where a group is on its way to an assignment.
#[derive(Debug, Clone, Copy, PartialEq, Eq, Structural)]
pub enum GroupState {
    Empty,
    PreparingRebalance,
    CompletingRebalance,
    Stable,
}

/// A member of a group.
#[derive(Debug, Clone)]
pub struct Member {
    pub member_id: String,
    pub session_timeout_ms: i32,
    pub rebalance_timeout_ms: i32,
    /// The protocols that the member offers, each with its metadata.
    pub protocols: Vec<(String, Bytes)>,
    /// When the member was last heard of.
    pub last_heartbeat: u128,
    pub assignment: Bytes,
    /// The metadata of the first protocol.
    pub metadata: Bytes,
}

/// A consumer group.
#[derive(Debug, Clone)]
pub struct Group {
    pub group_id: String,
    pub state: GroupState,
    pub generation_id: i32,
    pub leader_id: Option<String>,
    pub protocol: Option<String>,
    /// The members, in the order in which they came.
    pub members: Vec<Member>,
    pub protocol_type: String,
}

/// The mathematical value of a member.
pub struct MemberModel {
    pub member_id: Seq<char>,
    pub session_timeout_ms: i32,
    pub rebalance_timeout_ms: i32,
    pub protocols: Seq<(Seq<char>, Seq<u8>)>,
    pub last_heartbeat: u128,
    pub assignment: Seq<u8>,
    pub metadata: Seq<u8>,
}

/// The mathematical value of a group.
pub struct GroupModel {
    pub group_id: Seq<char>,
    pub state: GroupState,
    pub generation_id: i32,
    pub leader_id: Option<Seq<char>>,
    pub protocol: Option<Seq<char>>,
    pub members: Seq<MemberModel>,
    pub protocol_type: Seq<char>,
}

impl Modeled for Member {
    type M = MemberModel;

    open spec fn model(&self) -> MemberModel {
        MemberModel {
            member_id: self.member_id@,
            session_timeout_ms: self.session_timeout_ms,
            rebalance_timeout_ms: self.rebalance_timeout_ms,
            protocols: self.protocols.model(),
            last_heartbeat: self.last_heartbeat,
            assignment: bytes_view(self.assignment),
            metadata: bytes_view(self.metadata),
        }
    }
}

impl Modeled for Group {
    type M = GroupModel;

    open spec fn model(&self) -> GroupModel {
        GroupModel {
            group_id: self.group_id@,
            state: self.state,
            generation_id: self.generation_id,
            leader_id: self.leader_id.model(),
            protocol: self.protocol.model(),
            members: self.members.model(),
            protocol_type: self.protocol_type@,
        }
    }
}

// ---------------------------------------------------------------------------
// What requests do to a group

/// A group without members.
pub open spec fn new_group(group_id: Seq<char>) -> GroupModel {
    GroupModel {
        group_id,
        state: GroupState::Empty,
        generation_id: 0,
        leader_id: None,
        protocol: None,
        members: Seq::empty(),
        protocol_type: Seq::empty(),
    }
}

/// The place of the member with an id, or -1.
pub open spec fn member_at(ms: Seq<MemberModel>, id: Seq<char>) -> int
    decreases ms.len(),
{
    if ms.len() == 0 {
        -1
    } else if ms.last().member_id == id {
        ms.len() - 1
    } else {
        member_at(ms.drop_last(), id)
    }
}

/// Whether there is a member with an id.
pub open spec fn has_member(ms: Seq<MemberModel>, id: Seq<char>) -> bool {
    member_at(ms, id) >= 0
}

/// The members with one added, in place of the one with the same id if there is
/// one.
pub open spec fn with_member(ms: Seq<MemberModel>, m: MemberModel) -> Seq<MemberModel> {
    let k = member_at(ms, m.member_id);
    if k >= 0 {
        ms.update(k, m)
    } else {
        ms.push(m)
    }
}

/// The members that do not have an id.
pub open spec fn without_member(ms: Seq<MemberModel>, id: Seq<char>) -> Seq<MemberModel>
    decreases ms.len(),
{
    if ms.len() == 0 {
        Seq::empty()
    } else {
        let before = without_member(ms.drop_last(), id);
        if ms.last().member_id == id {
            before
        } else {
            before.push(ms.last())
        }
    }
}

/// Whether a member was not heard of for longer than its session may be silent.
pub open spec fn overdue(m: MemberModel, now: u128) -> bool {
    &&& m.session_timeout_ms >= 0
    &&& now > m.last_heartbeat
    &&& (now - m.last_heartbeat) / 1_000_000 > m.session_timeout_ms
}

/// The members that are not overdue.
pub open spec fn alive(ms: Seq<MemberModel>, now: u128) -> Seq<MemberModel>
    decreases ms.len(),
{
    if ms.len() == 0 {
        Seq::empty()
    } else {
        let before = alive(ms.drop_last(), now);
        if overdue(ms.last(), now) {
            before
        } else {
            before.push(ms.last())
        }
    }
}

/// The id that the coordinator gives a member.
pub open spec fn given_id(group_id: Seq<char>, n: nat) -> Seq<char> {
    "rivine-"@ + group_id + "-"@ + text::decimal_nat(n)
}

/// A request to join.
pub struct JoinModel {
    pub group_id: Seq<char>,
    pub session_timeout_ms: i32,
    pub rebalance_timeout_ms: i32,
    pub member_id: Seq<char>,
    pub protocol_type: Seq<char>,
    pub protocols: Seq<(Seq<char>, Seq<u8>)>,
}

/// The answer to a request to join.
pub struct JoinAnswer {
    pub error_code: i16,
    pub generation_id: i32,
    pub leader: Seq<char>,
    pub member_id: Seq<char>,
    pub protocol: Option<Seq<char>>,
    pub members: Seq<(Seq<char>, Seq<u8>)>,
}

/// A refusal to let a member join.
pub open spec fn join_refused(error_code: i16) -> JoinAnswer {
    JoinAnswer {
        error_code,
        generation_id: 0,
        leader: Seq::empty(),
        member_id: Seq::empty(),
        protocol: None,
        members: Seq::empty(),
    }
}

/// Why a request to join is refused, if it is.
pub open spec fn join_refusal(g: Option<GroupModel>, req: JoinModel) -> Option<i16> {
    let t = match g {
        Some(g) => g.protocol_type,
        None => Seq::empty(),
    };
    if req.session_timeout_ms < 0 {
        Some(error_codes::INVALID_SESSION_TIMEOUT)
    } else if (t.len() > 0 && t != req.protocol_type) || req.protocols.len() == 0 {
        Some(error_codes::INCONSISTENT_GROUP_PROTOCOL)
    } else {
        None
    }
}

/// The group of a request, a new one if there is none.
pub open spec fn group_or_new(g: Option<GroupModel>, group_id: Seq<char>) -> GroupModel {
    match g {
        Some(g) => g,
        None => new_group(group_id),
    }
}

/// The id under which a member joins.
pub open spec fn joining_id(g: GroupModel, req: JoinModel, now: u128) -> Seq<char> {
    if req.member_id.len() == 0 {
        given_id(req.group_id, alive(g.members, now).len() + 1)
    } else {
        req.member_id
    }
}

/// The group after a member joined.
pub open spec fn after_join(g: GroupModel, req: JoinModel, now: u128) -> GroupModel {
    let members = alive(g.members, now);
    let id = joining_id(g, req, now);
    let fresh = !has_member(members, id);
    let m = MemberModel {
        member_id: id,
        session_timeout_ms: req.session_timeout_ms,
        rebalance_timeout_ms: req.rebalance_timeout_ms,
        protocols: req.protocols,
        last_heartbeat: now,
        assignment: Seq::empty(),
        metadata: req.protocols[0].1,
    };
    GroupModel {
        group_id: g.group_id,
        state: GroupState::CompletingRebalance,
        generation_id: g.generation_id.wrapping_add(1),
        leader_id: if fresh || g.leader_id is None {
            Some(id)
        } else {
            g.leader_id
        },
        protocol: if fresh {
            None
        } else {
            g.protocol
        },
        members: with_member(members, m),
        protocol_type: req.protocol_type,
    }
}

/// The name of the first protocol of the first member.
pub open spec fn first_protocol(ms: Seq<MemberModel>) -> Option<Seq<char>> {
    if ms.len() > 0 && ms[0].protocols.len() > 0 {
        Some(ms[0].protocols[0].0)
    } else {
        None
    }
}

/// The members' ids with their metadata.
pub open spec fn roster(ms: Seq<MemberModel>) -> Seq<(Seq<char>, Seq<u8>)> {
    Seq::new(ms.len(), |i: int| (ms[i].member_id, ms[i].metadata))
}

/// The answer to a member that joined.
pub open spec fn join_answer(g: GroupModel, req: JoinModel, now: u128) -> JoinAnswer {
    let h = after_join(g, req, now);
    JoinAnswer {
        error_code: 0,
        generation_id: h.generation_id,
        leader: h.leader_id->Some_0,
        member_id: joining_id(g, req, now),
        protocol: first_protocol(h.members),
        members: roster(h.members),
    }
}

/// Why a request of a member is refused, if it is.
pub open spec fn member_refusal(
    g: Option<GroupModel>,
    generation_id: i32,
    member_id: Seq<char>,
) -> Option<i16> {
    match g {
        None => Some(error_codes::NOT_COORDINATOR),
        Some(g) => if g.generation_id != generation_id {
            Some(error_codes::ILLEGAL_GENERATION)
        } else if !has_member(g.members, member_id) {
            Some(error_codes::UNKNOWN_MEMBER_ID)
        } else {
            None
        },
    }
}

/// The members after one of them was assigned something.
pub open spec fn assigned_one(ms: Seq<MemberModel>, a: (Seq<char>, Seq<u8>)) -> Seq<MemberModel> {
    let k = member_at(ms, a.0);
    if k >= 0 {
        ms.update(k, MemberModel { assignment: a.1, ..ms[k] })
    } else {
        ms
    }
}

/// The members after assignments were handed out, in their order.
pub open spec fn assigned(ms: Seq<MemberModel>, given: Seq<(Seq<char>, Seq<u8>)>) -> Seq<
    MemberModel,
>
    decreases given.len(),
{
    if given.len() == 0 {
        ms
    } else {
        assigned_one(assigned(ms, given.drop_last()), given.last())
    }
}

/// The group after a member asked for its assignment. Only the leader's
/// assignments count.
pub open spec fn after_sync(
    g: GroupModel,
    member_id: Seq<char>,
    given: Seq<(Seq<char>, Seq<u8>)>,
) -> GroupModel {
    GroupModel {
        state: GroupState::Stable,
        members: if g.leader_id == Some(member_id) {
            assigned(g.members, given)
        } else {
            g.members
        },
        ..g
    }
}

/// The group after a member was heard of.
pub open spec fn after_heartbeat(g: GroupModel, member_id: Seq<char>, now: u128) -> GroupModel {
    let k = member_at(g.members, member_id);
    GroupModel {
        members: g.members.update(k, MemberModel { last_heartbeat: now, ..g.members[k] }),
        ..g
    }
}

/// The group after a member left.
pub open spec fn after_leave(g: GroupModel, member_id: Seq<char>) -> GroupModel {
    let members = without_member(g.members, member_id);
    GroupModel {
        members,
        state: if members.len() == 0 {
            GroupState::Empty
        } else {
            GroupState::PreparingRebalance
        },
        ..g
    }
}

/// The group after members that are overdue were dropped.
pub open spec fn after_expiry(g: GroupModel, now: u128) -> GroupModel {
    let members = alive(g.members, now);
    if members.len() == g.members.len() {
        g
    } else if members.len() == 0 {
        GroupModel { members, state: GroupState::Empty, ..g }
    } else {
        GroupModel {
            members,
            state: GroupState::PreparingRebalance,
            leader_id: None,
            protocol: None,
            ..g
        }
    }
}

/// Why a group's commit is refused, if it is. A consumer that is in no group,
/// and a group that the coordinator does not know, are refused nothing.
pub open spec fn commit_refusal_of(
    g: Option<GroupModel>,
    generation_id: i32,
    member_id: Seq<char>,
) -> Option<i16> {
    if generation_id == -1 && member_id.len() == 0 {
        None
    } else {
        match g {
            None => None,
            Some(g) => if g.generation_id != generation_id {
                Some(error_codes::ILLEGAL_GENERATION)
            } else if !has_member(g.members, member_id) {
                Some(error_codes::UNKNOWN_MEMBER_ID)
            } else if g.state != GroupState::Stable {
                Some(error_codes::REBALANCE_IN_PROGRESS)
            } else {
                None
            },
        }
    }
}

/// The name of a state.
pub open spec fn state_name(s: GroupState) -> Seq<char> {
    match s {
        GroupState::Empty => "Empty"@,
        GroupState::PreparingRebalance => "PreparingRebalance"@,
        GroupState::CompletingRebalance => "CompletingRebalance"@,
        GroupState::Stable => "Stable"@,
    }
}

// ---------------------------------------------------------------------------
// Laws

/// Whether no id occurs twice among members.
pub open spec fn distinct_members(ms: Seq<MemberModel>) -> bool {
    forall|i: int, j: int|
        0 <= i < j < ms.len() ==> (#[trigger] ms[i]).member_id != (#[trigger] ms[j]).member_id
}

pub proof fn lemma_member_at(ms: Seq<MemberModel>, id: Seq<char>)
    ensures
        -1 <= member_at(ms, id) < ms.len(),
        member_at(ms, id) >= 0 ==> ms[member_at(ms, id)].member_id == id,
        member_at(ms, id) < 0 ==> forall|i: int|
            0 <= i < ms.len() ==> (#[trigger] ms[i]).member_id != id,
    decreases ms.len(),
{
    if ms.len() > 0 {
        let front = ms.drop_last();
        lemma_member_at(front, id);
        if ms.last().member_id != id && member_at(front, id) < 0 {
            assert forall|i: int| 0 <= i < ms.len() implies (#[trigger] ms[i]).member_id != id by {
                if i < front.len() {
                    assert(front[i] == ms[i]);
                }
            }
        }
    }
}

proof fn lemma_found(ms: Seq<MemberModel>, id: Seq<char>, k: int)
    requires
        0 <= k < ms.len(),
        ms[k].member_id == id,
    ensures
        has_member(ms, id),
{
    lemma_member_at(ms, id);
}

proof fn lemma_updated_stays_distinct(ms: Seq<MemberModel>, k: int, m: MemberModel)
    requires
        distinct_members(ms),
        0 <= k < ms.len(),
        m.member_id == ms[k].member_id,
    ensures
        distinct_members(ms.update(k, m)),
{
    let us = ms.update(k, m);
    assert forall|i: int, j: int| 0 <= i < j < us.len() implies (#[trigger] us[i]).member_id != (
    #[trigger] us[j]).member_id by {
        assert(ms[i].member_id != ms[j].member_id);
    }
}

proof fn lemma_pushed_stays_distinct(ms: Seq<MemberModel>, m: MemberModel)
    requires
        distinct_members(ms),
        forall|i: int| 0 <= i < ms.len() ==> (#[trigger] ms[i]).member_id != m.member_id,
    ensures
        distinct_members(ms.push(m)),
{
}

proof fn lemma_alive_stays_distinct(ms: Seq<MemberModel>, now: u128)
    requires
        distinct_members(ms),
    ensures
        distinct_members(alive(ms, now)),
        forall|i: int| 0 <= i < alive(ms, now).len() ==> ms.contains(#[trigger] alive(ms, now)[i]),
    decreases ms.len(),
{
    if ms.len() > 0 {
        let front = ms.drop_last();
        let before = alive(front, now);
        assert(forall|i: int| 0 <= i < front.len() ==> #[trigger] front[i] == ms[i]);
        lemma_alive_stays_distinct(front, now);
        assert forall|i: int| 0 <= i < before.len() implies ms.contains(#[trigger] before[i])
            && before[i].member_id != ms.last().member_id by {
            let j = choose|j: int| 0 <= j < front.len() && front[j] == before[i];
            assert(ms[j] == before[i]);
            assert(ms[j].member_id != ms[ms.len() - 1].member_id);
        }
        lemma_pushed_stays_distinct(before, ms.last());
        assert(ms[ms.len() - 1] == ms.last());
        assert(forall|i: int|
            0 <= i < before.len() ==> before.push(ms.last())[i] == #[trigger] before[i]);
    }
}

proof fn lemma_without_stays_distinct(ms: Seq<MemberModel>, id: Seq<char>)
    requires
        distinct_members(ms),
    ensures
        distinct_members(without_member(ms, id)),
        forall|i: int|
            0 <= i < without_member(ms, id).len() ==> ms.contains(
                #[trigger] without_member(ms, id)[i],
            ),
    decreases ms.len(),
{
    if ms.len() > 0 {
        let front = ms.drop_last();
        let before = without_member(front, id);
        assert(forall|i: int| 0 <= i < front.len() ==> #[trigger] front[i] == ms[i]);
        lemma_without_stays_distinct(front, id);
        assert forall|i: int| 0 <= i < before.len() implies ms.contains(#[trigger] before[i])
            && before[i].member_id != ms.last().member_id by {
            let j = choose|j: int| 0 <= j < front.len() && front[j] == before[i];
            assert(ms[j] == before[i]);
            assert(ms[j].member_id != ms[ms.len() - 1].member_id);
        }
        lemma_pushed_stays_distinct(before, ms.last());
        assert(ms[ms.len() - 1] == ms.last());
        assert(forall|i: int|
            0 <= i < before.len() ==> before.push(ms.last())[i] == #[trigger] before[i]);
    }
}

/// No request makes a member occur twice in its group.
pub proof fn law_members_stay_distinct(
    g: GroupModel,
    req: JoinModel,
    member_id: Seq<char>,
    given: Seq<(Seq<char>, Seq<u8>)>,
    now: u128,
)
    requires
        distinct_members(g.members),
    ensures
        distinct_members(after_join(g, req, now).members),
        distinct_members(after_sync(g, member_id, given).members),
        has_member(g.members, member_id) ==> distinct_members(
            after_heartbeat(g, member_id, now).members,
        ),
        distinct_members(after_leave(g, member_id).members),
        distinct_members(after_expiry(g, now).members),
{
    let ms = alive(g.members, now);
    let id = joining_id(g, req, now);
    let joined = after_join(g, req, now).members;
    lemma_alive_stays_distinct(g.members, now);
    lemma_member_at(ms, id);
    let k = member_at(ms, id);
    if k >= 0 {
        lemma_updated_stays_distinct(ms, k, joined[k]);
    } else {
        lemma_pushed_stays_distinct(ms, joined.last());
    }
    lemma_assigned_ids(g.members, given);
    let us = assigned(g.members, given);
    assert forall|i: int, j: int| 0 <= i < j < us.len() implies (#[trigger] us[i]).member_id != (
    #[trigger] us[j]).member_id by {
        assert(g.members[i].member_id != g.members[j].member_id);
    }
    lemma_member_at(g.members, member_id);
    let h = member_at(g.members, member_id);
    if h >= 0 {
        lemma_updated_stays_distinct(
            g.members,
            h,
            MemberModel { last_heartbeat: now, ..g.members[h] },
        );
    }
    lemma_without_stays_distinct(g.members, member_id);
}

/// Whether the metadata of each member is that of its first protocol.
pub open spec fn all_announce(ms: Seq<MemberModel>) -> bool {
    forall|i: int|
        0 <= i < ms.len() ==> (#[trigger] ms[i]).protocols.len() > 0 && ms[i].metadata
            == ms[i].protocols[0].1
}

proof fn lemma_alive_announce(ms: Seq<MemberModel>, now: u128)
    requires
        all_announce(ms),
    ensures
        all_announce(alive(ms, now)),
    decreases ms.len(),
{
    if ms.len() > 0 {
        assert(forall|i: int|
            0 <= i < ms.drop_last().len() ==> #[trigger] ms.drop_last()[i] == ms[i]);
        lemma_alive_announce(ms.drop_last(), now);
        assert(ms.last() == ms[ms.len() - 1]);
    }
}

proof fn lemma_without_announce(ms: Seq<MemberModel>, id: Seq<char>)
    requires
        all_announce(ms),
    ensures
        all_announce(without_member(ms, id)),
    decreases ms.len(),
{
    if ms.len() > 0 {
        assert(forall|i: int|
            0 <= i < ms.drop_last().len() ==> #[trigger] ms.drop_last()[i] == ms[i]);
        lemma_without_announce(ms.drop_last(), id);
        assert(ms.last() == ms[ms.len() - 1]);
    }
}

proof fn lemma_assigned_announce(ms: Seq<MemberModel>, given: Seq<(Seq<char>, Seq<u8>)>)
    requires
        all_announce(ms),
    ensures
        all_announce(assigned(ms, given)),
    decreases given.len(),
{
    if given.len() > 0 {
        lemma_assigned_announce(ms, given.drop_last());
        lemma_member_at(assigned(ms, given.drop_last()), given.last().0);
    }
}

/// Whatever is asked for, the metadata of each member stays that of its first
/// protocol. A request to join that is not refused has one.
pub proof fn law_metadata_stays_announced(
    g: GroupModel,
    req: JoinModel,
    member_id: Seq<char>,
    given: Seq<(Seq<char>, Seq<u8>)>,
    now: u128,
)
    requires
        all_announce(g.members),
    ensures
        req.protocols.len() > 0 ==> all_announce(after_join(g, req, now).members),
        all_announce(after_sync(g, member_id, given).members),
        has_member(g.members, member_id) ==> all_announce(
            after_heartbeat(g, member_id, now).members,
        ),
        all_announce(after_leave(g, member_id).members),
        all_announce(after_expiry(g, now).members),
{
    lemma_alive_announce(g.members, now);
    lemma_member_at(alive(g.members, now), joining_id(g, req, now));
    lemma_assigned_announce(g.members, given);
    lemma_member_at(g.members, member_id);
    lemma_without_announce(g.members, member_id);
}

/// A member that joins is told of every member the metadata of its first
/// protocol.
pub proof fn law_roster_is_announced(g: GroupModel, req: JoinModel, now: u128, i: int)
    requires
        all_announce(g.members),
        req.protocols.len() > 0,
        0 <= i < after_join(g, req, now).members.len(),
    ensures
        ({
            let m = after_join(g, req, now).members[i];
            join_answer(g, req, now).members[i] == (m.member_id, m.protocols[0].1)
        }),
{
    law_metadata_stays_announced(g, req, Seq::empty(), Seq::empty(), now);
}

/// Whether every group stands under its id, has no member twice, and keeps of
/// each member the metadata of its first protocol.
pub open spec fn groups_wf(m: Map<Seq<char>, GroupModel>) -> bool {
    forall|k: Seq<char>| #[trigger]
        m.contains_key(k) ==> m[k].group_id == k && distinct_members(m[k].members)
            && all_announce(m[k].members)
}

/// A member that joined is in the group, under the id it was told, and the
/// group has a leader.
pub proof fn law_joined_is_member(g: GroupModel, req: JoinModel, now: u128)
    ensures
        has_member(after_join(g, req, now).members, joining_id(g, req, now)),
        after_join(g, req, now).leader_id is Some,
        after_join(g, req, now).state == GroupState::CompletingRebalance,
{
    let members = alive(g.members, now);
    let id = joining_id(g, req, now);
    lemma_member_at(members, id);
    let k = member_at(members, id);
    let after = after_join(g, req, now).members;
    if k >= 0 {
        lemma_found(after, id, k);
    } else {
        lemma_found(after, id, members.len() as int);
    }
}

/// Every join begins a new generation.
pub proof fn law_join_begins_generation(g: GroupModel, req: JoinModel, now: u128)
    requires
        g.generation_id < i32::MAX,
    ensures
        after_join(g, req, now).generation_id == g.generation_id + 1,
        join_answer(g, req, now).generation_id == g.generation_id + 1,
{
}

/// A member of an earlier generation is refused, whatever it asks for.
pub proof fn law_old_generation_is_refused(
    g: GroupModel,
    req: JoinModel,
    now: u128,
    member_id: Seq<char>,
)
    requires
        g.generation_id < i32::MAX,
        g.generation_id >= 0,
    ensures
        member_refusal(Some(after_join(g, req, now)), g.generation_id, member_id) == Some(
            error_codes::ILLEGAL_GENERATION,
        ),
        commit_refusal_of(Some(after_join(g, req, now)), g.generation_id, member_id) == Some(
            error_codes::ILLEGAL_GENERATION,
        ),
{
}

/// A commit during a rebalance is refused: between a join and the sync that
/// follows it, even to the member that joined.
pub proof fn law_commit_waits_for_sync(g: GroupModel, req: JoinModel, now: u128)
    requires
        g.generation_id < i32::MAX,
        g.generation_id >= 0,
    ensures
        ({
            let h = after_join(g, req, now);
            let id = joining_id(g, req, now);
            &&& commit_refusal_of(Some(h), h.generation_id, id) == Some(
                error_codes::REBALANCE_IN_PROGRESS,
            )
            &&& forall|given: Seq<(Seq<char>, Seq<u8>)>| #[trigger]
                commit_refusal_of(Some(after_sync(h, id, given)), h.generation_id, id) is None
        }),
{
    law_joined_is_member(g, req, now);
    let h = after_join(g, req, now);
    let id = joining_id(g, req, now);
    assert forall|given: Seq<(Seq<char>, Seq<u8>)>| #[trigger]
        commit_refusal_of(Some(after_sync(h, id, given)), h.generation_id, id) is None by {
        lemma_assigned_ids(h.members, given);
        lemma_same_ids(h.members, assigned(h.members, given), id);
    }
}

pub proof fn lemma_assigned_ids(ms: Seq<MemberModel>, given: Seq<(Seq<char>, Seq<u8>)>)
    ensures
        assigned(ms, given).len() == ms.len(),
        forall|i: int|
            0 <= i < ms.len() ==> (#[trigger] assigned(ms, given)[i]).member_id == ms[i].member_id,
    decreases given.len(),
{
    if given.len() > 0 {
        lemma_assigned_ids(ms, given.drop_last());
        lemma_member_at(assigned(ms, given.drop_last()), given.last().0);
    }
}

pub proof fn lemma_same_ids(a: Seq<MemberModel>, b: Seq<MemberModel>, id: Seq<char>)
    requires
        a.len() == b.len(),
        forall|i: int| 0 <= i < a.len() ==> (#[trigger] a[i]).member_id == b[i].member_id,
    ensures
        member_at(a, id) == member_at(b, id),
    decreases a.len(),
{
    if a.len() > 0 {
        assert(a.last() == a[a.len() - 1]);
        assert forall|i: int| 0 <= i < a.len() - 1 implies (
        #[trigger] a.drop_last()[i]).member_id == b.drop_last()[i].member_id by {
            assert(a[i].member_id == b[i].member_id);
        }
        lemma_same_ids(a.drop_last(), b.drop_last(), id);
    }
}

/// What the leader assigns a member last is what the member is told.
pub proof fn law_assignment_arrives(
    ms: Seq<MemberModel>,
    given: Seq<(Seq<char>, Seq<u8>)>,
    k: int,
)
    requires
        0 <= k < given.len(),
        has_member(ms, given[k].0),
        forall|j: int| k < j < given.len() ==> (#[trigger] given[j]).0 != given[k].0,
    ensures
        has_member(assigned(ms, given), given[k].0),
        assigned(ms, given)[member_at(assigned(ms, given), given[k].0)].assignment == given[k].1,
    decreases given.len(),
{
    let front = given.drop_last();
    let before = assigned(ms, front);
    let id = given[k].0;
    lemma_assigned_ids(ms, front);
    lemma_same_ids(ms, before, id);
    lemma_assigned_ids(ms, given);
    lemma_same_ids(ms, assigned(ms, given), id);
    lemma_member_at(before, given.last().0);
    lemma_member_at(before, id);
    if k < given.len() - 1 {
        assert(forall|j: int| k < j < front.len() ==> (#[trigger] front[j]).0 == given[j].0);
        law_assignment_arrives(ms, front, k);
        assert(given[given.len() - 1].0 != id);
    }
}

proof fn lemma_without(ms: Seq<MemberModel>, id: Seq<char>)
    ensures
        forall|i: int|
            0 <= i < without_member(ms, id).len() ==> (#[trigger] without_member(
                ms,
                id,
            )[i]).member_id != id,
    decreases ms.len(),
{
    if ms.len() > 0 {
        lemma_without(ms.drop_last(), id);
        let before = without_member(ms.drop_last(), id);
        assert(forall|i: int|
            0 <= i < before.len() ==> #[trigger] without_member(ms, id)[i] == before[i]);
    }
}

/// A member that left is gone, and the group has to rebalance unless it is
/// empty.
pub proof fn law_left_is_gone(g: GroupModel, member_id: Seq<char>)
    ensures
        !has_member(after_leave(g, member_id).members, member_id),
        after_leave(g, member_id).state == if after_leave(g, member_id).members.len() == 0 {
            GroupState::Empty
        } else {
            GroupState::PreparingRebalance
        },
{
    let ms = without_member(g.members, member_id);
    lemma_without(g.members, member_id);
    lemma_member_at(ms, member_id);
}

pub proof fn lemma_alive(ms: Seq<MemberModel>, now: u128)
    ensures
        alive(ms, now).len() <= ms.len(),
        forall|i: int|
            0 <= i < alive(ms, now).len() ==> !overdue(#[trigger] alive(ms, now)[i], now),
        alive(ms, now).len() == ms.len() ==> alive(ms, now) == ms,
    decreases ms.len(),
{
    if ms.len() > 0 {
        lemma_alive(ms.drop_last(), now);
        if alive(ms, now).len() == ms.len() {
            assert(ms.drop_last().push(ms.last()) =~= ms);
        }
    }
}

/// No member that is overdue outlives a cleanup, and a group that lost members
/// has to rebalance unless it is empty.
pub proof fn law_overdue_are_dropped(g: GroupModel, now: u128)
    ensures
        forall|i: int|
            0 <= i < after_expiry(g, now).members.len() ==> !overdue(
                #[trigger] after_expiry(g, now).members[i],
                now,
            ),
        after_expiry(g, now).members.len() < g.members.len() ==> after_expiry(g, now).state
            == if after_expiry(g, now).members.len() == 0 {
            GroupState::Empty
        } else {
            GroupState::PreparingRebalance
        },
{
    lemma_alive(g.members, now);
}

/// A member that was just heard of is not overdue for as long as its session may
/// be silent.
pub proof fn law_heartbeat_keeps_member(m: MemberModel, now: u128, later: u128)
    requires
        m.last_heartbeat == now,
        m.session_timeout_ms >= 0,
        later <= now + m.session_timeout_ms * 1_000_000,
    ensures
        !overdue(m, later),
{
}

// ---------------------------------------------------------------------------

/// Groups by their ids.
pub type GroupMap = DashMap<String, Group>;

/// What a map of groups holds.
pub uninterp spec fn groups_view(m: GroupMap) -> Map<Seq<char>, GroupModel>;

/// `DashMap::new`: holds nothing.
#[verifier::external_body]
fn groups_new() -> (r: GroupMap)
    ensures
        groups_view(r).dom() == Set::<Seq<char>>::empty(),
{
    DashMap::new()
}

/// `DashMap::view`: what the given function makes of the value of a key, if it
/// has one; here a copy of the value.
#[verifier::external_body]
fn groups_get(m: &GroupMap, key: &str) -> (r: Option<Group>)
    ensures
        r.model() == groups_view(*m).get(key@),
{
    m.view(key, |_, g| copy_group(g))
}

/// `DashMap::insert`: gives a key a value in place of the one it had.
#[verifier::external_body]
fn groups_insert(m: &mut GroupMap, key: String, value: Group)
    ensures
        groups_view(*final(m)) == groups_view(*old(m)).insert(key@, value.model()),
{
    m.insert(key, value);
}

/// `DashMap::iter`: every entry once, in some order; here with a copy of the
/// value.
#[verifier::external_body]
fn groups_all(m: &GroupMap) -> (r: Vec<(String, Group)>)
    ensures
        goes_through(r.model(), groups_view(*m)),
{
    m.iter().map(|e| (e.key().clone(), copy_group(e.value()))).collect()
}

/// Pairs, a second time.
pub fn copy_pairs(v: &Vec<(String, Bytes)>) -> (r: Vec<(String, Bytes)>)
    ensures
        r.model() == v.model(),
{
    let mut out: Vec<(String, Bytes)> = Vec::new();
    let mut i: usize = 0;
    while i < v.len()
        invariant
            i <= v@.len(),
            out.model() =~= v.model().take(i as int),
        decreases v@.len() - i,
    {
        let ghost before = out.model();
        out.push((v[i].0.clone(), v[i].1.clone()));
        assert(out.model() =~= before.push(v.model()[i as int]));
        i = i + 1;
    }
    assert(v.model().take(i as int) =~= v.model());
    out
}

/// The string, if any, a second time.
pub fn copy_opt(s: &Option<String>) -> (r: Option<String>)
    ensures
        r.model() == s.model(),
{
    match s {
        Some(s) => Some(s.clone()),
        None => None,
    }
}

fn copy_member(m: &Member) -> (r: Member)
    ensures
        r.model() == m.model(),
{
    Member {
        member_id: m.member_id.clone(),
        session_timeout_ms: m.session_timeout_ms,
        rebalance_timeout_ms: m.rebalance_timeout_ms,
        protocols: copy_pairs(&m.protocols),
        last_heartbeat: m.last_heartbeat,
        assignment: m.assignment.clone(),
        metadata: m.metadata.clone(),
    }
}

/// The group, a second time.
pub fn copy_group(g: &Group) -> (r: Group)
    ensures
        r.model() == g.model(),
{
    let mut members: Vec<Member> = Vec::new();
    let mut i: usize = 0;
    while i < g.members.len()
        invariant
            i <= g.members@.len(),
            members.model() =~= g.members.model().take(i as int),
        decreases g.members@.len() - i,
    {
        let ghost before = members.model();
        members.push(copy_member(&g.members[i]));
        assert(members.model() =~= before.push(g.members.model()[i as int]));
        i = i + 1;
    }
    assert(g.members.model().take(i as int) =~= g.members.model());
    Group {
        group_id: g.group_id.clone(),
        state: g.state,
        generation_id: g.generation_id,
        leader_id: copy_opt(&g.leader_id),
        protocol: copy_opt(&g.protocol),
        members,
        protocol_type: g.protocol_type.clone(),
    }
}

fn is_overdue(m: &Member, now: u128) -> (r: bool)
    ensures
        r == overdue(m.model(), now),
{
    m.session_timeout_ms >= 0 && now > m.last_heartbeat && (now - m.last_heartbeat) / 1_000_000
        > m.session_timeout_ms as u128
}

impl Group {
    /// A group without members.
    pub fn new(group_id: &str) -> (r: Self)
        ensures
            r.model() == new_group(group_id@),
    {
        let r = Group {
            group_id: group_id.to_string(),
            state: GroupState::Empty,
            generation_id: 0,
            leader_id: None,
            protocol: None,
            members: Vec::new(),
            protocol_type: String::new(),
        };
        assert(r.members.model() =~= Seq::empty());
        r
    }

    /// The place of the member with an id.
    fn find_member(&self, id: &str) -> (r: Option<usize>)
        ensures
            match r {
                Some(k) => k < self.members@.len() && member_at(self.members.model(), id@) == k,
                None => member_at(self.members.model(), id@) == -1,
            },
    {
        let wanted = id.to_string();
        let ghost ms = self.members.model();
        let mut i: usize = self.members.len();
        assert(ms.take(i as int) =~= ms);
        while i > 0
            invariant
                i <= self.members@.len(),
                ms == self.members.model(),
                wanted@ == id@,
                member_at(ms, id@) == member_at(ms.take(i as int), id@),
            decreases i,
        {
            assert(ms.take(i as int).last() == ms[i - 1]);
            assert(ms.take(i as int).drop_last() =~= ms.take(i - 1));
            if self.members[i - 1].member_id == wanted {
                return Some(i - 1);
            }
            i = i - 1;
        }
        None
    }

    /// Drops the members that are overdue.
    fn drop_overdue(&mut self, now: u128)
        ensures
            final(self).model() == (GroupModel {
                members: alive(old(self).model().members, now),
                ..old(self).model()
            }),
    {
        let ghost all = self.members.model();
        let ghost mut done: int = 0;
        let mut i: usize = 0;
        assert(all.take(0) =~= Seq::empty());
        assert(alive(all.take(0), now) + all.skip(0) =~= all);
        while i < self.members.len()
            invariant
                all == old(self).members.model(),
                0 <= done <= all.len(),
                i <= self.members@.len(),
                i == alive(all.take(done), now).len(),
                self.members.model() == alive(all.take(done), now) + all.skip(done),
                self.model() == (GroupModel {
                    members: self.members.model(),
                    ..old(self).model()
                }),
            decreases all.len() - done,
        {
            let ghost before = alive(all.take(done), now);
            assert(self.members.model()[i as int] == all[done]);
            proof {
                assert(all.take(done + 1).drop_last() =~= all.take(done));
                assert(all.take(done + 1).last() == all[done]);
            }
            if is_overdue(&self.members[i], now) {
                let ghost m = self.members.model();
                self.members.remove(i);
                assert(self.members.model() =~= m.remove(i as int));
                assert(self.members.model() =~= before + all.skip(done + 1));
            } else {
                i = i + 1;
                assert(self.members.model() =~= before.push(all[done]) + all.skip(done + 1));
            }
            proof {
                done = done + 1;
            }
        }
        assert(all.skip(done).len() == 0);
        assert(all.take(done) =~= all);
        assert(self.members.model() =~= alive(all, now));
    }

    /// Drops the members with an id.
    fn drop_member(&mut self, id: &str)
        ensures
            final(self).model() == (GroupModel {
                members: without_member(old(self).model().members, id@),
                ..old(self).model()
            }),
    {
        let gone = id.to_string();
        let ghost all = self.members.model();
        let ghost mut done: int = 0;
        let mut i: usize = 0;
        assert(all.take(0) =~= Seq::empty());
        assert(without_member(all.take(0), id@) + all.skip(0) =~= all);
        while i < self.members.len()
            invariant
                gone@ == id@,
                all == old(self).members.model(),
                0 <= done <= all.len(),
                i <= self.members@.len(),
                i == without_member(all.take(done), id@).len(),
                self.members.model() == without_member(all.take(done), id@) + all.skip(done),
                self.model() == (GroupModel {
                    members: self.members.model(),
                    ..old(self).model()
                }),
            decreases all.len() - done,
        {
            let ghost before = without_member(all.take(done), id@);
            assert(self.members.model()[i as int] == all[done]);
            proof {
                assert(all.take(done + 1).drop_last() =~= all.take(done));
                assert(all.take(done + 1).last() == all[done]);
            }
            if self.members[i].member_id == gone {
                let ghost m = self.members.model();
                self.members.remove(i);
                assert(self.members.model() =~= m.remove(i as int));
                assert(self.members.model() =~= before + all.skip(done + 1));
            } else {
                i = i + 1;
                assert(self.members.model() =~= before.push(all[done]) + all.skip(done + 1));
            }
            proof {
                done = done + 1;
            }
        }
        assert(all.skip(done).len() == 0);
        assert(all.take(done) =~= all);
        assert(self.members.model() =~= without_member(all, id@));
    }

    /// Puts a member in, in place of the one with the same id if there is one.
    fn put_member(&mut self, m: Member)
        ensures
            final(self).model() == (GroupModel {
                members: with_member(old(self).model().members, m.model()),
                ..old(self).model()
            }),
    {
        let ghost before = self.members.model();
        match self.find_member(m.member_id.as_str()) {
            Some(k) => {
                self.members.set(k, m);
                assert(self.members.model() =~= before.update(k as int, m.model()));
            },
            None => {
                self.members.push(m);
                assert(self.members.model() =~= before.push(m.model()));
            },
        }
    }

    /// Hands out assignments.
    fn assign(&mut self, given: &Vec<(String, Bytes)>)
        ensures
            final(self).model() == (GroupModel {
                members: assigned(old(self).model().members, given.model()),
                ..old(self).model()
            }),
    {
        let ghost gs = given.model();
        let mut i: usize = 0;
        assert(gs.take(0) =~= Seq::empty());
        while i < given.len()
            invariant
                i <= given@.len(),
                gs == given.model(),
                self.model() == (GroupModel {
                    members: assigned(old(self).model().members, gs.take(i as int)),
                    ..old(self).model()
                }),
            decreases given@.len() - i,
        {
            let ghost before = self.members.model();
            proof {
                assert(gs.take(i as int + 1).drop_last() =~= gs.take(i as int));
                assert(gs.take(i as int + 1).last() == gs[i as int]);
            }
            match self.find_member(given[i].0.as_str()) {
                Some(k) => {
                    let mut m = copy_member(&self.members[k]);
                    m.assignment = given[i].1.clone();
                    self.members.set(k, m);
                    assert(self.members.model() =~= before.update(k as int, m.model()));
                },
                None => {},
            }
            i = i + 1;
        }
        assert(gs.take(i as int) =~= gs);
    }

    /// The members' ids with their metadata.
    fn roster_list(&self) -> (r: Vec<(String, Bytes)>)
        ensures
            r.model() == roster(self.members.model()),
    {
        let mut out: Vec<(String, Bytes)> = Vec::new();
        let mut i: usize = 0;
        let ghost all = roster(self.members.model());
        while i < self.members.len()
            invariant
                i <= self.members@.len(),
                all == roster(self.members.model()),
                out.model() =~= all.take(i as int),
            decreases self.members@.len() - i,
        {
            let ghost before = out.model();
            let m = &self.members[i];
            out.push((m.member_id.clone(), m.metadata.clone()));
            assert(out.model() =~= before.push(all[i as int]));
            i = i + 1;
        }
        assert(all.take(i as int) =~= all);
        out
    }
}

/// The answer to a request to join: error code, generation, leader, member id,
/// protocol and members.
pub type JoinReply = (i16, i32, String, String, Option<String>, Vec<(String, Bytes)>);

/// Whether a reply is the answer.
pub open spec fn reply_is(r: JoinReply, a: JoinAnswer) -> bool {
    &&& r.0 == a.error_code
    &&& r.1 == a.generation_id
    &&& r.2@ == a.leader
    &&& r.3@ == a.member_id
    &&& r.4.model() == a.protocol
    &&& r.5.model() == a.members
}

fn refuse_join(error_code: i16) -> (r: JoinReply)
    ensures
        reply_is(r, join_refused(error_code)),
{
    let members: Vec<(String, Bytes)> = Vec::new();
    assert(members.model() =~= Seq::empty());
    (error_code, 0, String::new(), String::new(), None, members)
}

/// The coordinator of consumer groups.
pub struct GroupCoordinator {
    pub groups: GroupMap,
    pub offset_store: OffsetStore,
    /// The number of partitions of the topic that holds commits.
    pub offsets_topic_partitions: i32,
    /// When the coordinator was made.
    pub started: Instant,
}

impl View for GroupCoordinator {
    type V = Map<Seq<char>, GroupModel>;

    open spec fn view(&self) -> Map<Seq<char>, GroupModel> {
        groups_view(self.groups)
    }
}

/// The request that arguments make.
pub open spec fn join_request(
    group_id: Seq<char>,
    session_timeout_ms: i32,
    rebalance_timeout_ms: i32,
    member_id: Seq<char>,
    protocol_type: Seq<char>,
    protocols: Seq<(Seq<char>, Seq<u8>)>,
) -> JoinModel {
    JoinModel {
        group_id,
        session_timeout_ms,
        rebalance_timeout_ms,
        member_id,
        protocol_type,
        protocols,
    }
}

/// The groups after a request to join.
pub open spec fn groups_after_join(
    m: Map<Seq<char>, GroupModel>,
    req: JoinModel,
    now: u128,
) -> Map<Seq<char>, GroupModel> {
    let g = m.get(req.group_id);
    match join_refusal(g, req) {
        Some(code) => if req.session_timeout_ms < 0 {
            m
        } else {
            m.insert(req.group_id, group_or_new(g, req.group_id))
        },
        None => m.insert(req.group_id, after_join(group_or_new(g, req.group_id), req, now)),
    }
}

/// The answer to a request to join.
pub open spec fn answer_to_join(
    m: Map<Seq<char>, GroupModel>,
    req: JoinModel,
    now: u128,
) -> JoinAnswer {
    let g = m.get(req.group_id);
    match join_refusal(g, req) {
        Some(code) => join_refused(code),
        None => join_answer(group_or_new(g, req.group_id), req, now),
    }
}

impl GroupCoordinator {
    /// Whether the groups and the commits are in order, and there is a partition
    /// for commits.
    pub open spec fn wf(&self) -> bool {
        &&& groups_wf(self@)
        &&& self.offset_store.wf()
        &&& self.offsets_topic_partitions > 0
    }

    /// No groups and no commits.
    pub fn new() -> (r: Self)
        ensures
            r.wf(),
            r@ == Map::<Seq<char>, GroupModel>::empty(),
            r.offset_store@ == Map::<OffsetKey, OffsetValue>::empty(),
            r.offset_store.offsets_topic_partitions == DEFAULT_OFFSETS_PARTITIONS,
            r.offsets_topic_partitions == DEFAULT_OFFSETS_PARTITIONS,
    {
        let r = GroupCoordinator {
            groups: groups_new(),
            offset_store: OffsetStore::new(),
            offsets_topic_partitions: DEFAULT_OFFSETS_PARTITIONS,
            started: clock::instant_now(),
        };
        assert(r@ =~= Map::empty());
        r
    }

    /// The nanoseconds since the coordinator was made, as the clock shows them.
    pub fn now(&self) -> (r: u128) {
        clock::nanos_since(&self.started)
    }

    /// The partition that a group belongs to.
    pub fn coordinator_partition(&self, group_id: &str) -> (r: i32)
        requires
            self.offsets_topic_partitions > 0,
        ensures
            r == group_partition(group_id@, self.offsets_topic_partitions),
    {
        (stable_hash(group_id) % (self.offsets_topic_partitions as u64)) as i32
    }

    /// Lets a member join a group.
    pub fn join_group(
        &mut self,
        group_id: &str,
        session_timeout_ms: i32,
        rebalance_timeout_ms: i32,
        member_id: &str,
        protocol_type: &str,
        protocols: Vec<(String, Bytes)>,
    ) -> (r: JoinReply)
        ensures
            exists|now: u128|
                join_says(
                    old(self)@,
                    join_request(
                        group_id@,
                        session_timeout_ms,
                        rebalance_timeout_ms,
                        member_id@,
                        protocol_type@,
                        protocols.model(),
                    ),
                    now,
                    final(self)@,
                    r,
                ),
            final(self).offset_store == old(self).offset_store,
            final(self).offsets_topic_partitions == old(self).offsets_topic_partitions,
            final(self).started == old(self).started,
            old(self).wf() ==> final(self).wf(),
    {
        let now = self.now();
        self.join_group_at(
            group_id,
            session_timeout_ms,
            rebalance_timeout_ms,
            member_id,
            protocol_type,
            protocols,
            now,
        )
    }

    /// Lets a member join a group at a given time.
    pub fn join_group_at(
        &mut self,
        group_id: &str,
        session_timeout_ms: i32,
        rebalance_timeout_ms: i32,
        member_id: &str,
        protocol_type: &str,
        protocols: Vec<(String, Bytes)>,
        now: u128,
    ) -> (r: JoinReply)
        ensures
            join_says(
                old(self)@,
                join_request(
                    group_id@,
                    session_timeout_ms,
                    rebalance_timeout_ms,
                    member_id@,
                    protocol_type@,
                    protocols.model(),
                ),
                now,
                final(self)@,
                r,
            ),
            final(self).offset_store == old(self).offset_store,
            final(self).offsets_topic_partitions == old(self).offsets_topic_partitions,
            final(self).started == old(self).started,
            old(self).wf() ==> final(self).wf(),
    {
        if session_timeout_ms < 0 {
            return refuse_join(error_codes::INVALID_SESSION_TIMEOUT);
        }
        let ghost req = join_request(
            group_id@,
            session_timeout_ms,
            rebalance_timeout_ms,
            member_id@,
            protocol_type@,
            protocols.model(),
        );
        let mut group = match groups_get(&self.groups, group_id) {
            Some(g) => g,
            None => Group::new(group_id),
        };
        let ghost g = group.model();
        assert(g == group_or_new(self@.get(group_id@), group_id@));
        let wanted = protocol_type.to_string();
        if (!group.protocol_type.as_str().is_empty() && group.protocol_type != wanted)
            || protocols.len() == 0 {
            groups_insert(&mut self.groups, group_id.to_string(), group);
            return refuse_join(error_codes::INCONSISTENT_GROUP_PROTOCOL);
        }
        group.drop_overdue(now);
        let id = if member_id.is_empty() {
            let mut s = "rivine-".to_string();
            s.append(group_id);
            s.append("-");
            text::push_nat(&mut s, group.members.len() as u128 + 1);
            s
        } else {
            member_id.to_string()
        };
        assert(id@ == joining_id(g, req, now));
        let fresh = group.find_member(id.as_str()).is_none();
        if fresh {
            group.leader_id = None;
            group.protocol = None;
        }
        let metadata = protocols[0].1.clone();
        let member = Member {
            member_id: id.clone(),
            session_timeout_ms,
            rebalance_timeout_ms,
            protocols,
            last_heartbeat: now,
            assignment: buf::bytes_new(),
            metadata,
        };
        group.put_member(member);
        group.protocol_type = wanted;
        if group.leader_id.is_none() {
            group.leader_id = Some(id.clone());
        }
        proof {
            law_joined_is_member(g, req, now);
            lemma_member_at(group.members.model(), id@);
        }
        let protocol = if group.members.len() > 0 && group.members[0].protocols.len() > 0 {
            Some(group.members[0].protocols[0].0.clone())
        } else {
            None
        };
        let members = group.roster_list();
        group.state = GroupState::CompletingRebalance;
        group.generation_id = group.generation_id.wrapping_add(1);
        let generation = group.generation_id;
        let leader = match &group.leader_id {
            Some(l) => l.clone(),
            None => String::new(),
        };
        assert(group.model() == after_join(g, req, now));
        proof {
            if groups_wf(self@) {
                law_members_stay_distinct(g, req, member_id@, Seq::empty(), now);
                law_metadata_stays_announced(g, req, member_id@, Seq::empty(), now);
            }
        }
        groups_insert(&mut self.groups, group_id.to_string(), group);
        (0, generation, leader, id, protocol, members)
    }

    /// Answers a member that asks for its assignment, and takes the assignments
    /// that a leader hands in.
    pub fn sync_group(
        &mut self,
        group_id: &str,
        generation_id: i32,
        member_id: &str,
        assignments: Vec<(String, Bytes)>,
    ) -> (r: (i16, Bytes))
        ensures
            ({
                let g = old(self)@.get(group_id@);
                match member_refusal(g, generation_id, member_id@) {
                    Some(code) => r.0 == code && bytes_view(r.1).len() == 0 && final(self)@
                        == old(self)@,
                    None => {
                        let h = after_sync(g->Some_0, member_id@, assignments.model());
                        &&& r.0 == 0
                        &&& bytes_view(r.1) == h.members[member_at(
                            h.members,
                            member_id@,
                        )].assignment
                        &&& final(self)@ == old(self)@.insert(group_id@, h)
                    },
                }
            }),
            final(self).offset_store == old(self).offset_store,
            final(self).offsets_topic_partitions == old(self).offsets_topic_partitions,
            final(self).started == old(self).started,
            old(self).wf() ==> final(self).wf(),
    {
        let mut group = match groups_get(&self.groups, group_id) {
            Some(g) => g,
            None => {
                return (error_codes::NOT_COORDINATOR, buf::bytes_new());
            },
        };
        let ghost g = group.model();
        if group.generation_id != generation_id {
            return (error_codes::ILLEGAL_GENERATION, buf::bytes_new());
        }
        if group.find_member(member_id).is_none() {
            return (error_codes::UNKNOWN_MEMBER_ID, buf::bytes_new());
        }
        let wanted = member_id.to_string();
        let leads = match &group.leader_id {
            Some(l) => *l == wanted,
            None => false,
        };
        if leads {
            group.assign(&assignments);
        }
        group.state = GroupState::Stable;
        proof {
            lemma_assigned_ids(g.members, assignments.model());
            lemma_same_ids(g.members, assigned(g.members, assignments.model()), member_id@);
        }
        let ghost h = after_sync(g, member_id@, assignments.model());
        assert(group.model() == h);
        proof {
            if groups_wf(self@) {
                law_members_stay_distinct(g, arbitrary(), member_id@, assignments.model(), 0);
                law_metadata_stays_announced(g, arbitrary(), member_id@, assignments.model(), 0);
            }
        }
        let assignment = match group.find_member(member_id) {
            Some(k) => {
                assert(h.members[k as int] == group.members@[k as int].model());
                group.members[k].assignment.clone()
            },
            None => buf::bytes_new(),
        };
        groups_insert(&mut self.groups, group_id.to_string(), group);
        (0, assignment)
    }

    /// Takes note that a member was heard of.
    pub fn heartbeat(&mut self, group_id: &str, generation_id: i32, member_id: &str) -> (r: i16)
        ensures
            exists|now: u128|
                heartbeat_says(
                    old(self)@,
                    group_id@,
                    generation_id,
                    member_id@,
                    now,
                    final(self)@,
                    r,
                ),
            final(self).offset_store == old(self).offset_store,
            final(self).offsets_topic_partitions == old(self).offsets_topic_partitions,
            final(self).started == old(self).started,
            old(self).wf() ==> final(self).wf(),
    {
        let now = self.now();
        self.heartbeat_at(group_id, generation_id, member_id, now)
    }

    /// Takes note that a member was heard of at a given time.
    pub fn heartbeat_at(
        &mut self,
        group_id: &str,
        generation_id: i32,
        member_id: &str,
        now: u128,
    ) -> (r: i16)
        ensures
            heartbeat_says(
                old(self)@,
                group_id@,
                generation_id,
                member_id@,
                now,
                final(self)@,
                r,
            ),
            final(self).offset_store == old(self).offset_store,
            final(self).offsets_topic_partitions == old(self).offsets_topic_partitions,
            final(self).started == old(self).started,
            old(self).wf() ==> final(self).wf(),
    {
        let mut group = match groups_get(&self.groups, group_id) {
            Some(g) => g,
            None => {
                return error_codes::NOT_COORDINATOR;
            },
        };
        if group.generation_id != generation_id {
            return error_codes::ILLEGAL_GENERATION;
        }
        let ghost g = group.model();
        match group.find_member(member_id) {
            Some(k) => {
                proof {
                    if groups_wf(self@) {
                        law_members_stay_distinct(g, arbitrary(), member_id@, Seq::empty(), now);
                        law_metadata_stays_announced(g, arbitrary(), member_id@, Seq::empty(), now);
                    }
                }
                let ghost before = group.members.model();
                let mut m = copy_member(&group.members[k]);
                m.last_heartbeat = now;
                group.members.set(k, m);
                assert(group.members.model() =~= before.update(k as int, m.model()));
                groups_insert(&mut self.groups, group_id.to_string(), group);
                0
            },
            None => error_codes::UNKNOWN_MEMBER_ID,
        }
    }

    /// Lets a member leave.
    pub fn leave_group(&mut self, group_id: &str, member_id: &str) -> (r: i16)
        ensures
            match old(self)@.get(group_id@) {
                None => r == error_codes::NOT_COORDINATOR && final(self)@ == old(self)@,
                Some(g) => r == 0 && final(self)@ == old(self)@.insert(
                    group_id@,
                    after_leave(g, member_id@),
                ),
            },
            final(self).offset_store == old(self).offset_store,
            final(self).offsets_topic_partitions == old(self).offsets_topic_partitions,
            final(self).started == old(self).started,
            old(self).wf() ==> final(self).wf(),
    {
        let mut group = match groups_get(&self.groups, group_id) {
            Some(g) => g,
            None => {
                return error_codes::NOT_COORDINATOR;
            },
        };
        proof {
            if groups_wf(self@) {
                law_members_stay_distinct(
                    group.model(),
                    arbitrary(),
                    member_id@,
                    Seq::empty(),
                    0,
                );
                law_metadata_stays_announced(
                    group.model(),
                    arbitrary(),
                    member_id@,
                    Seq::empty(),
                    0,
                );
            }
        }
        group.drop_member(member_id);
        group.state = if group.members.len() == 0 {
            GroupState::Empty
        } else {
            GroupState::PreparingRebalance
        };
        groups_insert(&mut self.groups, group_id.to_string(), group);
        0
    }

    /// Drops the members of all groups that are overdue.
    pub fn expire_members(&mut self, now: u128)
        ensures
            final(self)@.dom() == old(self)@.dom(),
            forall|k: Seq<char>| #[trigger]
                old(self)@.contains_key(k) ==> final(self)@[k] == after_expiry(
                    old(self)@[k],
                    now,
                ),
            final(self).offset_store == old(self).offset_store,
            final(self).offsets_topic_partitions == old(self).offsets_topic_partitions,
            final(self).started == old(self).started,
            old(self).wf() ==> final(self).wf(),
    {
        let all = groups_all(&self.groups);
        let ghost list = all.model();
        let ghost before = self@;
        let mut i: usize = 0;
        while i < all.len()
            invariant
                i <= all@.len(),
                list == all.model(),
                before == old(self)@,
                goes_through(list, before),
                self@.dom() =~= before.dom(),
                forall|j: int|
                    0 <= j < i ==> self@[(#[trigger] list[j]).0] == after_expiry(
                        before[list[j].0],
                        now,
                    ),
                forall|j: int|
                    i <= j < list.len() ==> self@[(#[trigger] list[j]).0] == before[list[j].0],
                self.offset_store == old(self).offset_store,
                self.offsets_topic_partitions == old(self).offsets_topic_partitions,
                self.started == old(self).started,
            decreases all@.len() - i,
        {
            assert(list[i as int] == all@[i as int].model());
            let ghost id = list[i as int].0;
            assert(before.contains_key(id));
            let ghost g = before[id];
            let mut group = copy_group(&all[i].1);
            let n = group.members.len();
            group.drop_overdue(now);
            let left = group.members.len();
            proof {
                lemma_alive(g.members, now);
            }
            if left != n {
                if left == 0 {
                    group.state = GroupState::Empty;
                } else {
                    group.state = GroupState::PreparingRebalance;
                    group.leader_id = None;
                    group.protocol = None;
                }
            }
            assert(group.model() == after_expiry(g, now));
            groups_insert(&mut self.groups, all[i].0.clone(), group);
            i = i + 1;
        }
        proof {
            assert forall|k: Seq<char>| #[trigger] before.contains_key(k) implies self@[k]
                == after_expiry(before[k], now) && (groups_wf(before) ==> distinct_members(
                self@[k].members,
            ) && all_announce(self@[k].members)) by {
                if groups_wf(before) {
                    law_members_stay_distinct(
                        before[k],
                        arbitrary(),
                        Seq::empty(),
                        Seq::empty(),
                        now,
                    );
                    law_metadata_stays_announced(
                        before[k],
                        arbitrary(),
                        Seq::empty(),
                        Seq::empty(),
                        now,
                    );
                }
                let j = choose|j: int| 0 <= j < list.len() && (#[trigger] list[j]).0 == k;
                assert(self@[list[j].0] == after_expiry(before[list[j].0], now));
            }
        }
    }

    /// Why a group's commit is refused, if it is.
    pub fn commit_refusal(&self, group_id: &str, generation_id: i32, member_id: &str) -> (r: Option<
        i16,
    >)
        ensures
            r == commit_refusal_of(self@.get(group_id@), generation_id, member_id@),
    {
        if generation_id == -1 && member_id.is_empty() {
            return None;
        }
        match groups_get(&self.groups, group_id) {
            None => None,
            Some(g) => {
                if g.generation_id != generation_id {
                    Some(error_codes::ILLEGAL_GENERATION)
                } else if g.find_member(member_id).is_none() {
                    Some(error_codes::UNKNOWN_MEMBER_ID)
                } else if g.state != GroupState::Stable {
                    Some(error_codes::REBALANCE_IN_PROGRESS)
                } else {
                    None
                }
            },
        }
    }

    /// Creates the topic that holds commits, if there is none. What is returned
    /// are its partitions that have to be opened.
    pub fn ensure_offsets_topic(&self, metadata: &mut MetadataManager) -> (r: Vec<i32>)
        requires
            old(metadata).wf(),
        ensures
            final(metadata).wf(),
            final(metadata).config == old(metadata).config,
            final(metadata)@ == with_topic(old(metadata)@, CONSUMER_OFFSETS_TOPIC@, true),
            r@ == missing(
                old(metadata)@,
                CONSUMER_OFFSETS_TOPIC@,
                self.offset_store.offsets_topic_partitions as int,
            ),
    {
        self.offset_store.ensure_created(metadata)
    }

    /// Recovers the commits from what the partitions of their topic hold.
    pub fn init(&mut self, partitions: &Vec<Bytes>)
        ensures
            exists|read: Seq<RunModel>|
                all_read(partitions.model(), read) && final(self).offset_store@
                    == #[trigger] after_runs(Map::empty(), read),
            final(self).offset_store.offsets_topic_partitions
                == old(self).offset_store.offsets_topic_partitions,
            final(self)@ == old(self)@,
            final(self).offsets_topic_partitions == old(self).offsets_topic_partitions,
            final(self).started == old(self).started,
            old(self).wf() ==> final(self).wf(),
    {
        self.offset_store.recover(partitions);
    }

    /// Remembers a commit and appends it to the topic that holds commits, to the
    /// group's partition, which is returned. What is added to `writes` is to be
    /// written there.
    pub fn commit_offset(
        &mut self,
        metadata: &mut MetadataManager,
        group_id: &str,
        topic: &str,
        partition: i32,
        offset: i64,
        note: Option<String>,
        now: i64,
        writes: &mut Vec<SegmentWrite>,
    ) -> (r: core::result::Result<i32, RecordsError>)
        requires
            old(self).offset_store.wf(),
            old(metadata).wf(),
        ensures
            final(self).offset_store.wf(),
            final(self)@ == old(self)@,
            final(self).offsets_topic_partitions == old(self).offsets_topic_partitions,
            final(self).started == old(self).started,
            old(self).wf() ==> final(self).wf(),
            final(self).offset_store.offsets_topic_partitions
                == old(self).offset_store.offsets_topic_partitions,
            final(self).offset_store@ == old(self).offset_store@.insert(
                (group_id@, topic@, partition),
                (offset, note.model()),
            ),
            final(metadata).wf(),
            final(metadata).config == old(metadata).config,
            ({
                let target = group_partition(
                    group_id@,
                    old(self).offset_store.offsets_topic_partitions,
                );
                let out = commit_outcome(
                    old(metadata)@,
                    target,
                    (group_id@, topic@, partition),
                    (offset, note.model()),
                    old(writes).model(),
                    now,
                );
                &&& final(metadata)@ == out.meta
                &&& final(writes).model() == out.writes
                &&& match r {
                    Ok(p) => p == target && out.offsets is Ok,
                    Err(e) => out.offsets == Err::<Seq<(i64, i64)>, RecordsError>(e),
                }
            }),
    {
        self.offset_store.commit(
            metadata,
            group_id,
            topic,
            partition,
            offset,
            note,
            now,
            writes,
        )
    }

    /// The offset that a group committed for a partition.
    pub fn fetch_offset(&self, group_id: &str, topic: &str, partition: i32) -> (r: Option<i64>)
        ensures
            r == match self.offset_store@.get((group_id@, topic@, partition)) {
                Some(v) => Some(v.0),
                None => None,
            },
    {
        self.offset_store.fetch_offset(group_id, topic, partition)
    }

    /// The offset that a group committed for a partition, and the note beside it.
    pub fn fetch_offset_with_meta(&self, group_id: &str, topic: &str, partition: i32) -> (r: Option<
        (i64, Option<String>),
    >)
        ensures
            r.model() == self.offset_store@.get((group_id@, topic@, partition)),
    {
        self.offset_store.fetch_offset_with_meta(group_id, topic, partition)
    }

    /// The name of a group's state.
    pub fn group_state_str(&self, group_id: &str) -> (r: Option<String>)
        ensures
            r.model() == match self@.get(group_id@) {
                Some(g) => Some(state_name(g.state)),
                None => None,
            },
    {
        match groups_get(&self.groups, group_id) {
            Some(g) => Some(
                match g.state {
                    GroupState::Empty => "Empty".to_string(),
                    GroupState::PreparingRebalance => "PreparingRebalance".to_string(),
                    GroupState::CompletingRebalance => "CompletingRebalance".to_string(),
                    GroupState::Stable => "Stable".to_string(),
                },
            ),
            None => None,
        }
    }

    /// The protocol type of a group.
    pub fn group_protocol_type(&self, group_id: &str) -> (r: Option<String>)
        ensures
            r.model() == match self@.get(group_id@) {
                Some(g) => Some(g.protocol_type),
                None => None,
            },
    {
        match groups_get(&self.groups, group_id) {
            Some(g) => Some(g.protocol_type),
            None => None,
        }
    }

    /// The members of a group: id, metadata and assignment.
    pub fn describe_members(&self, group_id: &str) -> (r: Vec<(String, Bytes, Bytes)>)
        ensures
            ({
                let ms = group_or_new(self@.get(group_id@), group_id@).members;
                &&& r@.len() == ms.len()
                &&& forall|i: int|
                    0 <= i < ms.len() ==> (#[trigger] r@[i]).0@ == ms[i].member_id && bytes_view(
                        r@[i].1,
                    ) == ms[i].metadata && bytes_view(r@[i].2) == ms[i].assignment
            }),
    {
        let mut out: Vec<(String, Bytes, Bytes)> = Vec::new();
        match groups_get(&self.groups, group_id) {
            Some(g) => {
                let ghost ms = g.members.model();
                let mut i: usize = 0;
                while i < g.members.len()
                    invariant
                        i <= g.members@.len(),
                        ms == g.members.model(),
                        out@.len() == i,
                        forall|j: int|
                            0 <= j < i ==> (#[trigger] out@[j]).0@ == ms[j].member_id
                                && bytes_view(out@[j].1) == ms[j].metadata && bytes_view(out@[j].2)
                                == ms[j].assignment,
                    decreases g.members@.len() - i,
                {
                    let m = &g.members[i];
                    assert(ms[i as int] == m.model());
                    out.push((m.member_id.clone(), m.metadata.clone(), m.assignment.clone()));
                    i = i + 1;
                }
            },
            None => {},
        }
        out
    }

    /// All groups, those that only committed offsets among them: id and protocol
    /// type.
    pub fn list_groups(&self) -> (r: Vec<(String, String)>)
        ensures
            lists_groups(r.model(), self@, self.offset_store.cache.model()),
    {
        let all = groups_all(&self.groups);
        let ghost list = all.model();
        let mut out: Vec<(String, String)> = Vec::new();
        let mut ids: Vec<String> = Vec::new();
        let mut i: usize = 0;
        while i < all.len()
            invariant
                i <= all@.len(),
                list == all.model(),
                goes_through(list, self@),
                out@.len() == i,
                ids@.len() == i,
                forall|j: int|
                    0 <= j < i ==> (#[trigger] out.model()[j]) == (
                        list[j].1.group_id,
                        list[j].1.protocol_type,
                    ),
                forall|j: int| 0 <= j < i ==> (#[trigger] ids.model()[j]) == list[j].1.group_id,
            decreases all@.len() - i,
        {
            assert(list[i as int] == all@[i as int].model());
            let g = &all[i].1;
            let ghost o = out.model();
            let ghost d = ids.model();
            out.push((g.group_id.clone(), g.protocol_type.clone()));
            ids.push(g.group_id.clone());
            assert(out.model() =~= o.push(
                (list[i as int].1.group_id, list[i as int].1.protocol_type),
            ));
            assert(ids.model() =~= d.push(list[i as int].1.group_id));
            i = i + 1;
        }
        let rest = self.offset_store.groups_with_offsets();
        let ghost first = out.model();
        let ghost known = ids.model();
        let ghost extra = rest.model();
        let mut j: usize = 0;
        while j < rest.len()
            invariant
                j <= rest@.len(),
                extra == rest.model(),
                ids.model() == known,
                out.model() == first + unknown(known, extra.take(j as int)),
            decreases rest@.len() - j,
        {
            proof {
                assert(extra.take(j as int + 1).drop_last() =~= extra.take(j as int));
                assert(extra.take(j as int + 1).last() == extra[j as int]);
            }
            let ghost o = out.model();
            if !has_string(&ids, &rest[j]) {
                out.push((rest[j].clone(), String::new()));
                assert(out.model() =~= o.push((extra[j as int], Seq::empty())));
                assert(out.model() =~= first + unknown(known, extra.take(j as int + 1)));
            }
            j = j + 1;
        }
        assert(extra.take(j as int) =~= extra);
        proof {
            assert(first =~= ids_and_types(list));
            assert(known =~= ids_of(list));
            let cache = self.offset_store.cache;
            assert(are_committers(extra, cache.model())) by {
                assert forall|g: Seq<char>| #[trigger] extra.contains(g) <==> exists|k: int|
                    0 <= k < cache.model().len() && (#[trigger] cache.model()[k]).0.0 == g by {
                    if exists|k: int| 0 <= k < cache@.len() && (#[trigger] cache@[k]).group@ == g {
                        let k = choose|k: int|
                            0 <= k < cache@.len() && (#[trigger] cache@[k]).group@ == g;
                        assert(cache.model()[k].0.0 == g);
                    }
                    if exists|k: int|
                        0 <= k < cache.model().len() && (#[trigger] cache.model()[k]).0.0 == g {
                        let k = choose|k: int|
                            0 <= k < cache.model().len() && (#[trigger] cache.model()[k]).0.0 == g;
                        assert(cache@[k].group@ == g);
                    }
                }
            }
            assert(listing_of(out.model(), list, extra));
        }
        out
    }
}

/// Whether a coordinator did with a request to join what it should.
pub open spec fn join_says(
    before: Map<Seq<char>, GroupModel>,
    req: JoinModel,
    now: u128,
    after: Map<Seq<char>, GroupModel>,
    r: JoinReply,
) -> bool {
    &&& after == groups_after_join(before, req, now)
    &&& reply_is(r, answer_to_join(before, req, now))
}

/// Whether a coordinator did with a sign of life what it should.
pub open spec fn heartbeat_says(
    before: Map<Seq<char>, GroupModel>,
    group_id: Seq<char>,
    generation_id: i32,
    member_id: Seq<char>,
    now: u128,
    after: Map<Seq<char>, GroupModel>,
    r: i16,
) -> bool {
    let g = before.get(group_id);
    match member_refusal(g, generation_id, member_id) {
        Some(code) => r == code && after == before,
        None => r == 0 && after == before.insert(
            group_id,
            after_heartbeat(g->Some_0, member_id, now),
        ),
    }
}

/// The ids of listed groups.
pub open spec fn ids_of(list: Seq<(Seq<char>, GroupModel)>) -> Seq<Seq<char>> {
    Seq::new(list.len(), |i: int| list[i].1.group_id)
}

/// The ids and protocol types of listed groups.
pub open spec fn ids_and_types(list: Seq<(Seq<char>, GroupModel)>) -> Seq<(Seq<char>, Seq<char>)> {
    Seq::new(list.len(), |i: int| (list[i].1.group_id, list[i].1.protocol_type))
}

/// Those of the ids that are not known, without a protocol type.
pub open spec fn unknown(known: Seq<Seq<char>>, ids: Seq<Seq<char>>) -> Seq<(Seq<char>, Seq<char>)>
    decreases ids.len(),
{
    if ids.len() == 0 {
        Seq::empty()
    } else {
        let before = unknown(known, ids.drop_last());
        if known.contains(ids.last()) {
            before
        } else {
            before.push((ids.last(), Seq::empty()))
        }
    }
}

/// The groups in a list, and behind them those of the ids that are not among
/// them.
pub open spec fn listing_of(
    r: Seq<(Seq<char>, Seq<char>)>,
    list: Seq<(Seq<char>, GroupModel)>,
    ids: Seq<Seq<char>>,
) -> bool {
    r == ids_and_types(list) + unknown(ids_of(list), ids)
}

/// Whether ids are those of the groups that committed an offset, each once.
pub open spec fn are_committers(ids: Seq<Seq<char>>, commits: Seq<OffsetModel>) -> bool {
    &&& ids.no_duplicates()
    &&& forall|g: Seq<char>| #[trigger]
        ids.contains(g) <==> exists|i: int|
            0 <= i < commits.len() && (#[trigger] commits[i]).0.0 == g
}

/// Whether a list has every group once, in some order: those that the
/// coordinator knows with their protocol types, and those that only committed an
/// offset without.
pub open spec fn lists_groups(
    r: Seq<(Seq<char>, Seq<char>)>,
    groups: Map<Seq<char>, GroupModel>,
    commits: Seq<OffsetModel>,
) -> bool {
    exists|list: Seq<(Seq<char>, GroupModel)>, ids: Seq<Seq<char>>|
        goes_through(list, groups) && are_committers(ids, commits) && #[trigger] listing_of(
            r,
            list,
            ids,
        )
}

/// Whether a group is in a list.
pub open spec fn is_listed(r: Seq<(Seq<char>, Seq<char>)>, g: Seq<char>) -> bool {
    exists|i: int| 0 <= i < r.len() && (#[trigger] r[i]).0 == g
}

proof fn lemma_unknown(known: Seq<Seq<char>>, ids: Seq<Seq<char>>)
    requires
        ids.no_duplicates(),
    ensures
        forall|g: Seq<char>|
            is_listed(unknown(known, ids), g) <==> ids.contains(g) && !known.contains(g),
        forall|i: int, j: int|
            0 <= i < j < unknown(known, ids).len() ==> (#[trigger] unknown(known, ids)[i]).0 != (
            #[trigger] unknown(known, ids)[j]).0,
    decreases ids.len(),
{
    let r = unknown(known, ids);
    if ids.len() > 0 {
        let front = ids.drop_last();
        let before = unknown(known, front);
        let last = ids.last();
        lemma_unknown(known, front);
        assert(ids[ids.len() - 1] == last);
        assert forall|g: Seq<char>| ids.contains(g) <==> front.contains(g) || g == last by {
            if front.contains(g) {
                let i = choose|i: int| 0 <= i < front.len() && front[i] == g;
                assert(ids[i] == g);
            }
            if ids.contains(g) && g != last {
                let i = choose|i: int| 0 <= i < ids.len() && ids[i] == g;
                assert(front[i] == g);
            }
        }
        assert(!front.contains(last));
        if !known.contains(last) {
            assert forall|g: Seq<char>| is_listed(r, g) <==> is_listed(before, g) || g == last by {
                if is_listed(before, g) {
                    let i = choose|i: int| 0 <= i < before.len() && (#[trigger] before[i]).0 == g;
                    assert(r[i].0 == g);
                }
                if g == last {
                    assert(r[before.len() as int].0 == g);
                }
                if is_listed(r, g) && g != last {
                    let i = choose|i: int| 0 <= i < r.len() && (#[trigger] r[i]).0 == g;
                    assert(before[i].0 == g);
                }
            }
            assert forall|i: int, j: int| 0 <= i < j < r.len() implies (#[trigger] r[i]).0 != (
            #[trigger] r[j]).0 by {
                assert(before[i] == r[i]);
                assert(is_listed(before, before[i].0));
                if j < before.len() {
                    assert(before[j] == r[j]);
                }
            }
        }
    }
}

/// Every group is listed once: those that the coordinator knows, and those that
/// only committed an offset.
pub proof fn law_every_group_is_listed_once(
    r: Seq<(Seq<char>, Seq<char>)>,
    groups: Map<Seq<char>, GroupModel>,
    commits: Seq<OffsetModel>,
)
    requires
        groups_wf(groups),
        lists_groups(r, groups, commits),
    ensures
        forall|i: int, j: int|
            0 <= i < j < r.len() ==> (#[trigger] r[i]).0 != (#[trigger] r[j]).0,
        forall|g: Seq<char>| #[trigger]
            is_listed(r, g) <==> groups.contains_key(g) || exists|i: int|
                0 <= i < commits.len() && (#[trigger] commits[i]).0.0 == g,
{
    let (list, ids) = choose|list: Seq<(Seq<char>, GroupModel)>, ids: Seq<Seq<char>>|
        goes_through(list, groups) && are_committers(ids, commits) && #[trigger] listing_of(
            r,
            list,
            ids,
        );
    let known = ids_of(list);
    let front = ids_and_types(list);
    let back = unknown(known, ids);
    lemma_unknown(known, ids);
    assert forall|i: int| 0 <= i < list.len() implies (#[trigger] list[i]).1.group_id
        == list[i].0 by {
        assert(groups.contains_key(list[i].0));
    }
    assert forall|g: Seq<char>| known.contains(g) <==> groups.contains_key(g) by {
        if known.contains(g) {
            let i = choose|i: int| 0 <= i < known.len() && known[i] == g;
            assert(list[i].0 == g);
        }
        if groups.contains_key(g) {
            let i = choose|i: int| 0 <= i < list.len() && (#[trigger] list[i]).0 == g;
            assert(known[i] == g);
        }
    }
    assert forall|i: int, j: int| 0 <= i < j < r.len() implies (#[trigger] r[i]).0 != (
    #[trigger] r[j]).0 by {
        if j < front.len() {
            assert(r[i] == front[i] && r[j] == front[j]);
            assert(list[i].0 != list[j].0);
        } else if i < front.len() {
            assert(known[i] == r[i].0);
            assert(known.contains(known[i]));
            assert(back[j - front.len()] == r[j]);
            assert(is_listed(back, back[j - front.len()].0));
        } else {
            assert(back[i - front.len()] == r[i]);
            assert(back[j - front.len()] == r[j]);
        }
    }
    assert forall|g: Seq<char>| #[trigger] is_listed(r, g) <==> groups.contains_key(g) || exists|
        i: int,
    |
        0 <= i < commits.len() && (#[trigger] commits[i]).0.0 == g by {
        assert(ids.contains(g) <==> exists|i: int|
            0 <= i < commits.len() && (#[trigger] commits[i]).0.0 == g);
        if is_listed(r, g) {
            let i = choose|i: int| 0 <= i < r.len() && (#[trigger] r[i]).0 == g;
            if i < front.len() {
                assert(known[i] == g);
            } else {
                assert(back[i - front.len()].0 == g);
                assert(is_listed(back, g));
            }
        }
        if known.contains(g) {
            let i = choose|i: int| 0 <= i < known.len() && known[i] == g;
            assert(r[i].0 == g);
        } else if ids.contains(g) {
            assert(is_listed(back, g));
            let i = choose|i: int| 0 <= i < back.len() && (#[trigger] back[i]).0 == g;
            assert(r[front.len() + i].0 == g);
        }
    }
}

} // verus!
