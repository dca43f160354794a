//! What holds of consumer groups, whatever they are asked.

use vstd::prelude::*;
use vstd::utf8::encode_utf8;

use crate::group::coordinator::{
    after_expiry, after_heartbeat, after_join, after_leave, after_sync, alive, answer_to_join,
    are_committers, assigned, commit_refusal_of, groups_after_join, groups_wf, has_member,
    heartbeat_says, ids_and_types, ids_of, join_answer, join_refusal, joining_id,
    law_assignment_arrives, lemma_alive, lemma_assigned_ids, lemma_member_at, lemma_same_ids,
    listing_of, lists_groups, member_at, member_refusal, new_group, overdue, state_name, unknown,
    with_member, without_member, GroupModel, GroupState, JoinModel, MemberModel,
};
use crate::group::offset_store::{
    commit_batch, group_partition, hash_bytes, strings_fit, OffsetKey, OffsetModel, OffsetValue,
};
use crate::maps::goes_through;
use crate::protocol::primitive::{
    cursor, enc_nullable_string, enc_string, law_i32_round_trip, law_i64_round_trip,
    law_nullable_string_round_trip, law_string_round_trip, sp_i32, sp_i64, sp_nullable_string,
    sp_string,
};
use crate::protocol::recordbatch::latest;
use crate::protocol::wire::{enc_i32, enc_i64};
use crate::text;

verus! {

/// How many nanoseconds a member may be silent: its session, and less than a
/// millisecond more.
pub open spec fn may_be_silent(m: MemberModel) -> int {
    m.session_timeout_ms * 1_000_000 + 999_999
}

// ---------------------------------------------------------------------------
// Who is a member

/// There is a member with an id if one of them has it.
pub proof fn law_members_are_found(ms: Seq<MemberModel>, id: Seq<char>)
    ensures
        has_member(ms, id) <==> exists|i: int|
            0 <= i < ms.len() && (#[trigger] ms[i]).member_id == id,
        has_member(ms, id) ==> 0 <= member_at(ms, id) < ms.len() && ms[member_at(
            ms,
            id,
        )].member_id == id,
{
    lemma_member_at(ms, id);
}

proof fn lemma_without_is_filter(ms: Seq<MemberModel>, id: Seq<char>)
    ensures
        without_member(ms, id) == ms.filter(|m: MemberModel| m.member_id != id),
    decreases ms.len(),
{
    reveal(Seq::filter);
    if ms.len() > 0 {
        lemma_without_is_filter(ms.drop_last(), id);
    }
}

proof fn lemma_alive_is_filter(ms: Seq<MemberModel>, now: u128)
    ensures
        alive(ms, now) == ms.filter(
            |m: MemberModel| m.session_timeout_ms < 0 || now - m.last_heartbeat <= may_be_silent(m),
        ),
    decreases ms.len(),
{
    reveal(Seq::filter);
    if ms.len() > 0 {
        lemma_alive_is_filter(ms.drop_last(), now);
        lemma_overdue(ms.last(), now);
    }
}

proof fn lemma_overdue(m: MemberModel, now: u128)
    ensures
        overdue(m, now) <==> m.session_timeout_ms >= 0 && now - m.last_heartbeat > may_be_silent(m),
{
}

proof fn lemma_filter_contains(
    ms: Seq<MemberModel>,
    keep: spec_fn(MemberModel) -> bool,
    m: MemberModel,
)
    ensures
        ms.filter(keep).contains(m) <==> ms.contains(m) && keep(m),
        ms.filter(keep).len() <= ms.len(),
    decreases ms.len(),
{
    reveal(Seq::filter);
    if ms.len() > 0 {
        let front = ms.drop_last();
        let f = front.filter(keep);
        lemma_filter_contains(front, keep, m);
        assert(ms.contains(m) <==> front.contains(m) || m == ms.last()) by {
            if front.contains(m) {
                let i = choose|i: int| 0 <= i < front.len() && front[i] == m;
                assert(ms[i] == m);
            }
            assert(ms[ms.len() - 1] == ms.last());
            if ms.contains(m) && m != ms.last() {
                let i = choose|i: int| 0 <= i < ms.len() && ms[i] == m;
                assert(front[i] == m);
            }
        }
        if keep(ms.last()) {
            let g = f.push(ms.last());
            assert(g.contains(m) <==> f.contains(m) || m == ms.last()) by {
                if f.contains(m) {
                    let i = choose|i: int| 0 <= i < f.len() && f[i] == m;
                    assert(g[i] == m);
                }
                assert(g[f.len() as int] == ms.last());
                if g.contains(m) && m != ms.last() {
                    let i = choose|i: int| 0 <= i < g.len() && g[i] == m;
                    assert(f[i] == m);
                }
            }
        }
    }
}

// ---------------------------------------------------------------------------
// Leaving

/// Who leaves takes no one along: the members are those with other ids, as they
/// were and in their order.
pub proof fn law_leave_drops_one_member(g: GroupModel, id: Seq<char>)
    ensures
        after_leave(g, id).members == g.members.filter(|m: MemberModel| m.member_id != id),
        forall|m: MemberModel| #[trigger]
            after_leave(g, id).members.contains(m) <==> g.members.contains(m) && m.member_id != id,
{
    lemma_without_is_filter(g.members, id);
    assert forall|m: MemberModel| #[trigger]
        after_leave(g, id).members.contains(m) <==> g.members.contains(m) && m.member_id != id by {
        lemma_filter_contains(g.members, |x: MemberModel| x.member_id != id, m);
    }
}

/// Who stays is heard as before: a request of another member is refused after
/// someone left just as it was before.
pub proof fn law_leave_concerns_no_other(
    g: GroupModel,
    id: Seq<char>,
    other: Seq<char>,
    generation_id: i32,
)
    requires
        other != id,
    ensures
        has_member(after_leave(g, id).members, other) == has_member(g.members, other),
        member_refusal(Some(after_leave(g, id)), generation_id, other) == member_refusal(
            Some(g),
            generation_id,
            other,
        ),
        !has_member(after_leave(g, id).members, id),
{
    let a = after_leave(g, id).members;
    law_leave_drops_one_member(g, id);
    law_members_are_found(a, other);
    law_members_are_found(g.members, other);
    law_members_are_found(a, id);
    if has_member(g.members, other) {
        let m = g.members[member_at(g.members, other)];
        assert(g.members.contains(m));
        assert(a.contains(m));
    }
    if has_member(a, other) {
        let m = a[member_at(a, other)];
        assert(a.contains(m));
        assert(g.members.contains(m));
    }
    if has_member(a, id) {
        assert(a.contains(a[member_at(a, id)]));
    }
}

/// A group that someone left has to rebalance if anyone is left, and is the same
/// in all else. It is in the same generation.
pub proof fn law_leave_changes_the_state(g: GroupModel, id: Seq<char>)
    ensures
        ({
            let h = after_leave(g, id);
            &&& (h.state == GroupState::Empty) == (forall|i: int|
                0 <= i < g.members.len() ==> (#[trigger] g.members[i]).member_id == id)
            &&& h.state != GroupState::Empty ==> h.state == GroupState::PreparingRebalance
            &&& h.group_id == g.group_id
            &&& h.generation_id == g.generation_id
            &&& h.leader_id == g.leader_id
            &&& h.protocol == g.protocol
            &&& h.protocol_type == g.protocol_type
        }),
{
    let h = after_leave(g, id);
    law_leave_drops_one_member(g, id);
    if h.members.len() == 0 {
        assert forall|i: int| 0 <= i < g.members.len() implies (#[trigger] g.members[i]).member_id
            == id by {
            let m = g.members[i];
            assert(g.members.contains(m));
            assert(!h.members.contains(m));
        }
    } else {
        let m = h.members[0];
        assert(h.members.contains(m));
        let i = choose|i: int| 0 <= i < g.members.len() && g.members[i] == m;
        assert(g.members[i].member_id != id);
    }
}

// ---------------------------------------------------------------------------
// Expiry

/// Who was silent for longer than its session allows is dropped, and no one else:
/// the others are members as they were, in their order.
pub proof fn law_expiry_drops_the_silent(g: GroupModel, now: u128)
    ensures
        after_expiry(g, now).members == g.members.filter(
            |m: MemberModel| m.session_timeout_ms < 0 || now - m.last_heartbeat <= may_be_silent(m),
        ),
        forall|m: MemberModel| #[trigger]
            after_expiry(g, now).members.contains(m) <==> g.members.contains(m) && (
            m.session_timeout_ms < 0 || now - m.last_heartbeat <= may_be_silent(m)),
{
    let keep = |m: MemberModel|
        m.session_timeout_ms < 0 || now - m.last_heartbeat <= may_be_silent(m);
    lemma_alive_is_filter(g.members, now);
    lemma_alive(g.members, now);
    assert forall|m: MemberModel| #[trigger]
        after_expiry(g, now).members.contains(m) <==> g.members.contains(m) && (
        m.session_timeout_ms < 0 || now - m.last_heartbeat <= may_be_silent(m)) by {
        lemma_filter_contains(g.members, keep, m);
    }
}

/// A group of which no one was silent for too long is not touched. One that lost
/// some of its members has to agree on a leader and a protocol anew.
pub proof fn law_expiry_changes_the_state(g: GroupModel, now: u128)
    ensures
        ({
            let h = after_expiry(g, now);
            &&& (forall|i: int|
                0 <= i < g.members.len() ==> now - (#[trigger] g.members[i]).last_heartbeat
                    <= may_be_silent(g.members[i])) ==> h == g
            &&& h.members.len() == g.members.len() ==> h == g
            &&& 0 < h.members.len() < g.members.len() ==> h.state
                == GroupState::PreparingRebalance && h.leader_id is None && h.protocol is None
            &&& h.members.len() == 0 && g.members.len() > 0 ==> h.state == GroupState::Empty
            &&& h.generation_id == g.generation_id
            &&& h.group_id == g.group_id
            &&& h.protocol_type == g.protocol_type
        }),
{
    lemma_alive(g.members, now);
    if forall|i: int|
        0 <= i < g.members.len() ==> now - (#[trigger] g.members[i]).last_heartbeat
            <= may_be_silent(g.members[i]) {
        lemma_all_alive(g.members, now);
    }
}

proof fn lemma_all_alive(ms: Seq<MemberModel>, now: u128)
    requires
        forall|i: int|
            0 <= i < ms.len() ==> now - (#[trigger] ms[i]).last_heartbeat <= may_be_silent(ms[i]),
    ensures
        alive(ms, now) == ms,
    decreases ms.len(),
{
    if ms.len() > 0 {
        let front = ms.drop_last();
        assert forall|i: int| 0 <= i < front.len() implies now - (
        #[trigger] front[i]).last_heartbeat <= may_be_silent(front[i]) by {
            assert(front[i] == ms[i]);
        }
        lemma_all_alive(front, now);
        assert(ms[ms.len() - 1] == ms.last());
        lemma_overdue(ms.last(), now);
        assert(front.push(ms.last()) =~= ms);
    } else {
        assert(alive(ms, now) =~= ms);
    }
}

// ---------------------------------------------------------------------------
// Joining

/// Who may join: who says how long it may be silent, offers a protocol, and is of
/// the group's type, if the group has one. Anyone else is told why not.
pub proof fn law_who_may_join(g: Option<GroupModel>, req: JoinModel)
    ensures
        join_refusal(g, req) is None <==> {
            &&& req.session_timeout_ms >= 0
            &&& req.protocols.len() > 0
            &&& g matches Some(g) ==> g.protocol_type == req.protocol_type
                || g.protocol_type.len() == 0
        },
        req.session_timeout_ms < 0 ==> join_refusal(g, req) == Some(26i16),
        req.session_timeout_ms >= 0 && join_refusal(g, req) is Some ==> join_refusal(g, req)
            == Some(23i16),
{
}

/// Who joins is a member with what it said of itself, just heard of and without
/// an assignment, under its own id or one that it is told.
pub proof fn law_joined_as_it_said(g: GroupModel, req: JoinModel, now: u128)
    ensures
        ({
            let h = after_join(g, req, now);
            let id = join_answer(g, req, now).member_id;
            &&& req.member_id.len() > 0 ==> id == req.member_id
            &&& req.member_id.len() == 0 ==> id == "rivine-"@ + req.group_id + "-"@
                + text::decimal_nat(alive(g.members, now).len() + 1)
            &&& exists|i: int|
                0 <= i < h.members.len() && #[trigger] h.members[i] == (MemberModel {
                    member_id: id,
                    session_timeout_ms: req.session_timeout_ms,
                    rebalance_timeout_ms: req.rebalance_timeout_ms,
                    protocols: req.protocols,
                    last_heartbeat: now,
                    assignment: Seq::empty(),
                    metadata: req.protocols[0].1,
                })
        }),
{
    let h = after_join(g, req, now);
    let ms = alive(g.members, now);
    let id = joining_id(g, req, now);
    lemma_member_at(ms, id);
    let k = member_at(ms, id);
    let at = if k >= 0 {
        k
    } else {
        ms.len() as int
    };
    assert(h.members[at].member_id == id);
}

/// Who joins pushes no one out: the others that are not overdue are members as
/// they were.
pub proof fn law_join_keeps_the_others(g: GroupModel, req: JoinModel, now: u128, m: MemberModel)
    requires
        m.member_id != join_answer(g, req, now).member_id,
    ensures
        after_join(g, req, now).members.contains(m) <==> g.members.contains(m) && (
        m.session_timeout_ms < 0 || now - m.last_heartbeat <= may_be_silent(m)),
{
    let ms = alive(g.members, now);
    let id = joining_id(g, req, now);
    let h = after_join(g, req, now);
    lemma_alive_is_filter(g.members, now);
    lemma_filter_contains(
        g.members,
        |m: MemberModel| m.session_timeout_ms < 0 || now - m.last_heartbeat <= may_be_silent(m),
        m,
    );
    lemma_member_at(ms, id);
    let k = member_at(ms, id);
    if ms.contains(m) {
        let i = choose|i: int| 0 <= i < ms.len() && ms[i] == m;
        assert(h.members[i] == m);
    }
    if h.members.contains(m) {
        let i = choose|i: int| 0 <= i < h.members.len() && h.members[i] == m;
        assert(ms[i] == m);
    }
}

/// Who comes back keeps its place among the members; who is new comes last.
pub proof fn law_join_keeps_the_order(g: GroupModel, req: JoinModel, now: u128)
    ensures
        ({
            let ms = g.members.filter(
                |m: MemberModel|
                    m.session_timeout_ms < 0 || now - m.last_heartbeat <= may_be_silent(m),
            );
            let h = after_join(g, req, now);
            let id = join_answer(g, req, now).member_id;
            let known = exists|i: int| 0 <= i < ms.len() && (#[trigger] ms[i]).member_id == id;
            &&& h.members.len() == if known {
                ms.len()
            } else {
                ms.len() + 1
            }
            &&& forall|i: int|
                0 <= i < ms.len() ==> (#[trigger] h.members[i]).member_id == ms[i].member_id
            &&& !known ==> h.members[ms.len() as int].member_id == id
        }),
{
    let ms = alive(g.members, now);
    lemma_alive_is_filter(g.members, now);
    lemma_member_at(ms, joining_id(g, req, now));
}

/// Who joins anew leads the group, and the group has no protocol yet; who comes
/// back leaves both as they are, but leads if no one does. The answer says who
/// leads.
pub proof fn law_who_leads_after_a_join(g: GroupModel, req: JoinModel, now: u128)
    ensures
        ({
            let h = after_join(g, req, now);
            let a = join_answer(g, req, now);
            let ms = alive(g.members, now);
            let known = exists|i: int|
                0 <= i < ms.len() && (#[trigger] ms[i]).member_id == a.member_id;
            &&& !known ==> h.leader_id == Some(a.member_id) && h.protocol is None
            &&& known && g.leader_id is Some ==> h.leader_id == g.leader_id
            &&& known && g.leader_id is None ==> h.leader_id == Some(a.member_id)
            &&& known ==> h.protocol == g.protocol
            &&& Some(a.leader) == h.leader_id
            &&& h.group_id == g.group_id
            &&& h.protocol_type == req.protocol_type
            &&& h.state == GroupState::CompletingRebalance
        }),
{
    law_members_are_found(alive(g.members, now), joining_id(g, req, now));
}

/// Who joins is told the generation, the first protocol of the first member, and
/// of every member its id and metadata.
pub proof fn law_join_answer_tells_all(g: GroupModel, req: JoinModel, now: u128)
    ensures
        ({
            let h = after_join(g, req, now);
            let a = join_answer(g, req, now);
            &&& a.error_code == 0
            &&& a.generation_id == h.generation_id
            &&& a.members.len() == h.members.len()
            &&& forall|i: int|
                0 <= i < h.members.len() ==> (#[trigger] a.members[i]).0 == h.members[i].member_id
                    && a.members[i].1 == h.members[i].metadata
            &&& h.members.len() > 0 && h.members[0].protocols.len() > 0 ==> a.protocol == Some(
                h.members[0].protocols[0].0,
            )
        }),
{
}

/// A request to join concerns no other group, and one that is refused no member.
pub proof fn law_join_concerns_one_group(
    m: Map<Seq<char>, GroupModel>,
    req: JoinModel,
    now: u128,
    other: Seq<char>,
)
    ensures
        other != req.group_id ==> groups_after_join(m, req, now).get(other) == m.get(other),
        join_refusal(m.get(req.group_id), req) is Some && m.contains_key(req.group_id)
            ==> groups_after_join(m, req, now) == m,
        join_refusal(m.get(req.group_id), req) matches Some(code) ==> answer_to_join(
            m,
            req,
            now,
        ).error_code == code && answer_to_join(m, req, now).members.len() == 0,
        join_refusal(m.get(req.group_id), req) is None && m.contains_key(req.group_id)
            ==> groups_after_join(m, req, now).get(req.group_id) == Some(
            after_join(m[req.group_id], req, now),
        ),
{
    if m.contains_key(req.group_id) {
        assert(m.insert(req.group_id, m[req.group_id]) =~= m);
    }
}

/// The first member of a group that was not there is its leader, in its first
/// generation.
pub proof fn law_first_member(m: Map<Seq<char>, GroupModel>, req: JoinModel, now: u128)
    requires
        !m.contains_key(req.group_id),
        req.session_timeout_ms >= 0,
        req.protocols.len() > 0,
    ensures
        ({
            let h = groups_after_join(m, req, now)[req.group_id];
            let a = answer_to_join(m, req, now);
            &&& h.group_id == req.group_id
            &&& h.generation_id == 1
            &&& h.members.len() == 1
            &&& h.members[0].member_id == a.member_id
            &&& a.leader == a.member_id
            &&& a.generation_id == 1
            &&& a.members.len() == 1
            &&& a.protocol == Some(req.protocols[0].0)
        }),
{
    let g = new_group(req.group_id);
    assert(alive(g.members, now) =~= Seq::empty());
    assert(!has_member(alive(g.members, now), joining_id(g, req, now)));
    assert(with_member(alive(g.members, now), after_join(g, req, now).members[0]).len() == 1);
}

// ---------------------------------------------------------------------------
// Who is heard

/// A request of a member is taken if there is its group, in the generation that
/// it says, and it is in it; the first of these that fails is what it is told.
pub proof fn law_who_is_heard(g: Option<GroupModel>, generation_id: i32, id: Seq<char>)
    ensures
        g is None ==> member_refusal(g, generation_id, id) == Some(16i16),
        g matches Some(h) ==> {
            let there = exists|i: int|
                0 <= i < h.members.len() && (#[trigger] h.members[i]).member_id == id;
            &&& h.generation_id != generation_id ==> member_refusal(g, generation_id, id) == Some(
                22i16,
            )
            &&& h.generation_id == generation_id && !there ==> member_refusal(
                g,
                generation_id,
                id,
            ) == Some(25i16)
            &&& h.generation_id == generation_id && there ==> member_refusal(
                g,
                generation_id,
                id,
            ) is None
        },
{
    if g is Some {
        law_members_are_found(g->Some_0.members, id);
    }
}

/// A commit is taken from who is in no group, for a group that is not known, and
/// from a member in the group's generation once the group is stable.
pub proof fn law_who_may_commit(g: Option<GroupModel>, generation_id: i32, id: Seq<char>)
    ensures
        generation_id == -1 && id.len() == 0 ==> commit_refusal_of(g, generation_id, id) is None,
        g is None ==> commit_refusal_of(g, generation_id, id) is None,
        !(generation_id == -1 && id.len() == 0) ==> (g matches Some(h) ==> {
            let there = exists|i: int|
                0 <= i < h.members.len() && (#[trigger] h.members[i]).member_id == id;
            let refusal = commit_refusal_of(g, generation_id, id);
            &&& refusal is None <==> h.generation_id == generation_id && there && h.state
                == GroupState::Stable
            &&& h.generation_id != generation_id ==> refusal == Some(22i16)
            &&& h.generation_id == generation_id && !there ==> refusal == Some(25i16)
            &&& h.generation_id == generation_id && there && h.state != GroupState::Stable
                ==> refusal == Some(27i16)
        }),
{
    if g is Some {
        law_members_are_found(g->Some_0.members, id);
    }
}

/// A sign of life changes when its sender was last heard of, and nothing else.
pub proof fn law_heartbeat_concerns_one_member(g: GroupModel, id: Seq<char>, now: u128)
    requires
        has_member(g.members, id),
    ensures
        ({
            let h = after_heartbeat(g, id, now);
            &&& h.members.len() == g.members.len()
            &&& exists|k: int|
                {
                    &&& 0 <= k < g.members.len()
                    &&& (#[trigger] g.members[k]).member_id == id
                    &&& h.members[k] == (MemberModel { last_heartbeat: now, ..g.members[k] })
                    &&& forall|i: int|
                        0 <= i < g.members.len() && i != k ==> #[trigger] h.members[i]
                            == g.members[i]
                }
            &&& h == (GroupModel { members: h.members, ..g })
        }),
{
    lemma_member_at(g.members, id);
    let k = member_at(g.members, id);
    assert(g.members[k].member_id == id);
}

/// Who was just heard of is not dropped for as long as it may be silent.
pub proof fn law_heard_is_not_dropped(
    g: GroupModel,
    id: Seq<char>,
    now: u128,
    later: u128,
)
    requires
        has_member(g.members, id),
        g.members[member_at(g.members, id)].session_timeout_ms >= 0,
        later <= now + g.members[member_at(g.members, id)].session_timeout_ms * 1_000_000,
    ensures
        has_member(after_expiry(after_heartbeat(g, id, now), later).members, id),
{
    let h = after_heartbeat(g, id, now);
    lemma_member_at(g.members, id);
    let k = member_at(g.members, id);
    let e = after_expiry(h, later);
    assert(h.members.contains(h.members[k]));
    law_expiry_drops_the_silent(h, later);
    assert(e.members.contains(h.members[k]));
    let i = choose|i: int| 0 <= i < e.members.len() && e.members[i] == h.members[k];
    law_members_are_found(e.members, id);
    assert(e.members[i].member_id == id);
}

/// What a sign of life is answered, and that it concerns no other group.
pub proof fn law_heartbeat_answer(
    before: Map<Seq<char>, GroupModel>,
    group_id: Seq<char>,
    generation_id: i32,
    id: Seq<char>,
    now: u128,
    after: Map<Seq<char>, GroupModel>,
    r: i16,
)
    requires
        heartbeat_says(before, group_id, generation_id, id, now, after, r),
    ensures
        r != 0 ==> after == before,
        !before.contains_key(group_id) ==> r == 16,
        r == 0 ==> before.contains_key(group_id) && before[group_id].generation_id
            == generation_id && has_member(before[group_id].members, id),
        before.contains_key(group_id) && before[group_id].generation_id == generation_id
            && has_member(before[group_id].members, id) ==> r == 0,
        forall|other: Seq<char>|
            other != group_id ==> #[trigger] after.get(other) == before.get(other),
{
}

// ---------------------------------------------------------------------------
// Assignments

/// Only the leader assigns. Whoever else asks changes nothing but that the group
/// is stable.
pub proof fn law_only_the_leader_assigns(
    g: GroupModel,
    id: Seq<char>,
    given: Seq<(Seq<char>, Seq<u8>)>,
)
    ensures
        after_sync(g, id, given).state == GroupState::Stable,
        g.leader_id != Some(id) ==> after_sync(g, id, given) == (GroupModel {
            state: GroupState::Stable,
            ..g
        }),
        after_sync(g, id, given) == (GroupModel {
            state: GroupState::Stable,
            members: after_sync(g, id, given).members,
            ..g
        }),
{
}

/// What the leader hands in changes the members' assignments and nothing else of
/// them; who is not mentioned keeps what it had.
pub proof fn law_assignments_change_nothing_else(
    g: GroupModel,
    id: Seq<char>,
    given: Seq<(Seq<char>, Seq<u8>)>,
    i: int,
)
    requires
        0 <= i < g.members.len(),
    ensures
        ({
            let a = g.members[i];
            let b = after_sync(g, id, given).members[i];
            &&& after_sync(g, id, given).members.len() == g.members.len()
            &&& b == (MemberModel { assignment: b.assignment, ..a })
            &&& (forall|k: int| 0 <= k < given.len() ==> (#[trigger] given[k]).0 != a.member_id)
                ==> b == a
        }),
{
    lemma_assigned_one_by_one(g.members, given, i);
}

proof fn lemma_assigned_one_by_one(
    ms: Seq<MemberModel>,
    given: Seq<(Seq<char>, Seq<u8>)>,
    i: int,
)
    requires
        0 <= i < ms.len(),
    ensures
        assigned(ms, given).len() == ms.len(),
        assigned(ms, given)[i] == (MemberModel {
            assignment: assigned(ms, given)[i].assignment,
            ..ms[i]
        }),
        (forall|k: int| 0 <= k < given.len() ==> (#[trigger] given[k]).0 != ms[i].member_id)
            ==> assigned(ms, given)[i] == ms[i],
    decreases given.len(),
{
    if given.len() > 0 {
        let front = given.drop_last();
        lemma_assigned_one_by_one(ms, front, i);
        lemma_assigned_ids(ms, front);
        lemma_member_at(assigned(ms, front), given.last().0);
        if forall|k: int| 0 <= k < given.len() ==> (#[trigger] given[k]).0 != ms[i].member_id {
            assert forall|k: int| 0 <= k < front.len() implies (#[trigger] front[k]).0
                != ms[i].member_id by {
                assert(given[k].0 != ms[i].member_id);
            }
            assert(given[given.len() - 1].0 != ms[i].member_id);
        }
    }
}

/// What the leader assigns a member last is what that member is told when it asks,
/// and still is when others ask between.
pub proof fn law_assignment_is_told(
    g: GroupModel,
    leader: Seq<char>,
    given: Seq<(Seq<char>, Seq<u8>)>,
    k: int,
    others: Seq<(Seq<char>, Seq<u8>)>,
)
    requires
        g.leader_id == Some(leader),
        0 <= k < given.len(),
        has_member(g.members, given[k].0),
        forall|j: int| k < j < given.len() ==> (#[trigger] given[j]).0 != given[k].0,
        given[k].0 != leader,
    ensures
        ({
            let h = after_sync(after_sync(g, leader, given), given[k].0, others);
            h.members[member_at(h.members, given[k].0)].assignment == given[k].1
        }),
{
    law_assignment_arrives(g.members, given, k);
    lemma_assigned_ids(g.members, given);
    lemma_same_ids(g.members, assigned(g.members, given), given[k].0);
}

/// An assignment goes to the member that it names, and to no other.
pub proof fn law_assignment_goes_to_its_member(
    ms: Seq<MemberModel>,
    a: (Seq<char>, Seq<u8>),
    i: int,
)
    requires
        0 <= i < ms.len(),
        forall|j: int|
            0 <= j < ms.len() && j != i ==> (#[trigger] ms[j]).member_id != ms[i].member_id,
    ensures
        assigned(ms, seq![a])[i].assignment == if a.0 == ms[i].member_id {
            a.1
        } else {
            ms[i].assignment
        },
{
    let none = Seq::<(Seq<char>, Seq<u8>)>::empty();
    assert(seq![a].drop_last() =~= none);
    assert(assigned(ms, none) == ms);
    lemma_member_at(ms, a.0);
}

/// The names of the states are those that clients know, each another.
pub proof fn law_state_names()
    ensures
        state_name(GroupState::Empty) == "Empty"@,
        state_name(GroupState::PreparingRebalance) == "PreparingRebalance"@,
        state_name(GroupState::CompletingRebalance) == "CompletingRebalance"@,
        state_name(GroupState::Stable) == "Stable"@,
{
}

/// The partition of a group is the remainder of its number by that of the
/// partitions.
pub proof fn law_partition_of_a_group(group: Seq<char>, partitions: i32)
    requires
        partitions > 0,
    ensures
        group_partition(group, partitions) == hash_bytes(encode_utf8(group)) as int
            % partitions as int,
        0 <= group_partition(group, partitions) < partitions,
{
}

// ---------------------------------------------------------------------------
// What a refusal leaves

/// Who is refused for a session that cannot be changes nothing. Who is refused for
/// its protocols changes no group that there is; if there is none, one without
/// members is begun.
pub proof fn law_refused_join_changes_no_group(
    groups: Map<Seq<char>, GroupModel>,
    req: JoinModel,
    now: u128,
)
    requires
        answer_to_join(groups, req, now).error_code != 0,
    ensures
        ({
            let after = groups_after_join(groups, req, now);
            &&& req.session_timeout_ms < 0 ==> after == groups
            &&& groups.contains_key(req.group_id) ==> after == groups
            &&& req.session_timeout_ms >= 0 && !groups.contains_key(req.group_id) ==> {
                &&& after == groups.insert(req.group_id, after[req.group_id])
                &&& after[req.group_id].group_id == req.group_id
                &&& after[req.group_id].state == GroupState::Empty
                &&& after[req.group_id].generation_id == 0
                &&& after[req.group_id].members.len() == 0
                &&& after[req.group_id].leader_id is None
                &&& after[req.group_id].protocol is None
                &&& after[req.group_id].protocol_type.len() == 0
            }
        }),
{
    let after = groups_after_join(groups, req, now);
    if groups.contains_key(req.group_id) {
        assert(after =~= groups);
    } else if req.session_timeout_ms >= 0 {
        assert(after =~= groups.insert(req.group_id, after[req.group_id]));
    }
}

/// Who is refused is told why, and nothing of the group.
pub proof fn law_refused_join_is_told(
    groups: Map<Seq<char>, GroupModel>,
    req: JoinModel,
    now: u128,
)
    requires
        answer_to_join(groups, req, now).error_code != 0,
    ensures
        ({
            let a = answer_to_join(groups, req, now);
            &&& a.generation_id == 0
            &&& a.leader.len() == 0
            &&& a.member_id.len() == 0
            &&& a.protocol is None
            &&& a.members.len() == 0
            &&& a.error_code == 26 <==> req.session_timeout_ms < 0
            &&& a.error_code != 26 ==> a.error_code == 23
        }),
{
}

/// What is listed of a group is its id and its type. One that only committed has no
/// type.
pub proof fn law_types_are_listed(
    r: Seq<(Seq<char>, Seq<char>)>,
    groups: Map<Seq<char>, GroupModel>,
    commits: Seq<OffsetModel>,
    i: int,
)
    requires
        groups_wf(groups),
        lists_groups(r, groups, commits),
        0 <= i < r.len(),
    ensures
        groups.contains_key(r[i].0) ==> r[i].1 == groups[r[i].0].protocol_type,
        !groups.contains_key(r[i].0) ==> r[i].1.len() == 0,
{
    let (list, ids) = choose|list: Seq<(Seq<char>, GroupModel)>, ids: Seq<Seq<char>>|
        goes_through(list, groups) && are_committers(ids, commits) && #[trigger] listing_of(
            r,
            list,
            ids,
        );
    let front = ids_and_types(list);
    if i < front.len() {
        assert(r[i] == front[i]);
        assert(groups.contains_key(list[i].0));
    } else {
        let k = i - front.len();
        lemma_unknown_have_no_type(ids_of(list), ids, k);
        assert(r[i] == unknown(ids_of(list), ids)[k]);
        if groups.contains_key(r[i].0) {
            let j = choose|j: int| 0 <= j < list.len() && (#[trigger] list[j]).0 == r[i].0;
            assert(groups.contains_key(list[j].0));
            assert(ids_of(list)[j] == r[i].0);
        }
    }
}

proof fn lemma_unknown_have_no_type(known: Seq<Seq<char>>, ids: Seq<Seq<char>>, k: int)
    requires
        0 <= k < unknown(known, ids).len(),
    ensures
        unknown(known, ids)[k].1.len() == 0,
        !known.contains(unknown(known, ids)[k].0),
    decreases ids.len(),
{
    let before = unknown(known, ids.drop_last());
    if k < before.len() {
        lemma_unknown_have_no_type(known, ids.drop_last(), k);
        assert(unknown(known, ids)[k] == before[k]);
    }
}

// ---------------------------------------------------------------------------
// Committed offsets

/// What a commit is kept as: one record of one batch, uncompressed and of the time
/// of the commit, under the bytes of the group's id, with the topic, the partition,
/// the offset and the metadata one after the other.
pub proof fn law_commit_is_written(
    key: OffsetKey,
    value: OffsetValue,
    base_offset: i64,
    now: i64,
)
    requires
        strings_fit(key.1, value.1),
    ensures
        ({
            let b = commit_batch(key, value, base_offset, now);
            let r = b.records[0];
            let (topic, c1) = sp_string(cursor(r.value->Some_0));
            let (partition, c2) = sp_i32(c1);
            let (offset, c3) = sp_i64(c2);
            let (metadata, c4) = sp_nullable_string(c3);
            &&& b.records.len() == 1
            &&& b.base_offset == base_offset
            &&& b.base_timestamp == now
            &&& b.max_timestamp == now
            &&& b.attributes == 0
            &&& b.producer_id == 0
            &&& b.producer_epoch == 0
            &&& b.base_sequence == 0
            &&& b.partition_leader_epoch == 0
            &&& r.attributes == 0
            &&& r.timestamp_delta == 0
            &&& r.offset_delta == 0
            &&& r.headers.len() == 0
            &&& r.key == Some(encode_utf8(key.0))
            &&& r.value is Some
            &&& topic == key.1
            &&& partition == key.2
            &&& offset == value.0
            &&& metadata == value.1
            &&& c4 == cursor(Seq::empty())
        }),
{
    let b = commit_batch(key, value, base_offset, now);
    let r = b.records[0];
    let raw = r.value->Some_0;
    let m = enc_nullable_string(value.1);
    let o = enc_i64(value.0) + m;
    let p = enc_i32(key.2) + o;
    assert(raw =~= enc_string(key.1) + p);
    law_string_round_trip(key.1, p);
    law_i32_round_trip(key.2, o);
    law_i64_round_trip(value.0, m);
    assert(m + Seq::<u8>::empty() =~= m);
    law_nullable_string_round_trip(value.1, Seq::empty());
    assert(b.records.drop_last() =~= Seq::empty());
    reveal_with_fuel(latest, 2);
}

} // verus!
