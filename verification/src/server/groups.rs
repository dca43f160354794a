//! Consumer groups and their offsets.

use vstd::multiset::group_multiset_axioms;
use vstd::prelude::*;
use vstd::seq_lib::group_to_multiset_ensures;
use vstd::utf8::encode_utf8;

use crate::buf::bytes_view;
use crate::group::coordinator::{
    after_leave, after_sync, answer_to_join, commit_refusal_of, copy_opt, copy_pairs, group_or_new,
    groups_after_join, heartbeat_says, join_request, lists_groups, member_at, member_refusal,
    state_name, GroupModel, JoinAnswer, JoinModel, MemberModel,
};
use crate::group::offset_store::{
    commit_outcome, group_partition, has_string, OffsetKey, OffsetModel, OffsetValue,
    CONSUMER_OFFSETS_TOPIC,
};
use crate::order::{is_ordered, law_order_is_total, law_order_is_transitive, ordered};
use crate::protocol::codec::only_if;
use crate::protocol::error_codes;
use crate::protocol::messages::groups::{
    DescribeGroupsRequest, DescribeGroupsResponse, DescribedGroup, DescribedGroupMember,
    HeartbeatRequest, JoinGroupRequest, JoinGroupRequestModel, JoinGroupResponse,
    LeaveGroupRequest, ListGroupsRequest, ListGroupsResponse, ListedGroup, SyncGroupRequest,
    SyncGroupResponse,
};
use crate::protocol::messages::offsets::{
    OffsetCommitRequest, OffsetFetchRequest, OffsetFetchResponse,
};
use crate::protocol::primitive::{enc_string, Encoder, Modeled};
use crate::protocol::wire::{enc_i16, enc_i32};
use crate::server::metadata::MetaView;
use crate::server::state::{
    add_writes, writes_of, PartitionWrite, PartitionWriteModel, RequestHandler,
};
use crate::storage::segment::SegmentWrite;

verus! {

// ---------------------------------------------------------------------------
// Members

/// What a request to join asks.
pub open spec fn join_asked(req: JoinGroupRequestModel) -> JoinModel {
    join_request(
        req.group_id,
        req.session_timeout_ms,
        req.rebalance_timeout_ms,
        req.member_id,
        req.protocol_type,
        req.group_protocols,
    )
}

/// Whether a response gives the answer to a request to join.
pub open spec fn says_joined(
    r: JoinGroupResponse,
    protocol_type: Seq<char>,
    a: JoinAnswer,
) -> bool {
    &&& r.throttle_time_ms == 0
    &&& r.error_code == a.error_code
    &&& r.generation_id == a.generation_id
    &&& r.protocol_type.model() == Some(protocol_type)
    &&& r.protocol_name.model() == a.protocol
    &&& r.leader@ == a.leader
    &&& r.member_id@ == a.member_id
    &&& r.members.model() == a.members
}

/// The bytes of a response that holds an error code alone. The throttle time is
/// there from version 1 on.
pub open spec fn enc_outcome(version: i16, error_code: i16) -> Seq<u8> {
    only_if(version >= 1, enc_i32(0)) + enc_i16(error_code)
}

fn put_outcome(e: &mut Encoder, version: i16, error_code: i16)
    ensures
        final(e)@ == old(e)@ + enc_outcome(version, error_code),
{
    if version >= 1 {
        e.put_i32(0);
    }
    e.put_i16(error_code);
    assert(e@ =~= old(e)@ + enc_outcome(version, error_code));
}

// ---------------------------------------------------------------------------
// Commits

/// An offset to commit: partition, offset, what the consumer notes beside it,
/// and a timestamp that does not matter.
pub type Commit = (i32, i64, Option<Seq<char>>, i64);

/// The topics, the offsets, and what is to be written, in the course of a
/// commit.
pub struct CommitState {
    pub meta: MetaView,
    pub offsets: Map<OffsetKey, OffsetValue>,
    pub writes: Seq<PartitionWriteModel>,
}

/// After an offset was committed: it is remembered, and appended to the group's
/// partition of the topic that holds commits.
pub open spec fn after_commit(
    st: CommitState,
    group: Seq<char>,
    topic: Seq<char>,
    c: Commit,
    partitions: i32,
    now: i64,
) -> CommitState {
    let target = group_partition(group, partitions);
    let key = (group, topic, c.0);
    let value = (c.1, c.2);
    let out = commit_outcome(st.meta, target, key, value, Seq::empty(), now);
    CommitState {
        meta: out.meta,
        offsets: st.offsets.insert(key, value),
        writes: st.writes + writes_of(CONSUMER_OFFSETS_TOPIC@, target, out.writes),
    }
}

/// After offsets in a topic were committed.
pub open spec fn after_topic_commits(
    st: CommitState,
    group: Seq<char>,
    topic: Seq<char>,
    cs: Seq<Commit>,
    partitions: i32,
    now: i64,
) -> CommitState
    decreases cs.len(),
{
    if cs.len() == 0 {
        st
    } else {
        after_commit(
            after_topic_commits(st, group, topic, cs.drop_last(), partitions, now),
            group,
            topic,
            cs.last(),
            partitions,
            now,
        )
    }
}

/// After offsets were committed.
pub open spec fn after_commits(
    st: CommitState,
    group: Seq<char>,
    ts: Seq<(Seq<char>, Seq<Commit>)>,
    partitions: i32,
    now: i64,
) -> CommitState
    decreases ts.len(),
{
    if ts.len() == 0 {
        st
    } else {
        after_topic_commits(
            after_commits(st, group, ts.drop_last(), partitions, now),
            group,
            ts.last().0,
            ts.last().1,
            partitions,
            now,
        )
    }
}

/// The bytes that answer for commits in a topic.
pub open spec fn enc_commit_parts(cs: Seq<Commit>, error_code: i16) -> Seq<u8>
    decreases cs.len(),
{
    if cs.len() == 0 {
        Seq::empty()
    } else {
        enc_commit_parts(cs.drop_last(), error_code) + enc_i32(cs.last().0) + enc_i16(error_code)
    }
}

/// The bytes that answer for commits.
pub open spec fn enc_commit_topics(ts: Seq<(Seq<char>, Seq<Commit>)>, error_code: i16) -> Seq<u8>
    decreases ts.len(),
{
    if ts.len() == 0 {
        Seq::empty()
    } else {
        enc_commit_topics(ts.drop_last(), error_code) + enc_string(ts.last().0) + enc_i32(
            ts.last().1.len() as i32,
        ) + enc_commit_parts(ts.last().1, error_code)
    }
}

/// The bytes of a response to commits, with one error code for all of them. The
/// throttle time is there from version 3 on.
pub open spec fn enc_commit_response(
    ts: Seq<(Seq<char>, Seq<Commit>)>,
    version: i16,
    error_code: i16,
) -> Seq<u8> {
    only_if(version >= 3, enc_i32(0)) + enc_i32(ts.len() as i32) + enc_commit_topics(ts, error_code)
}

/// The answer for a partition whose offset is asked for: -1 if none was
/// committed.
pub open spec fn offset_answer(
    offsets: Map<OffsetKey, OffsetValue>,
    group: Seq<char>,
    topic: Seq<char>,
    partition: i32,
) -> (i32, i64, Option<Seq<char>>, i16) {
    match offsets.get((group, topic, partition)) {
        Some(v) => (partition, v.0, v.1, error_codes::NONE),
        None => (partition, -1i64, None, error_codes::NONE),
    }
}

/// The answers for partitions of a topic.
pub open spec fn offset_answers(
    offsets: Map<OffsetKey, OffsetValue>,
    group: Seq<char>,
    topic: Seq<char>,
    ps: Seq<i32>,
) -> Seq<(i32, i64, Option<Seq<char>>, i16)> {
    Seq::new(ps.len(), |i: int| offset_answer(offsets, group, topic, ps[i]))
}

/// The answers for topics.
pub open spec fn all_offset_answers(
    offsets: Map<OffsetKey, OffsetValue>,
    group: Seq<char>,
    ts: Seq<(Seq<char>, Seq<i32>)>,
) -> Seq<(Seq<char>, Seq<(i32, i64, Option<Seq<char>>, i16)>)> {
    Seq::new(
        ts.len(),
        |i: int| (ts[i].0, offset_answers(offsets, group, ts[i].0, ts[i].1)),
    )
}

/// Whether an offset is committed in a topic.
pub open spec fn commits_in(cs: Seq<Commit>, partition: i32) -> bool {
    exists|i: int| 0 <= i < cs.len() && (#[trigger] cs[i]).0 == partition
}

/// Whether an offset is committed by a request.
pub open spec fn commits_at(
    ts: Seq<(Seq<char>, Seq<Commit>)>,
    topic: Seq<char>,
    partition: i32,
) -> bool {
    exists|i: int|
        0 <= i < ts.len() && (#[trigger] ts[i]).0 == topic && commits_in(ts[i].1, partition)
}

proof fn lemma_topic_commits_else(
    st: CommitState,
    group: Seq<char>,
    topic: Seq<char>,
    cs: Seq<Commit>,
    partitions: i32,
    now: i64,
    key: OffsetKey,
)
    requires
        key.0 != group || key.1 != topic || !commits_in(cs, key.2),
    ensures
        after_topic_commits(st, group, topic, cs, partitions, now).offsets.get(key)
            == st.offsets.get(key),
    decreases cs.len(),
{
    if cs.len() > 0 {
        let before = cs.drop_last();
        assert(cs[cs.len() - 1].0 == cs.last().0);
        if commits_in(before, key.2) {
            let i = choose|i: int| 0 <= i < before.len() && (#[trigger] before[i]).0 == key.2;
            assert(cs[i].0 == key.2);
        }
        lemma_topic_commits_else(st, group, topic, before, partitions, now, key);
    }
}

/// A commit changes nothing for other groups, nor for partitions that it does
/// not name.
pub proof fn law_commit_changes_no_other(
    st: CommitState,
    group: Seq<char>,
    ts: Seq<(Seq<char>, Seq<Commit>)>,
    partitions: i32,
    now: i64,
    key: OffsetKey,
)
    requires
        key.0 != group || !commits_at(ts, key.1, key.2),
    ensures
        after_commits(st, group, ts, partitions, now).offsets.get(key) == st.offsets.get(key),
    decreases ts.len(),
{
    if ts.len() > 0 {
        let before = ts.drop_last();
        assert(ts[ts.len() - 1] == ts.last());
        if commits_at(before, key.1, key.2) {
            let i = choose|i: int|
                0 <= i < before.len() && (#[trigger] before[i]).0 == key.1 && commits_in(
                    before[i].1,
                    key.2,
                );
            assert(ts[i] == before[i]);
        }
        law_commit_changes_no_other(st, group, before, partitions, now, key);
        lemma_topic_commits_else(
            after_commits(st, group, before, partitions, now),
            group,
            ts.last().0,
            ts.last().1,
            partitions,
            now,
            key,
        );
    }
}

proof fn lemma_topic_commit_at(
    st: CommitState,
    group: Seq<char>,
    topic: Seq<char>,
    cs: Seq<Commit>,
    partitions: i32,
    now: i64,
    j: int,
)
    requires
        0 <= j < cs.len(),
        !commits_in(cs.skip(j + 1), cs[j].0),
    ensures
        after_topic_commits(st, group, topic, cs, partitions, now).offsets.get(
            (group, topic, cs[j].0),
        ) == Some((cs[j].1, cs[j].2)),
    decreases cs.len(),
{
    let before = cs.drop_last();
    if j < cs.len() - 1 {
        let rest = cs.skip(j + 1);
        assert(rest[rest.len() - 1] == cs.last());
        assert(!(cs.last().0 == cs[j].0));
        if commits_in(before.skip(j + 1), cs[j].0) {
            let i = choose|i: int|
                0 <= i < before.skip(j + 1).len() && (#[trigger] before.skip(j + 1)[i]).0
                    == cs[j].0;
            assert(rest[i].0 == cs[j].0);
        }
        assert(before[j] == cs[j]);
        lemma_topic_commit_at(st, group, topic, before, partitions, now, j);
    }
}

/// What was committed is what is fetched: of every partition the last offset
/// that the request gave for it, and the note beside that.
pub proof fn law_committed_is_fetched(
    st: CommitState,
    group: Seq<char>,
    ts: Seq<(Seq<char>, Seq<Commit>)>,
    partitions: i32,
    now: i64,
    i: int,
    j: int,
)
    requires
        0 <= i < ts.len(),
        0 <= j < ts[i].1.len(),
        !commits_in(ts[i].1.skip(j + 1), ts[i].1[j].0),
        !commits_at(ts.skip(i + 1), ts[i].0, ts[i].1[j].0),
    ensures
        offset_answer(
            after_commits(st, group, ts, partitions, now).offsets,
            group,
            ts[i].0,
            ts[i].1[j].0,
        ) == (ts[i].1[j].0, ts[i].1[j].1, ts[i].1[j].2, error_codes::NONE),
        after_commits(st, group, ts, partitions, now).offsets.get(
            (group, ts[i].0, ts[i].1[j].0),
        ) == Some((ts[i].1[j].1, ts[i].1[j].2)),
    decreases ts.len(),
{
    let before = ts.drop_last();
    let mid = after_commits(st, group, before, partitions, now);
    let partition = ts[i].1[j].0;
    if i == ts.len() - 1 {
        lemma_topic_commit_at(mid, group, ts[i].0, ts[i].1, partitions, now, j);
    } else {
        let rest = ts.skip(i + 1);
        assert(rest[rest.len() - 1] == ts.last());
        assert(before[i] == ts[i]);
        if commits_at(before.skip(i + 1), ts[i].0, partition) {
            let k = choose|k: int|
                0 <= k < before.skip(i + 1).len() && (#[trigger] before.skip(i + 1)[k]).0
                    == ts[i].0 && commits_in(before.skip(i + 1)[k].1, partition);
            assert(rest[k] == before.skip(i + 1)[k]);
        }
        law_committed_is_fetched(st, group, before, partitions, now, i, j);
        lemma_topic_commits_else(
            mid,
            group,
            ts.last().0,
            ts.last().1,
            partitions,
            now,
            (group, ts[i].0, partition),
        );
    }
}

// ---------------------------------------------------------------------------
// Lists

/// A listed group: id, protocol type and the name of its state.
pub type Listed = (Seq<char>, Seq<char>, Seq<char>);

/// What is listed of a group. One that only committed offsets is empty.
pub open spec fn listed(
    groups: Map<Seq<char>, GroupModel>,
    entry: (Seq<char>, Seq<char>),
) -> Listed {
    (
        entry.0,
        entry.1,
        match groups.get(entry.0) {
            Some(g) => state_name(g.state),
            None => "Empty"@,
        },
    )
}

/// What is listed of groups, those in one of the states alone if there are any.
pub open spec fn all_listed(
    groups: Map<Seq<char>, GroupModel>,
    entries: Seq<(Seq<char>, Seq<char>)>,
    states: Seq<Seq<char>>,
) -> Seq<Listed>
    decreases entries.len(),
{
    if entries.len() == 0 {
        Seq::empty()
    } else {
        let before = all_listed(groups, entries.drop_last(), states);
        let last = listed(groups, entries.last());
        if states.len() == 0 || states.contains(last.2) {
            before.push(last)
        } else {
            before
        }
    }
}

/// Whether listed groups are in the order of their ids.
pub open spec fn in_order(s: Seq<Listed>) -> bool {
    forall|i: int, j: int| 0 <= i <= j < s.len() ==> ordered(#[trigger] s[i].0, #[trigger] s[j].0)
}

/// Whether groups are listed right: all that there are, in the order of their
/// ids.
pub open spec fn groups_listed(
    r: Seq<Listed>,
    groups: Map<Seq<char>, GroupModel>,
    commits: Seq<OffsetModel>,
    states: Seq<Seq<char>>,
) -> bool {
    &&& in_order(r)
    &&& exists|entries: Seq<(Seq<char>, Seq<char>)>| #[trigger]
        lists_groups(entries, groups, commits) && r.to_multiset() == all_listed(
            groups,
            entries,
            states,
        ).to_multiset()
}

proof fn lemma_put_in_order(s: Seq<Listed>, k: int, x: Listed)
    requires
        0 <= k <= s.len(),
        in_order(s),
        forall|i: int| 0 <= i < k ==> ordered(#[trigger] s[i].0, x.0),
        k < s.len() ==> ordered(x.0, s[k].0),
    ensures
        in_order(s.insert(k, x)),
        s.insert(k, x).to_multiset() == s.to_multiset().insert(x),
{
    broadcast use {group_to_multiset_ensures, group_multiset_axioms};

    let t = s.insert(k, x);
    assert forall|i: int, j: int| 0 <= i <= j < t.len() implies ordered(
        #[trigger] t[i].0,
        #[trigger] t[j].0,
    ) by {
        if i < k && j == k {
            assert(t[i] == s[i]);
        } else if i == k && j == k {
            law_order_is_total(encode_utf8(x.0), encode_utf8(x.0));
        } else if i == k {
            assert(t[j] == s[j - 1]);
            law_order_is_transitive(
                encode_utf8(x.0),
                encode_utf8(s[k].0),
                encode_utf8(s[j - 1].0),
            );
        } else {
            let i0 = if i < k {
                i
            } else {
                i - 1
            };
            let j0 = if j < k {
                j
            } else {
                j - 1
            };
            assert(t[i] == s[i0]);
            assert(t[j] == s[j0]);
        }
    }
    assert(t.remove(k) =~= s);
    assert(t[k] == x);
    assert(t.contains(x));
    assert(s.to_multiset() == t.to_multiset().remove(x));
    assert(t.to_multiset() =~= s.to_multiset().insert(x));
}

/// Puts a group among others that are in the order of their ids.
fn put_listed(out: &mut Vec<ListedGroup>, g: ListedGroup)
    requires
        in_order(old(out).model()),
    ensures
        in_order(final(out).model()),
        final(out).model().to_multiset() == old(out).model().to_multiset().insert(g.model()),
{
    let ghost s = out.model();
    let ghost x = g.model();
    let mut k: usize = 0;
    while k < out.len() && is_ordered(out[k].group_id.as_str(), g.group_id.as_str())
        invariant
            k <= out@.len(),
            s == out.model(),
            x == g.model(),
            forall|i: int| 0 <= i < k ==> ordered(#[trigger] s[i].0, x.0),
        decreases out@.len() - k,
    {
        k = k + 1;
    }
    proof {
        if k < s.len() {
            law_order_is_total(
                encode_utf8(s[k as int].0),
                encode_utf8(x.0),
            );
        }
        lemma_put_in_order(s, k as int, x);
    }
    out.insert(k, g);
    assert(out.model() =~= s.insert(k as int, x));
}

/// Whether a response says of a member what it is.
pub open spec fn says_member(
    r: DescribedGroupMember,
    m: MemberModel,
) -> bool {
    &&& r.member_id@ == m.member_id
    &&& r.group_instance_id is None
    &&& r.client_id@.len() == 0
    &&& r.client_host@.len() == 0
    &&& bytes_view(r.member_metadata) == m.metadata
    &&& bytes_view(r.member_assignment) == m.assignment
}

/// Whether a response says of a group what it is. One that is not known is dead,
/// and has no members.
pub open spec fn says_group(
    r: DescribedGroup,
    groups: Map<Seq<char>, GroupModel>,
    group_id: Seq<char>,
) -> bool {
    let ms = group_or_new(groups.get(group_id), group_id).members;
    &&& r.error_code == error_codes::NONE
    &&& r.group_id@ == group_id
    &&& r.group_state@ == match groups.get(group_id) {
        Some(g) => state_name(g.state),
        None => "Dead"@,
    }
    &&& r.protocol_type@ == match groups.get(group_id) {
        Some(g) => g.protocol_type,
        None => Seq::empty(),
    }
    &&& r.protocol_data@.len() == 0
    &&& r.authorized_operations == i32::MIN
    &&& r.members@.len() == ms.len()
    &&& forall|i: int| 0 <= i < ms.len() ==> says_member(#[trigger] r.members@[i], ms[i])
}

/// Whether a response says of groups what they are.
pub open spec fn says_groups(
    rs: Seq<DescribedGroup>,
    groups: Map<Seq<char>, GroupModel>,
    ids: Seq<Seq<char>>,
) -> bool {
    &&& rs.len() == ids.len()
    &&& forall|i: int| 0 <= i < ids.len() ==> says_group(#[trigger] rs[i], groups, ids[i])
}

// ---------------------------------------------------------------------------

impl RequestHandler {
    /// Lets a member join a group.
    pub fn handle_join_group(&mut self, req: &JoinGroupRequest, now: u128) -> (r: JoinGroupResponse)
        requires
            old(self).wf(),
        ensures
            final(self).wf(),
            final(self).setup() == old(self).setup(),
            final(self).metadata == old(self).metadata,
            final(self).groups.offset_store == old(self).groups.offset_store,
            final(self)@.groups == groups_after_join(
                old(self)@.groups,
                join_asked(req.model()),
                now,
            ),
            says_joined(
                r,
                req.protocol_type@,
                answer_to_join(old(self)@.groups, join_asked(req.model()), now),
            ),
    {
        let (error_code, generation_id, leader, member_id, protocol_name, members) =
            self.groups.join_group_at(
            req.group_id.as_str(),
            req.session_timeout_ms,
            req.rebalance_timeout_ms,
            req.member_id.as_str(),
            req.protocol_type.as_str(),
            copy_pairs(&req.group_protocols),
            now,
        );
        JoinGroupResponse {
            throttle_time_ms: 0,
            error_code,
            generation_id,
            protocol_type: Some(req.protocol_type.clone()),
            protocol_name,
            leader,
            member_id,
            members,
        }
    }

    /// Answers a member that asks for its assignment, and takes the assignments
    /// that a leader hands in.
    pub fn handle_sync_group(&mut self, req: &SyncGroupRequest) -> (r: SyncGroupResponse)
        requires
            old(self).wf(),
        ensures
            final(self).wf(),
            final(self).setup() == old(self).setup(),
            final(self).metadata == old(self).metadata,
            final(self).groups.offset_store == old(self).groups.offset_store,
            r.throttle_time_ms == 0,
            ({
                let g = old(self)@.groups.get(req.group_id@);
                match member_refusal(g, req.generation_id, req.member_id@) {
                    Some(code) => r.error_code == code && bytes_view(r.assignment).len() == 0
                        && final(self)@.groups == old(self)@.groups,
                    None => {
                        let h = after_sync(g->Some_0, req.member_id@, req.model().assignments);
                        &&& r.error_code == error_codes::NONE
                        &&& bytes_view(r.assignment) == h.members[member_at(
                            h.members,
                            req.member_id@,
                        )].assignment
                        &&& final(self)@.groups == old(self)@.groups.insert(req.group_id@, h)
                    },
                }
            }),
    {
        let (error_code, assignment) = self.groups.sync_group(
            req.group_id.as_str(),
            req.generation_id,
            req.member_id.as_str(),
            copy_pairs(&req.assignments),
        );
        SyncGroupResponse { throttle_time_ms: 0, error_code, assignment }
    }

    /// Takes note that a member was heard of.
    pub fn handle_heartbeat(
        &mut self,
        req: &HeartbeatRequest,
        version: i16,
        now: u128,
        e: &mut Encoder,
    ) -> (r: i16)
        requires
            old(self).wf(),
        ensures
            final(self).wf(),
            final(self).setup() == old(self).setup(),
            final(self).metadata == old(self).metadata,
            final(self).groups.offset_store == old(self).groups.offset_store,
            heartbeat_says(
                old(self)@.groups,
                req.group_id@,
                req.generation_id,
                req.member_id@,
                now,
                final(self)@.groups,
                r,
            ),
            final(e)@ == old(e)@ + enc_outcome(version, r),
    {
        let error_code = self.groups.heartbeat_at(
            req.group_id.as_str(),
            req.generation_id,
            req.member_id.as_str(),
            now,
        );
        put_outcome(e, version, error_code);
        error_code
    }

    /// Lets a member leave.
    pub fn handle_leave_group(&mut self, req: &LeaveGroupRequest, version: i16, e: &mut Encoder)
        requires
            old(self).wf(),
        ensures
            final(self).wf(),
            final(self).setup() == old(self).setup(),
            final(self).metadata == old(self).metadata,
            final(self).groups.offset_store == old(self).groups.offset_store,
            match old(self)@.groups.get(req.group_id@) {
                None => final(self)@.groups == old(self)@.groups && final(e)@ == old(e)@
                    + enc_outcome(version, error_codes::NOT_COORDINATOR),
                Some(g) => final(self)@.groups == old(self)@.groups.insert(
                    req.group_id@,
                    after_leave(g, req.member_id@),
                ) && final(e)@ == old(e)@ + enc_outcome(version, error_codes::NONE),
            },
    {
        let error_code = self.groups.leave_group(req.group_id.as_str(), req.member_id.as_str());
        put_outcome(e, version, error_code);
    }

    /// Commits offsets. What is added to `writes` is to be written, in that
    /// order. Nothing is committed if the member has no right to.
    pub fn handle_offset_commit(
        &mut self,
        req: &OffsetCommitRequest,
        version: i16,
        now: i64,
        e: &mut Encoder,
        writes: &mut Vec<PartitionWrite>,
    )
        requires
            old(self).wf(),
        ensures
            final(self).wf(),
            final(self).setup() == old(self).setup(),
            final(self)@.groups == old(self)@.groups,
            ({
                let ts = req.model().topics;
                let g = old(self)@.groups.get(req.group_id@);
                match commit_refusal_of(g, req.generation_id, req.member_id@) {
                    Some(code) => {
                        &&& final(self)@ == old(self)@
                        &&& final(writes).model() == old(writes).model()
                        &&& final(e)@ == old(e)@ + enc_commit_response(ts, version, code)
                    },
                    None => {
                        let st = after_commits(
                            CommitState {
                                meta: old(self)@.meta,
                                offsets: old(self)@.offsets,
                                writes: old(writes).model(),
                            },
                            req.group_id@,
                            ts,
                            old(self).setup().offsets_partitions,
                            now,
                        );
                        &&& final(self)@.meta == st.meta
                        &&& final(self)@.offsets == st.offsets
                        &&& final(writes).model() == st.writes
                        &&& final(e)@ == old(e)@ + enc_commit_response(
                            ts,
                            version,
                            error_codes::NONE,
                        )
                    },
                }
            }),
    {
        let error_code = match self.groups.commit_refusal(
            req.group_id.as_str(),
            req.generation_id,
            req.member_id.as_str(),
        ) {
            Some(code) => code,
            None => {
                self.commit_all(req, now, writes);
                error_codes::NONE
            },
        };
        put_commit_response(e, req, version, error_code);
    }

    fn commit_all(&mut self, req: &OffsetCommitRequest, now: i64, writes: &mut Vec<PartitionWrite>)
        requires
            old(self).wf(),
        ensures
            final(self).wf(),
            final(self).setup() == old(self).setup(),
            final(self)@.groups == old(self)@.groups,
            ({
                let st = after_commits(
                    CommitState {
                        meta: old(self)@.meta,
                        offsets: old(self)@.offsets,
                        writes: old(writes).model(),
                    },
                    req.group_id@,
                    req.model().topics,
                    old(self).setup().offsets_partitions,
                    now,
                );
                &&& final(self)@.meta == st.meta
                &&& final(self)@.offsets == st.offsets
                &&& final(writes).model() == st.writes
            }),
    {
        let ghost n = self.setup().offsets_partitions;
        let ghost st = CommitState {
            meta: self@.meta,
            offsets: self@.offsets,
            writes: writes.model(),
        };
        let ghost ts = req.topics.model();
        let mut i: usize = 0;
        assert(ts.take(0) =~= Seq::empty());
        while i < req.topics.len()
            invariant
                i <= req.topics@.len(),
                ts == req.topics.model(),
                n == old(self).setup().offsets_partitions,
                st == (CommitState {
                    meta: old(self)@.meta,
                    offsets: old(self)@.offsets,
                    writes: old(writes).model(),
                }),
                self.wf(),
                self.setup() == old(self).setup(),
                self@.groups == old(self)@.groups,
                after_commits(st, req.group_id@, ts.take(i as int), n, now) == (CommitState {
                    meta: self@.meta,
                    offsets: self@.offsets,
                    writes: writes.model(),
                }),
            decreases req.topics@.len() - i,
        {
            let topic = req.topics[i].0.as_str();
            let parts = &req.topics[i].1;
            let ghost cs = parts.model();
            let ghost mid = after_commits(st, req.group_id@, ts.take(i as int), n, now);
            proof {
                assert(ts.take(i as int + 1).drop_last() =~= ts.take(i as int));
                assert(ts.take(i as int + 1).last() == ts[i as int]);
                assert(ts[i as int] == (topic@, cs));
            }
            let mut j: usize = 0;
            assert(cs.take(0) =~= Seq::empty());
            while j < parts.len()
                invariant
                    j <= parts@.len(),
                    cs == parts.model(),
                    n == old(self).setup().offsets_partitions,
                    self.wf(),
                    self.setup() == old(self).setup(),
                    self@.groups == old(self)@.groups,
                    after_topic_commits(mid, req.group_id@, topic@, cs.take(j as int), n, now) == (
                    CommitState {
                        meta: self@.meta,
                        offsets: self@.offsets,
                        writes: writes.model(),
                    }),
                decreases parts@.len() - j,
            {
                proof {
                    assert(cs.take(j as int + 1).drop_last() =~= cs.take(j as int));
                    assert(cs.take(j as int + 1).last() == cs[j as int]);
                    assert(cs[j as int] == parts@[j as int].model());
                }
                let target = self.groups.offset_store.coordinator_partition(req.group_id.as_str());
                let mut ws: Vec<SegmentWrite> = Vec::new();
                assert(ws.model() =~= Seq::empty());
                let _ = self.groups.commit_offset(
                    &mut self.metadata,
                    req.group_id.as_str(),
                    topic,
                    parts[j].0,
                    parts[j].1,
                    copy_opt(&parts[j].2),
                    now,
                    &mut ws,
                );
                add_writes(writes, CONSUMER_OFFSETS_TOPIC, target, ws);
                j = j + 1;
            }
            assert(cs.take(j as int) =~= cs);
            i = i + 1;
        }
        assert(ts.take(i as int) =~= ts);
    }

    /// Says what offsets were committed.
    pub fn handle_offset_fetch(&self, req: &OffsetFetchRequest) -> (r: OffsetFetchResponse)
        ensures
            r.throttle_time_ms == 0,
            r.error_code == error_codes::NONE,
            r.topics.model() == all_offset_answers(
                self@.offsets,
                req.group_id@,
                req.model().topics,
            ),
    {
        let mut topics: Vec<(String, Vec<(i32, i64, Option<String>, i16)>)> = Vec::new();
        let ghost ts = req.topics.model();
        let ghost all = all_offset_answers(self@.offsets, req.group_id@, ts);
        let mut i: usize = 0;
        while i < req.topics.len()
            invariant
                i <= req.topics@.len(),
                ts == req.topics.model(),
                all == all_offset_answers(self@.offsets, req.group_id@, ts),
                topics.model() =~= all.take(i as int),
            decreases req.topics@.len() - i,
        {
            let topic = req.topics[i].0.as_str();
            let parts = &req.topics[i].1;
            let ghost ps = parts.model();
            let ghost answers = offset_answers(self@.offsets, req.group_id@, topic@, ps);
            assert(ts[i as int] == (topic@, ps));
            let mut out: Vec<(i32, i64, Option<String>, i16)> = Vec::new();
            let mut j: usize = 0;
            while j < parts.len()
                invariant
                    j <= parts@.len(),
                    ps == parts.model(),
                    answers == offset_answers(self@.offsets, req.group_id@, topic@, ps),
                    out.model() =~= answers.take(j as int),
                decreases parts@.len() - j,
            {
                let ghost before = out.model();
                let p = parts[j];
                let a = match self.groups.fetch_offset_with_meta(req.group_id.as_str(), topic, p) {
                    Some((offset, note)) => (p, offset, note, error_codes::NONE),
                    None => (p, -1, None, error_codes::NONE),
                };
                assert(a.model() == answers[j as int]);
                out.push(a);
                assert(out.model() =~= before.push(answers[j as int]));
                j = j + 1;
            }
            assert(answers.take(j as int) =~= answers);
            let ghost before = topics.model();
            topics.push((topic.to_string(), out));
            assert(topics.model() =~= before.push(all[i as int]));
            i = i + 1;
        }
        assert(all.take(i as int) =~= all);
        OffsetFetchResponse { throttle_time_ms: 0, topics, error_code: error_codes::NONE }
    }

    /// Lists the groups.
    pub fn handle_list_groups(&self, req: &ListGroupsRequest) -> (r: ListGroupsResponse)
        ensures
            r.throttle_time_ms == 0,
            r.error_code == error_codes::NONE,
            groups_listed(r.groups.model(), self@.groups, self.commit_list(), req.model()),
    {
        let entries = self.groups.list_groups();
        let ghost es = entries.model();
        let ghost states = req.states_filter.model();
        let mut groups: Vec<ListedGroup> = Vec::new();
        let mut i: usize = 0;
        assert(es.take(0) =~= Seq::empty());
        assert(groups.model() =~= Seq::empty());
        while i < entries.len()
            invariant
                i <= entries@.len(),
                es == entries.model(),
                states == req.states_filter.model(),
                in_order(groups.model()),
                groups.model().to_multiset() == all_listed(
                    self@.groups,
                    es.take(i as int),
                    states,
                ).to_multiset(),
            decreases entries@.len() - i,
        {
            let ghost before = all_listed(self@.groups, es.take(i as int), states);
            let group_id = entries[i].0.clone();
            let group_state = match self.groups.group_state_str(group_id.as_str()) {
                Some(s) => s,
                None => "Empty".to_string(),
            };
            let g = ListedGroup { group_id, protocol_type: entries[i].1.clone(), group_state };
            proof {
                assert(es.take(i as int + 1).drop_last() =~= es.take(i as int));
                assert(es.take(i as int + 1).last() == es[i as int]);
                assert(es[i as int] == entries@[i as int].model());
                assert(g.model() == listed(self@.groups, es[i as int]));
                before.to_multiset_ensures();
            }
            if req.states_filter.len() == 0 || has_string(&req.states_filter, &g.group_state) {
                put_listed(&mut groups, g);
            }
            i = i + 1;
        }
        assert(es.take(i as int) =~= es);
        ListGroupsResponse { throttle_time_ms: 0, error_code: error_codes::NONE, groups }
    }

    /// Says what groups are.
    pub fn handle_describe_groups(&self, req: &DescribeGroupsRequest) -> (r: DescribeGroupsResponse)
        ensures
            r.throttle_time_ms == 0,
            says_groups(r.groups@, self@.groups, req.model()),
    {
        let mut groups: Vec<DescribedGroup> = Vec::new();
        let ghost ids = req.groups.model();
        let mut i: usize = 0;
        while i < req.groups.len()
            invariant
                i <= req.groups@.len(),
                ids == req.groups.model(),
                groups@.len() == i,
                forall|j: int|
                    0 <= j < i ==> says_group(#[trigger] groups@[j], self@.groups, ids[j]),
            decreases req.groups@.len() - i,
        {
            groups.push(self.describe_group(req.groups[i].as_str()));
            i = i + 1;
        }
        DescribeGroupsResponse { throttle_time_ms: 0, groups }
    }

    fn describe_group(&self, group_id: &str) -> (r: DescribedGroup)
        ensures
            says_group(r, self@.groups, group_id@),
    {
        let described = self.groups.describe_members(group_id);
        let group_state = match self.groups.group_state_str(group_id) {
            Some(s) => s,
            None => "Dead".to_string(),
        };
        let protocol_type = match self.groups.group_protocol_type(group_id) {
            Some(t) => t,
            None => {
                let t = String::new();
                assert(t@ =~= Seq::empty());
                t
            },
        };
        let ghost ms = group_or_new(self@.groups.get(group_id@), group_id@).members;
        let mut members: Vec<DescribedGroupMember> = Vec::new();
        let mut i: usize = 0;
        while i < described.len()
            invariant
                i <= described@.len(),
                described@.len() == ms.len(),
                forall|j: int|
                    0 <= j < ms.len() ==> (#[trigger] described@[j]).0@ == ms[j].member_id
                        && bytes_view(described@[j].1) == ms[j].metadata && bytes_view(
                        described@[j].2,
                    ) == ms[j].assignment,
                members@.len() == i,
                forall|j: int| 0 <= j < i ==> says_member(#[trigger] members@[j], ms[j]),
            decreases described@.len() - i,
        {
            let d = &described[i];
            members.push(
                DescribedGroupMember {
                    member_id: d.0.clone(),
                    group_instance_id: None,
                    client_id: String::new(),
                    client_host: String::new(),
                    member_metadata: d.1.clone(),
                    member_assignment: d.2.clone(),
                },
            );
            i = i + 1;
        }
        DescribedGroup {
            error_code: error_codes::NONE,
            group_id: group_id.to_string(),
            group_state,
            protocol_type,
            protocol_data: String::new(),
            members,
            authorized_operations: i32::MIN,
        }
    }
}

/// Puts a response to commits, with one error code for all of them.
fn put_commit_response(e: &mut Encoder, req: &OffsetCommitRequest, version: i16, error_code: i16)
    ensures
        final(e)@ == old(e)@ + enc_commit_response(req.model().topics, version, error_code),
{
    if version >= 3 {
        e.put_i32(0);
    }
    e.put_i32(req.topics.len() as i32);
    let ghost start = e@;
    let ghost ts = req.topics.model();
    let mut i: usize = 0;
    assert(ts.take(0) =~= Seq::empty());
    assert(start + enc_commit_topics(ts.take(0), error_code) =~= start);
    while i < req.topics.len()
        invariant
            i <= req.topics@.len(),
            ts == req.topics.model(),
            e@ == start + enc_commit_topics(ts.take(i as int), error_code),
        decreases req.topics@.len() - i,
    {
        let topic = req.topics[i].0.as_str();
        let parts = &req.topics[i].1;
        let ghost cs = parts.model();
        proof {
            assert(ts.take(i as int + 1).drop_last() =~= ts.take(i as int));
            assert(ts.take(i as int + 1).last() == ts[i as int]);
            assert(ts[i as int] == (topic@, cs));
        }
        e.put_string(topic);
        e.put_i32(parts.len() as i32);
        let ghost mid = e@;
        let mut j: usize = 0;
        assert(cs.take(0) =~= Seq::empty());
        assert(mid + enc_commit_parts(cs.take(0), error_code) =~= mid);
        while j < parts.len()
            invariant
                j <= parts@.len(),
                cs == parts.model(),
                e@ == mid + enc_commit_parts(cs.take(j as int), error_code),
            decreases parts@.len() - j,
        {
            proof {
                assert(cs.take(j as int + 1).drop_last() =~= cs.take(j as int));
                assert(cs.take(j as int + 1).last() == cs[j as int]);
                assert(cs[j as int] == parts@[j as int].model());
            }
            e.put_i32(parts[j].0);
            e.put_i16(error_code);
            assert(e@ =~= mid + enc_commit_parts(cs.take(j as int + 1), error_code));
            j = j + 1;
        }
        assert(cs.take(j as int) =~= cs);
        assert(e@ =~= start + enc_commit_topics(ts.take(i as int + 1), error_code));
        i = i + 1;
    }
    assert(ts.take(i as int) =~= ts);
    assert(e@ =~= old(e)@ + enc_commit_response(ts, version, error_code));
}

} // verus!
