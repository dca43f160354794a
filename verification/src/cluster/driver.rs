//! What a node does on its own account: it answers requests, counts votes, and
//! at every tick of a clock replicates its log or stands for election.
//!
//! The driver decides; whoever holds it sends what a tick returns, and hands
//! requests and answers in as they arrive.

use vstd::prelude::*;

use crate::cluster::raft;
use crate::cluster::raft::{
    copy_entry, AppendEntries, AppendModel, EntryModel, LogEntry, NodeRole, RaftNode, RaftView,
    RequestVote,
};
use crate::cluster::transport::RpcResult;
use crate::protocol::primitive::Modeled;

verus! {

/// What a driver tells of itself.
#[derive(Debug, Clone, Copy, PartialEq, Eq, Structural)]
pub struct DriverState {
    pub is_leader: bool,
    pub current_term: u64,
}

impl DriverState {
    /// No leader, of no term.
    pub fn new() -> (r: Self)
        ensures
            r == (DriverState { is_leader: false, current_term: 0 }),
    {
        DriverState { is_leader: false, current_term: 0 }
    }
}

/// The votes in an election, the candidate's own among them.
#[derive(Debug, Clone, Copy, PartialEq, Eq, Structural)]
pub struct Election {
    pub term: u64,
    pub votes: usize,
}

/// A node with its election and what it tells of itself.
#[derive(Debug)]
pub struct RaftDriver {
    pub node: RaftNode,
    pub election: Election,
    pub state: DriverState,
}

/// What a tick asks for.
#[derive(Debug)]
pub struct Tick {
    /// A request for every peer's vote.
    pub vote: Option<RequestVote>,
    /// A request to every peer to append.
    pub append: Option<AppendEntries>,
    /// The entries that are committed and not applied yet, in their order.
    pub apply: Vec<LogEntry>,
}

/// The mathematical value of a driver.
pub struct DriverView {
    pub node: RaftView,
    pub election: Election,
    pub state: DriverState,
}

impl View for RaftDriver {
    type V = DriverView;

    open spec fn view(&self) -> DriverView {
        DriverView { node: self.node@, election: self.election, state: self.state }
    }
}

/// A driver that has done nothing yet, around a node.
pub open spec fn idle(node: RaftView) -> DriverView {
    DriverView {
        node,
        election: Election { term: 0, votes: 0 },
        state: DriverState { is_leader: false, current_term: 0 },
    }
}

/// The votes that win an election among a node and its peers.
pub open spec fn majority(peers: nat) -> nat {
    (peers + 1) / 2 + 1
}

/// Whether a node wins an election.
pub open spec fn wins(s: RaftView, e: Election) -> bool {
    s.role == NodeRole::Candidate && e.term == s.current_term && e.votes >= majority(s.peers.len())
}

/// The node after its votes were counted.
pub open spec fn counted(s: RaftView, e: Election) -> RaftView {
    if wins(s, e) {
        RaftView { role: NodeRole::Leader, ..s }
    } else {
        s
    }
}

/// Whether an answer is a vote for the node in its election.
pub open spec fn is_vote(d: DriverView, reply: RpcResult) -> bool {
    match reply {
        RpcResult::Vote(v) => d.election.term == v.term && v.granted && d.node.role
            == NodeRole::Candidate,
        RpcResult::Append(_) => false,
    }
}

/// The driver after an answer.
pub open spec fn after_reply(d: DriverView, reply: RpcResult, now: u128) -> DriverView {
    if is_vote(d, reply) {
        let election = Election { term: d.election.term, votes: (d.election.votes + 1) as usize };
        DriverView { node: raft::rearmed(counted(d.node, election), now), election, ..d }
    } else {
        DriverView { node: raft::rearmed(d.node, now), ..d }
    }
}

/// The first entry with an index.
pub open spec fn entry_at(log: Seq<EntryModel>, index: int) -> Option<EntryModel>
    decreases log.len(),
{
    if log.len() == 0 {
        None
    } else {
        match entry_at(log.drop_last(), index) {
            Some(e) => Some(e),
            None => if log.last().index == index {
                Some(log.last())
            } else {
                None
            },
        }
    }
}

/// The entries with the indices above `from` up to `to`, by index.
pub open spec fn entries_between(log: Seq<EntryModel>, from: int, to: int) -> Seq<EntryModel>
    decreases to - from,
{
    if to <= from {
        Seq::empty()
    } else {
        let before = entries_between(log, from, to - 1);
        match entry_at(log, to) {
            Some(e) => before.push(e),
            None => before,
        }
    }
}

/// The driver once its role has had its turn at a tick.
pub open spec fn after_turn(d: DriverView, now: u128) -> DriverView {
    if d.node.role == NodeRole::Leader {
        let last = raft::last_index(d.node.log);
        let commit_index = if d.node.commit_index >= last {
            d.node.commit_index
        } else {
            last
        };
        DriverView {
            node: RaftView { commit_index, ..d.node },
            state: DriverState { is_leader: true, current_term: d.node.current_term },
            ..d
        }
    } else {
        let state = DriverState { is_leader: false, ..d.state };
        if raft::due(d.node, now) {
            let candidate = raft::after_election(d.node, now);
            let election = Election { term: candidate.current_term, votes: 1 };
            DriverView { node: counted(candidate, election), election, state }
        } else {
            DriverView { state, ..d }
        }
    }
}

/// The entries that a tick applies.
pub open spec fn applies(d: DriverView, now: u128) -> Seq<EntryModel> {
    let t = after_turn(d, now);
    entries_between(t.node.log, t.node.last_applied as int, t.node.commit_index as int)
}

/// The driver after a tick.
pub open spec fn after_tick(d: DriverView, now: u128) -> DriverView {
    let t = after_turn(d, now);
    let entries = applies(d, now);
    if entries.len() == 0 {
        t
    } else {
        DriverView { node: RaftView { last_applied: entries.last().index, ..t.node }, ..t }
    }
}

/// Whether a tick returns what it should.
pub open spec fn tick_says(d: DriverView, now: u128, t: Tick) -> bool {
    &&& match t.append {
        Some(req) => {
            &&& d.node.role == NodeRole::Leader
            &&& req.model() == raft::append_of(d.node, d.node.log)
        },
        None => d.node.role != NodeRole::Leader,
    }
    &&& match t.vote {
        Some(req) => {
            &&& d.node.role != NodeRole::Leader
            &&& raft::due(d.node, now)
            &&& req == raft::ballot(raft::after_election(d.node, now))
        },
        None => d.node.role == NodeRole::Leader || !raft::due(d.node, now),
    }
    &&& t.apply.model() == applies(d, now)
}

/// Whether a leader takes the data that is proposed to it.
pub open spec fn takes(d: DriverView) -> bool {
    d.node.role == NodeRole::Leader && raft::last_index(d.node.log) < u64::MAX
}

/// The driver after data was proposed.
pub open spec fn after_proposal(d: DriverView, data: Seq<u8>) -> DriverView {
    if takes(d) {
        DriverView {
            node: RaftView {
                log: d.node.log.push(raft::next_entry(d.node, data)),
                ..d.node
            },
            ..d
        }
    } else {
        d
    }
}

// ---------------------------------------------------------------------------
// Laws

/// Two majorities of the same nodes have a node in common.
pub proof fn law_majorities_overlap(peers: nat)
    ensures
        2 * majority(peers) > peers + 1,
{
}

/// What a node is told: a request for its vote, a request to append, a tick of
/// the clock, an answer, or data to replicate.
pub enum Event {
    Vote(RequestVote),
    Append(AppendModel),
    Tick,
    Reply(RpcResult),
    Proposal(Seq<u8>),
}

/// The driver after an event.
pub open spec fn after_event(d: DriverView, e: Event, now: u128) -> DriverView {
    match e {
        Event::Vote(req) => DriverView { node: raft::after_vote(d.node, req, now), ..d },
        Event::Append(req) => DriverView { node: raft::after_append(d.node, req, now), ..d },
        Event::Tick => after_tick(d, now),
        Event::Reply(reply) => after_reply(d, reply, now),
        Event::Proposal(data) => after_proposal(d, data),
    }
}

/// The driver after events, each at its time.
pub open spec fn after_events(d: DriverView, es: Seq<(Event, u128)>) -> DriverView
    decreases es.len(),
{
    if es.len() == 0 {
        d
    } else {
        after_event(after_events(d, es.drop_last()), es.last().0, es.last().1)
    }
}

/// The vote that a node casts at an event, if it does: in a term, for a
/// candidate. One that stands for election votes for itself.
pub open spec fn vote_cast(d: DriverView, e: Event, now: u128) -> Option<(u64, u64)> {
    match e {
        Event::Vote(req) => if raft::grants(d.node, req) {
            Some((req.term, req.candidate_id))
        } else {
            None
        },
        Event::Tick => if d.node.role != NodeRole::Leader && raft::due(d.node, now) {
            Some(((d.node.current_term + 1) as u64, d.node.id))
        } else {
            None
        },
        _ => None,
    }
}

/// Whether a node is in a term in which it voted for a candidate, or beyond it.
pub open spec fn bound_by(s: RaftView, term: u64, candidate: u64) -> bool {
    s.current_term > term || (s.current_term == term && s.voted_for == Some(candidate))
}

proof fn lemma_stays_bound(d: DriverView, e: Event, now: u128, term: u64, candidate: u64)
    requires
        bound_by(d.node, term, candidate),
        d.node.current_term < u64::MAX,
    ensures
        bound_by(after_event(d, e, now).node, term, candidate),
{
}

proof fn lemma_stay_bound(d: DriverView, es: Seq<(Event, u128)>, term: u64, candidate: u64)
    requires
        bound_by(d.node, term, candidate),
        forall|k: int|
            0 <= k < es.len() ==> after_events(d, #[trigger] es.take(k)).node.current_term
                < u64::MAX,
    ensures
        bound_by(after_events(d, es).node, term, candidate),
    decreases es.len(),
{
    if es.len() > 0 {
        let front = es.drop_last();
        assert forall|k: int| 0 <= k < front.len() implies after_events(
            d,
            #[trigger] front.take(k),
        ).node.current_term < u64::MAX by {
            assert(front.take(k) =~= es.take(k));
        }
        lemma_stay_bound(d, front, term, candidate);
        assert(es.take(es.len() - 1) =~= front);
        lemma_stays_bound(after_events(d, front), es.last().0, es.last().1, term, candidate);
    }
}

/// A node casts one vote per term: whatever happens between, a second vote in a
/// term goes to the candidate that the first one went to.
pub proof fn law_one_vote_per_term(
    d: DriverView,
    first: Event,
    now: u128,
    between: Seq<(Event, u128)>,
    second: Event,
    later: u128,
)
    requires
        d.node.current_term < u64::MAX,
        vote_cast(d, first, now) is Some,
        ({
            let t = after_event(d, first, now);
            &&& forall|k: int|
                0 <= k <= between.len() ==> after_events(
                    t,
                    #[trigger] between.take(k),
                ).node.current_term < u64::MAX
            &&& vote_cast(after_events(t, between), second, later) is Some
        }),
    ensures
        ({
            let a = vote_cast(d, first, now)->Some_0;
            let u = after_events(after_event(d, first, now), between);
            let b = vote_cast(u, second, later)->Some_0;
            a.0 == b.0 ==> a.1 == b.1
        }),
{
    let (term, candidate) = vote_cast(d, first, now)->Some_0;
    let t = after_event(d, first, now);
    assert(bound_by(t.node, term, candidate));
    lemma_stay_bound(t, between, term, candidate);
    assert(between.take(between.len() as int) =~= between);
}

/// The nodes that voted for a candidate.
pub open spec fn voters(nodes: Set<u64>, votes: Map<u64, u64>, candidate: u64) -> Set<u64> {
    nodes.filter(|n: u64| votes.contains_key(n) && votes[n] == candidate)
}

/// Where every node casts at most one vote, no two candidates have the votes of
/// as many nodes as an election takes.
pub proof fn law_one_candidate_has_majority(
    nodes: Set<u64>,
    votes: Map<u64, u64>,
    peers: nat,
    a: u64,
    b: u64,
)
    requires
        nodes.finite(),
        nodes.len() == peers + 1,
        voters(nodes, votes, a).len() >= majority(peers),
        voters(nodes, votes, b).len() >= majority(peers),
    ensures
        a == b,
{
    if a != b {
        let x = voters(nodes, votes, a);
        let y = voters(nodes, votes, b);
        assert(x.disjoint(y));
        vstd::set_lib::lemma_set_disjoint_lens(x, y);
        assert(x.union(y).subset_of(nodes));
        vstd::set_lib::lemma_len_subset(x.union(y), nodes);
        law_majorities_overlap(peers);
    }
}

/// Only a majority of votes in the node's own term makes it a leader.
pub proof fn law_leader_has_majority(d: DriverView, reply: RpcResult, now: u128)
    requires
        d.node.role != NodeRole::Leader,
        d.election.votes < usize::MAX,
        d.node.current_term < u64::MAX,
    ensures
        ({
            let t = after_reply(d, reply, now);
            t.node.role == NodeRole::Leader ==> {
                &&& t.election.term == t.node.current_term
                &&& t.election.votes >= majority(t.node.peers.len())
            }
        }),
        ({
            let t = after_tick(d, now);
            t.node.role == NodeRole::Leader ==> {
                &&& t.election.term == t.node.current_term
                &&& t.election.votes >= majority(t.node.peers.len())
            }
        }),
{
}

/// A node without peers is leader as soon as its deadline comes, and says so at
/// the tick after that.
pub proof fn law_single_node_leads(d: DriverView, now: u128, later: u128)
    requires
        d.node.peers.len() == 0,
        d.node.role != NodeRole::Leader,
        d.node.current_term < u64::MAX,
        raft::due(d.node, now),
    ensures
        after_tick(d, now).node.role == NodeRole::Leader,
        after_tick(after_tick(d, now), later).state == (DriverState {
            is_leader: true,
            current_term: (d.node.current_term + 1) as u64,
        }),
{
}

/// A driver that does not lead says so at its next tick.
pub proof fn law_follower_resigns(d: DriverView, now: u128)
    requires
        d.node.role != NodeRole::Leader,
    ensures
        !after_tick(d, now).state.is_leader,
{
}

/// What is applied lies above `from` and not above `to`, in the order of the
/// indices, no index twice.
pub proof fn law_applied_in_order(log: Seq<EntryModel>, from: int, to: int)
    ensures
        ({
            let s = entries_between(log, from, to);
            &&& forall|i: int| 0 <= i < s.len() ==> from < (#[trigger] s[i]).index <= to
            &&& forall|i: int, j: int|
                0 <= i < j < s.len() ==> (#[trigger] s[i]).index < (#[trigger] s[j]).index
        }),
    decreases to - from,
{
    if to > from {
        law_applied_in_order(log, from, to - 1);
        lemma_entry_at(log, to);
        let before = entries_between(log, from, to - 1);
        let s = entries_between(log, from, to);
        assert(forall|i: int| 0 <= i < before.len() ==> #[trigger] s[i] == before[i]);
    }
}

proof fn lemma_entry_at(log: Seq<EntryModel>, index: int)
    ensures
        match entry_at(log, index) {
            Some(e) => e.index == index && log.contains(e),
            None => forall|k: int| 0 <= k < log.len() ==> (#[trigger] log[k]).index != index,
        },
    decreases log.len(),
{
    if log.len() > 0 {
        let front = log.drop_last();
        lemma_entry_at(front, index);
        assert(log.last() == log[log.len() - 1]);
        match entry_at(front, index) {
            Some(e) => {
                let k = choose|k: int| 0 <= k < front.len() && front[k] == e;
                assert(log[k] == e);
            },
            None => {
                assert forall|k: int| 0 <= k < log.len() - 1 implies (#[trigger] log[k]).index
                    != index by {
                    assert(front[k] == log[k]);
                }
            },
        }
    }
}

/// Every entry of a log, each index occurring once, is applied when the indices
/// applied include its own.
pub proof fn law_committed_is_applied(log: Seq<EntryModel>, from: int, to: int, k: int)
    requires
        raft::distinct_indices(log),
        0 <= k < log.len(),
        from < log[k].index <= to,
    ensures
        entries_between(log, from, to).contains(log[k]),
    decreases to - from,
{
    let s = entries_between(log, from, to);
    let before = entries_between(log, from, to - 1);
    lemma_entry_at(log, to);
    if log[k].index == to {
        let e = entry_at(log, to)->Some_0;
        let j = choose|j: int| 0 <= j < log.len() && log[j] == e;
        assert(j == k);
        assert(s[before.len() as int] == log[k]);
    } else {
        law_committed_is_applied(log, from, to - 1, k);
        let j = choose|j: int| 0 <= j < before.len() && before[j] == log[k];
        assert(s[j] == log[k]);
    }
}

/// Data that a leader takes, it applies at its next tick.
pub proof fn law_proposal_is_applied(d: DriverView, data: Seq<u8>, now: u128)
    requires
        takes(d),
        raft::distinct_indices(d.node.log),
        !raft::has_index(d.node.log, raft::next_entry(d.node, data).index),
        d.node.last_applied < raft::next_entry(d.node, data).index,
    ensures
        applies(after_proposal(d, data), now).contains(raft::next_entry(d.node, data)),
{
    let e = raft::next_entry(d.node, data);
    let p = after_proposal(d, data);
    let t = after_turn(p, now);
    let n = d.node.log.len() as int;
    assert forall|i: int, j: int| 0 <= i < j < p.node.log.len() implies (
    #[trigger] p.node.log[i]).index != (#[trigger] p.node.log[j]).index by {
        if j == n {
            assert(p.node.log[i] == d.node.log[i]);
        }
    }
    assert(t.node.log[n] == e);
    law_committed_is_applied(
        t.node.log,
        t.node.last_applied as int,
        t.node.commit_index as int,
        n,
    );
}

/// A follower that took a leader's log applies, at its next tick, each entry
/// that the leader had committed and the follower had not applied.
pub proof fn law_replica_applies(
    follower: DriverView,
    leader: RaftView,
    k: int,
    now: u128,
    later: u128,
)
    requires
        follower.node.log.is_prefix_of(leader.log),
        raft::distinct_indices(leader.log),
        leader.current_term >= follower.node.current_term,
        leader.commit_index <= raft::last_index(leader.log),
        0 <= k < leader.log.len(),
        follower.node.last_applied < leader.log[k].index <= leader.commit_index,
        follower.node.commit_index <= leader.commit_index,
    ensures
        ({
            let node = raft::after_append(follower.node, raft::append_of(leader, leader.log), now);
            applies(DriverView { node, ..follower }, later).contains(leader.log[k])
        }),
{
    let node = raft::after_append(follower.node, raft::append_of(leader, leader.log), now);
    raft::law_replication(follower.node, leader, now);
    let t = after_turn(DriverView { node, ..follower }, later);
    law_committed_is_applied(
        t.node.log,
        t.node.last_applied as int,
        t.node.commit_index as int,
        k,
    );
}

// ---------------------------------------------------------------------------

fn find_entry(log: &Vec<LogEntry>, index: u64) -> (r: Option<LogEntry>)
    ensures
        r.model() == entry_at(log.model(), index as int),
{
    let mut i: usize = 0;
    let ghost whole = log.model();
    while i < log.len()
        invariant
            i <= log@.len(),
            whole == log.model(),
            entry_at(whole.take(i as int), index as int) is None,
        decreases log@.len() - i,
    {
        proof {
            assert(whole.take(i as int + 1).drop_last() =~= whole.take(i as int));
        }
        if log[i].index == index {
            proof {
                lemma_entry_at_front(whole, i as int + 1, index as int);
            }
            return Some(copy_entry(&log[i]));
        }
        i += 1;
    }
    assert(whole.take(i as int) =~= whole);
    None
}

/// An entry found in the front of a log is the one found in all of it.
proof fn lemma_entry_at_front(log: Seq<EntryModel>, n: int, index: int)
    requires
        0 <= n <= log.len(),
        entry_at(log.take(n), index) is Some,
    ensures
        entry_at(log, index) == entry_at(log.take(n), index),
    decreases log.len() - n,
{
    if n < log.len() {
        assert(log.take(n + 1).drop_last() =~= log.take(n));
        lemma_entry_at_front(log, n + 1, index);
    } else {
        assert(log.take(n) =~= log);
    }
}

impl RaftDriver {
    /// A driver for a node that knows its peers.
    pub fn new(id: u64, peers: Vec<u64>) -> (r: Self)
        ensures
            exists|seed: u64, now: u128|
                r@ == idle(#[trigger] raft::fresh(id, peers@, seed, now)),
    {
        RaftDriver {
            node: RaftNode::new(id, peers),
            election: Election { term: 0, votes: 0 },
            state: DriverState::new(),
        }
    }

    /// Whether the node leads, as it last said.
    pub fn is_leader(&self) -> (r: bool)
        ensures
            r == self.state.is_leader,
    {
        self.state.is_leader
    }

    /// The node's number.
    pub fn id(&self) -> (r: u64)
        ensures
            r == self.node.id,
    {
        self.node.id
    }

    /// Hands data to the leader; `false` if the node does not lead.
    pub fn propose(&mut self, data: Vec<u8>) -> (r: bool)
        ensures
            final(self)@ == after_proposal(old(self)@, data@),
            r == takes(old(self)@),
    {
        let n = self.node.log.len();
        if self.node.role != NodeRole::Leader {
            return false;
        }
        if n > 0 && self.node.log[n - 1].index == u64::MAX {
            return false;
        }
        self.node.append_log(data);
        true
    }

    /// Answers a request: for a vote, if there is one, else to append.
    pub fn handle_rpc(
        &mut self,
        vote: Option<RequestVote>,
        append: Option<AppendEntries>,
    ) -> (r: Option<RpcResult>)
        ensures
            match (vote, append) {
                (Some(req), _) => {
                    &&& exists|now: u128|
                        final(self)@ == (DriverView {
                            node: #[trigger] raft::after_vote(old(self)@.node, req, now),
                            ..old(self)@
                        })
                    &&& r matches Some(RpcResult::Vote(v))
                    &&& v.granted == raft::grants(old(self)@.node, req)
                    &&& v.term == final(self)@.node.current_term
                },
                (None, Some(req)) => {
                    &&& exists|now: u128|
                        final(self)@ == (DriverView {
                            node: #[trigger] raft::after_append(
                                old(self)@.node,
                                req.model(),
                                now,
                            ),
                            ..old(self)@
                        })
                    &&& r == Some(
                        RpcResult::Append(raft::accepts(old(self)@.node, req.model())),
                    )
                },
                (None, None) => *final(self) == *old(self) && r is None,
            },
    {
        match vote {
            Some(req) => {
                let v = self.node.handle_request_vote(&req);
                Some(RpcResult::Vote(v))
            },
            None => match append {
                Some(req) => {
                    let ok = self.node.handle_append_entries(&req);
                    Some(RpcResult::Append(ok))
                },
                None => None,
            },
        }
    }

    /// One tick of the clock.
    pub fn run_tick(&mut self) -> (r: Tick)
        requires
            old(self).node.current_term < u64::MAX,
        ensures
            exists|now: u128|
                final(self)@ == #[trigger] after_tick(old(self)@, now) && tick_says(
                    old(self)@,
                    now,
                    r,
                ),
    {
        let now = self.node.now();
        self.run_tick_at(now)
    }

    /// One tick of the clock, at a given time.
    pub fn run_tick_at(&mut self, now: u128) -> (r: Tick)
        requires
            old(self).node.current_term < u64::MAX,
        ensures
            final(self)@ == after_tick(old(self)@, now),
            tick_says(old(self)@, now, r),
    {
        let mut vote: Option<RequestVote> = None;
        let mut append: Option<AppendEntries> = None;
        if self.node.role == NodeRole::Leader {
            append = Some(self.node.replicate());
            self.state = DriverState { is_leader: true, current_term: self.node.current_term };
            let n = self.node.log.len();
            if n > 0 && self.node.commit_index < self.node.log[n - 1].index {
                self.node.commit_index = self.node.log[n - 1].index;
            }
        } else {
            self.state = DriverState { is_leader: false, current_term: self.state.current_term };
            if self.node.election_timeout_expired_at(now) {
                vote = Some(self.node.start_election_at(now));
                self.election = Election { term: self.node.current_term, votes: 1 };
                self.try_become_leader();
            }
        }
        assert(self@ == after_turn(old(self)@, now));
        let apply = self.committed();
        let n = apply.len();
        if n > 0 {
            self.node.last_applied = apply[n - 1].index;
        }
        Tick { vote, append, apply }
    }

    /// The entries that are committed and not applied.
    fn committed(&self) -> (r: Vec<LogEntry>)
        ensures
            r.model() == entries_between(
                self.node.log.model(),
                self.node.last_applied as int,
                self.node.commit_index as int,
            ),
    {
        let mut out: Vec<LogEntry> = Vec::new();
        let from = self.node.last_applied;
        let mut i: u64 = from;
        assert(out.model() =~= Seq::empty());
        while i < self.node.commit_index
            invariant
                from == self.node.last_applied,
                from <= i,
                i <= self.node.commit_index || i == from,
                out.model() == entries_between(self.node.log.model(), from as int, i as int),
            decreases self.node.commit_index - i,
        {
            i += 1;
            let ghost before = out.model();
            match find_entry(&self.node.log, i) {
                Some(e) => {
                    out.push(e);
                    assert(out.model() =~= before.push(e.model()));
                },
                None => {},
            }
        }
        out
    }

    /// Makes a candidate the leader if it has the votes.
    fn try_become_leader(&mut self)
        ensures
            final(self)@ == (DriverView {
                node: counted(old(self)@.node, old(self)@.election),
                ..old(self)@
            }),
    {
        if self.node.role != NodeRole::Candidate || self.election.term != self.node.current_term {
            return;
        }
        let n = self.node.peers.len();
        let majority: usize = n / 2 + n % 2 + 1;
        if self.election.votes >= majority {
            self.node.role = NodeRole::Leader;
        }
    }

    /// Takes an answer to one of the node's requests.
    pub fn process_reply(&mut self, result: RpcResult)
        requires
            old(self).election.votes < usize::MAX,
        ensures
            exists|now: u128| final(self)@ == #[trigger] after_reply(old(self)@, result, now),
    {
        let now = self.node.now();
        self.process_reply_at(result, now);
    }

    /// Takes an answer to one of the node's requests, at a given time.
    pub fn process_reply_at(&mut self, result: RpcResult, now: u128)
        requires
            old(self).election.votes < usize::MAX,
        ensures
            final(self)@ == after_reply(old(self)@, result, now),
    {
        match result {
            RpcResult::Vote(v) => {
                if self.election.term == v.term && v.granted && self.node.role
                    == NodeRole::Candidate {
                    self.election = Election {
                        term: self.election.term,
                        votes: self.election.votes + 1,
                    };
                    self.try_become_leader();
                }
            },
            RpcResult::Append(_) => {},
        }
        self.node.reset_election_timeout_at(now);
    }
}

} // verus!
