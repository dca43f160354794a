//! What holds of nodes, whatever they are asked.

use vstd::prelude::*;

use crate::cluster::controller::{node_id, others, ClusterController};
use crate::cluster::driver::{
    after_proposal, after_reply, after_tick, after_turn, applies, entries_between, entry_at, idle,
    law_applied_in_order, majority, takes, tick_says, wins, DriverState, DriverView, Election, Tick,
};
use crate::cluster::raft::{
    accepts, after_append, after_election, after_vote, ballot, due, fresh, grants, has_index,
    law_log_only_grows, merged, rearmed, xorshift, AppendModel, EntryModel, NodeRole, RaftView,
    RequestVote,
};
use crate::cluster::transport::RpcResult;
use crate::protocol::primitive::Modeled;

verus! {

// ---------------------------------------------------------------------------
// Votes

/// A vote goes only to a candidate whose last entry is of a later term than the
/// voter's last entry, or of the same term and not before it. It goes to every
/// such candidate of a later term than the voter's own.
pub proof fn law_vote_needs_a_full_log(s: RaftView, req: RequestVote)
    ensures
        grants(s, req) && s.log.len() > 0 ==> {
            ||| req.last_log_term > s.log[s.log.len() - 1].term
            ||| req.last_log_term == s.log[s.log.len() - 1].term && req.last_log_index
                >= s.log[s.log.len() - 1].index
        },
        req.term > s.current_term && s.log.len() > 0 && (req.last_log_term > s.log[s.log.len()
            - 1].term || (req.last_log_term == s.log[s.log.len() - 1].term && req.last_log_index
            >= s.log[s.log.len() - 1].index)) ==> grants(s, req),
        req.term > s.current_term && s.log.len() == 0 ==> grants(s, req),
{
}

/// A candidate that lacks the voter's last entry, while its own last entry is of
/// the same term or an earlier one, gets no vote.
pub proof fn law_shorter_log_gets_no_vote(s: RaftView, req: RequestVote)
    requires
        s.log.len() > 0,
        req.last_log_term <= s.log.last().term,
        req.last_log_index < s.log.last().index,
    ensures
        !grants(s, req),
{
}

/// In the voter's own term, a vote goes to the candidate that has it already, or
/// to the first one that asks.
pub proof fn law_vote_in_own_term(s: RaftView, req: RequestVote)
    requires
        req.term == s.current_term,
    ensures
        grants(s, req) ==> s.voted_for is None || s.voted_for == Some(req.candidate_id),
        (s.voted_for is None || s.voted_for == Some(req.candidate_id)) && s.log.len() == 0
            ==> grants(s, req),
        (s.voted_for is None || s.voted_for == Some(req.candidate_id)) && s.log.len() > 0
            && req.last_log_term == s.log.last().term && req.last_log_index
            >= s.log.last().index ==> grants(s, req),
        !grants(s, req) ==> after_vote(s, req, 0) == s,
{
}

/// A vote is kept with its term; the voter's log is not touched, and it gives the
/// candidate time before it stands for election itself.
pub proof fn law_vote_is_kept(s: RaftView, req: RequestVote, now: u128)
    requires
        now + 300 * 1_000_000 <= u128::MAX,
    ensures
        ({
            let t = after_vote(s, req, now);
            &&& t.log == s.log && t.commit_index == s.commit_index
            &&& t.last_applied == s.last_applied && t.peers == s.peers && t.id == s.id
            &&& grants(s, req) ==> {
                &&& t.voted_for == Some(req.candidate_id)
                &&& t.current_term == req.term
                &&& !due(t, (now + 149 * 1_000_000) as u128)
                &&& due(t, (now + 300 * 1_000_000) as u128)
            }
            &&& !grants(s, req) ==> t.election_deadline == s.election_deadline
            &&& !grants(s, req) && req.term > s.current_term ==> t.voted_for is None
        }),
{
}

/// A request of an earlier term is refused and changes nothing.
pub proof fn law_earlier_term_is_refused(
    s: RaftView,
    req: RequestVote,
    append: AppendModel,
    now: u128,
)
    ensures
        req.term < s.current_term ==> !grants(s, req) && after_vote(s, req, now) == s,
        append.term < s.current_term ==> !accepts(s, append) && after_append(s, append, now) == s,
        append.term >= s.current_term ==> accepts(s, append),
{
}

/// Who hears of a later term is a follower in it.
pub proof fn law_later_term_makes_follower(
    s: RaftView,
    req: RequestVote,
    append: AppendModel,
    now: u128,
)
    ensures
        req.term > s.current_term ==> after_vote(s, req, now).role == NodeRole::Follower
            && after_vote(s, req, now).current_term == req.term,
        req.term <= s.current_term ==> after_vote(s, req, now).role == s.role,
        append.term >= s.current_term ==> after_append(s, append, now).role == NodeRole::Follower
            && after_append(s, append, now).current_term == append.term,
        append.term > s.current_term ==> after_append(s, append, now).voted_for is None,
{
}

// ---------------------------------------------------------------------------
// Elections

/// Who stands for election does so in the next term, with its own vote, and says
/// where its log ends.
pub proof fn law_candidate_votes_for_itself(s: RaftView, now: u128)
    requires
        s.current_term < u64::MAX,
    ensures
        ({
            let t = after_election(s, now);
            let b = ballot(t);
            &&& t.role == NodeRole::Candidate
            &&& t.current_term == s.current_term + 1
            &&& t.voted_for == Some(s.id)
            &&& t.log == s.log && t.commit_index == s.commit_index
            &&& t.last_applied == s.last_applied && t.peers == s.peers && t.id == s.id
            &&& b.term == s.current_term + 1
            &&& b.candidate_id == s.id
            &&& s.log.len() > 0 ==> b.last_log_index == s.log[s.log.len() - 1].index
                && b.last_log_term == s.log[s.log.len() - 1].term
            &&& s.log.len() == 0 ==> b.last_log_index == 0 && b.last_log_term == 0
        }),
{
}

/// A candidate gets the vote of every node that has its log and is not of its
/// term yet.
pub proof fn law_same_log_gets_the_vote(candidate: RaftView, voter: RaftView, now: u128)
    requires
        candidate.current_term < u64::MAX,
        voter.log == candidate.log,
        voter.current_term <= candidate.current_term,
    ensures
        grants(voter, ballot(after_election(candidate, now))),
{
}

/// An election takes more than half of the nodes, and no more than that.
pub proof fn law_majority_is_more_than_half(peers: nat)
    ensures
        2 * majority(peers) > peers + 1,
        2 * (majority(peers) - 1) <= peers + 1,
{
}

/// A candidate leads as soon as more than half of the nodes voted for it in its
/// term, and not before.
pub proof fn law_more_than_half_wins(s: RaftView, e: Election)
    ensures
        wins(s, e) <==> s.role == NodeRole::Candidate && e.term == s.current_term && 2 * e.votes
            > s.peers.len() + 1,
{
}

/// A vote counts once if it was given to a candidate in the term of its election;
/// no other answer counts.
pub proof fn law_votes_are_counted(d: DriverView, reply: RpcResult, now: u128)
    requires
        d.election.votes < usize::MAX,
    ensures
        ({
            let t = after_reply(d, reply, now);
            let counts = d.node.role == NodeRole::Candidate && (reply matches RpcResult::Vote(v)
                && v.granted && v.term == d.election.term);
            &&& t.election.term == d.election.term
            &&& counts ==> t.election.votes == d.election.votes + 1
            &&& !counts ==> t.election.votes == d.election.votes && t.node.role == d.node.role
            &&& counts && d.election.term == d.node.current_term ==> ((t.node.role
                == NodeRole::Leader) == (2 * (d.election.votes + 1) > d.node.peers.len() + 1))
            &&& t.node.log == d.node.log
            &&& t.node.current_term == d.node.current_term
            &&& t.node.voted_for == d.node.voted_for
            &&& t.node.commit_index == d.node.commit_index
            &&& t.state == d.state
        }),
{
}

// ---------------------------------------------------------------------------
// The log

/// Entries sent in two parts come to what they come to in one.
pub proof fn law_merge_in_parts(log: Seq<EntryModel>, a: Seq<EntryModel>, b: Seq<EntryModel>)
    ensures
        merged(log, a + b) == merged(merged(log, a), b),
    decreases b.len(),
{
    if b.len() == 0 {
        assert(a + b =~= a);
    } else {
        law_merge_in_parts(log, a, b.drop_last());
        assert((a + b).drop_last() =~= a + b.drop_last());
    }
}

/// An entry whose index is new goes to the end of the log as it is; one whose
/// index is there already changes nothing.
pub proof fn law_merge_one(log: Seq<EntryModel>, e: EntryModel)
    ensures
        (exists|k: int| 0 <= k < log.len() && (#[trigger] log[k]).index == e.index) ==> merged(
            log,
            seq![e],
        ) == log,
        (forall|k: int| 0 <= k < log.len() ==> (#[trigger] log[k]).index != e.index) ==> merged(
            log,
            seq![e],
        ) == log.push(e),
{
    assert(seq![e].drop_last() =~= Seq::<EntryModel>::empty());
    assert(merged(log, Seq::empty()) == log);
    assert(has_index(log, e.index) <==> exists|k: int|
        0 <= k < log.len() && (#[trigger] log[k]).index == e.index);
}

/// Nothing is made up: what is in a log after a leader's request was there before
/// or was in the request.
pub proof fn law_merge_makes_nothing_up(log: Seq<EntryModel>, entries: Seq<EntryModel>, k: int)
    requires
        0 <= k < merged(log, entries).len(),
    ensures
        log.contains(merged(log, entries)[k]) || entries.contains(merged(log, entries)[k]),
    decreases entries.len(),
{
    if entries.len() == 0 {
        assert(log[k] == merged(log, entries)[k]);
    } else {
        let front = entries.drop_last();
        let before = merged(log, front);
        if k < before.len() {
            law_merge_makes_nothing_up(log, front, k);
            if front.contains(before[k]) {
                let j = choose|j: int| 0 <= j < front.len() && front[j] == before[k];
                assert(entries[j] == before[k]);
            }
        } else {
            assert(entries[entries.len() - 1] == merged(log, entries)[k]);
        }
    }
}

/// What a request to append does to a node: what the log held stays in front, and
/// the node counts as committed what the leader does, as far as its log goes.
pub proof fn law_append_follows_the_leader(s: RaftView, req: AppendModel, now: u128)
    requires
        req.term >= s.current_term,
    ensures
        ({
            let t = after_append(s, req, now);
            let last = if t.log.len() == 0 {
                0
            } else {
                t.log[t.log.len() - 1].index
            };
            &&& s.log.is_prefix_of(t.log)
            &&& req.entries.len() == 0 ==> t.log == s.log
            &&& req.leader_commit <= s.commit_index ==> t.commit_index == s.commit_index
            &&& req.leader_commit > s.commit_index && req.leader_commit <= last ==> t.commit_index
                == req.leader_commit
            &&& req.leader_commit > s.commit_index && req.leader_commit > last ==> t.commit_index
                == last
            &&& t.last_applied == s.last_applied && t.peers == s.peers && t.id == s.id
        }),
{
    law_log_only_grows(s.log, req.entries);
}

/// A leader takes data under the index after its last one, in its term, and
/// behind all that it has; no one else takes any.
pub proof fn law_proposal_goes_to_the_end(d: DriverView, data: Seq<u8>)
    ensures
        takes(d) ==> d.node.role == NodeRole::Leader,
        d.node.role == NodeRole::Leader && (d.node.log.len() == 0 || d.node.log.last().index
            < u64::MAX) ==> takes(d),
        takes(d) ==> after_proposal(d, data).node.log == d.node.log.push(
            EntryModel {
                term: d.node.current_term,
                index: if d.node.log.len() == 0 {
                    1
                } else {
                    (d.node.log.last().index + 1) as u64
                },
                data,
            },
        ),
        !takes(d) ==> after_proposal(d, data) == d,
        after_proposal(d, data).node.commit_index == d.node.commit_index,
        after_proposal(d, data).election == d.election,
        after_proposal(d, data).state == d.state,
{
}

// ---------------------------------------------------------------------------
// Ticks

/// At a tick a leader sends its whole log, with its term, its number and what it
/// counts as committed. It counts its log as committed then, to its end, and says
/// that it leads.
pub proof fn law_leader_sends_its_log(d: DriverView, now: u128, t: Tick)
    requires
        d.node.role == NodeRole::Leader,
        tick_says(d, now, t),
    ensures
        t.vote is None,
        t.append matches Some(req) && {
            &&& req.model().entries == d.node.log
            &&& req.term == d.node.current_term
            &&& req.leader_id == d.node.id
            &&& req.leader_commit == d.node.commit_index
        },
        after_tick(d, now).node.log == d.node.log,
        after_tick(d, now).node.role == NodeRole::Leader,
        after_tick(d, now).node.current_term == d.node.current_term,
        after_tick(d, now).node.commit_index >= d.node.commit_index,
        d.node.log.len() > 0 ==> after_tick(d, now).node.commit_index >= d.node.log.last().index,
        after_tick(d, now).node.commit_index == d.node.commit_index || (d.node.log.len() > 0
            && after_tick(d, now).node.commit_index == d.node.log.last().index),
        after_tick(d, now).state == (DriverState {
            is_leader: true,
            current_term: d.node.current_term,
        }),
{
}

/// A tick of a leader changes nothing of the node but what counts as committed and
/// what is applied.
pub proof fn law_leader_stays_as_it_is(d: DriverView, now: u128)
    requires
        d.node.role == NodeRole::Leader,
    ensures
        ({
            let n = after_tick(d, now).node;
            &&& n == (RaftView {
                commit_index: n.commit_index,
                last_applied: n.last_applied,
                ..d.node
            })
            &&& after_tick(d, now).election == d.election
        }),
{
}

/// At a tick a node that does not lead asks for votes if its time has come, and
/// does nothing else but apply what is committed.
pub proof fn law_others_ask_for_votes(d: DriverView, now: u128, t: Tick)
    requires
        d.node.role != NodeRole::Leader,
        d.node.current_term < u64::MAX,
        tick_says(d, now, t),
    ensures
        t.append is None,
        t.vote is Some <==> now >= d.node.election_deadline,
        t.vote matches Some(req) ==> {
            &&& req.term == d.node.current_term + 1
            &&& req.candidate_id == d.node.id
            &&& after_tick(d, now).node.current_term == d.node.current_term + 1
            &&& after_tick(d, now).node.voted_for == Some(d.node.id)
            &&& after_tick(d, now).election == (Election { term: req.term, votes: 1 })
            &&& d.node.log.len() > 0 ==> req.last_log_index == d.node.log.last().index
                && req.last_log_term == d.node.log.last().term
        },
        t.vote is None ==> {
            &&& after_tick(d, now).node.current_term == d.node.current_term
            &&& after_tick(d, now).node.voted_for == d.node.voted_for
            &&& after_tick(d, now).node.role == d.node.role
            &&& after_tick(d, now).election == d.election
        },
        after_tick(d, now).node.log == d.node.log,
        after_tick(d, now).node.commit_index == d.node.commit_index,
        after_tick(d, now).state.is_leader == false,
{
}

proof fn lemma_between(log: Seq<EntryModel>, from: int, to: int)
    ensures
        forall|i: int|
            0 <= i < entries_between(log, from, to).len() ==> log.contains(
                #[trigger] entries_between(log, from, to)[i],
            ),
    decreases to - from,
{
    if to > from {
        lemma_between(log, from, to - 1);
        lemma_entry_is_there(log, to);
        let before = entries_between(log, from, to - 1);
        let s = entries_between(log, from, to);
        assert forall|i: int| 0 <= i < s.len() implies log.contains(#[trigger] s[i]) by {
            if i < before.len() {
                assert(s[i] == before[i]);
            }
        }
    }
}

proof fn lemma_entry_is_there(log: Seq<EntryModel>, index: int)
    ensures
        entry_at(log, index) matches Some(e) ==> log.contains(e),
    decreases log.len(),
{
    if log.len() > 0 {
        let front = log.drop_last();
        lemma_entry_is_there(front, index);
        match entry_at(front, index) {
            Some(e) => {
                let k = choose|k: int| 0 <= k < front.len() && front[k] == e;
                assert(log[k] == e);
            },
            None => {
                assert(log[log.len() - 1] == log.last());
            },
        }
    }
}

/// What a tick applies is in the log, lies above what was applied before, is
/// committed, and comes in the order of the indices. The last of it is what was
/// applied last then.
pub proof fn law_tick_applies_what_is_committed(d: DriverView, now: u128)
    ensures
        ({
            let s = applies(d, now);
            let t = after_tick(d, now).node;
            &&& forall|i: int|
                0 <= i < s.len() ==> t.log.contains(#[trigger] s[i]) && d.node.last_applied
                    < s[i].index <= t.commit_index
            &&& forall|i: int, j: int|
                0 <= i < j < s.len() ==> (#[trigger] s[i]).index < (#[trigger] s[j]).index
            &&& s.len() == 0 ==> t.last_applied == d.node.last_applied
            &&& s.len() > 0 ==> t.last_applied == s[s.len() - 1].index
        }),
{
    let t = after_turn(d, now).node;
    law_applied_in_order(t.log, t.last_applied as int, t.commit_index as int);
    lemma_between(t.log, t.last_applied as int, t.commit_index as int);
}

/// Nothing is applied twice: what a tick applied, the next one does not.
pub proof fn law_applied_once(d: DriverView, now: u128, later: u128, i: int, j: int)
    requires
        0 <= i < applies(d, now).len(),
        0 <= j < applies(after_tick(d, now), later).len(),
    ensures
        applies(d, now)[i].index < applies(after_tick(d, now), later)[j].index,
{
    law_tick_applies_what_is_committed(d, now);
    law_tick_applies_what_is_committed(after_tick(d, now), later);
    let s = applies(d, now);
    assert(s[i].index <= s[s.len() - 1].index);
}

// ---------------------------------------------------------------------------
// The controller

/// A broker that runs alone is the controller. One with a driver is if its driver
/// leads. Any other is if it is the leader that was made known.
pub proof fn law_controller(c: ClusterController)
    ensures
        c.config.single_node ==> c.leads(),
        !c.config.single_node ==> (c.driver_state matches Some(d) ==> c.leads() == d.is_leader),
        !c.config.single_node && c.driver_state is None && c.raft_state.leader_id == 0
            ==> !c.leads(),
        !c.config.single_node && c.driver_state is None && c.config.broker_id > 0 ==> c.leads()
            == (c.raft_state.leader_id == c.config.broker_id),
{
}

/// Every reply puts the next election off. One that is no vote changes nothing else.
pub proof fn law_replies_put_off_elections(d: DriverView, reply: RpcResult, now: u128)
    requires
        now + 300 * 1_000_000 <= u128::MAX,
    ensures
        ({
            let t = after_reply(d, reply, now);
            &&& now + 150 * 1_000_000 <= t.node.election_deadline < now + 300 * 1_000_000
            &&& t.node.log == d.node.log
            &&& t.node.current_term == d.node.current_term
            &&& t.node.voted_for == d.node.voted_for
            &&& t.node.commit_index == d.node.commit_index
            &&& t.node.last_applied == d.node.last_applied
            &&& t.state == d.state
            &&& reply is Append ==> t.election == d.election && t.node.role == d.node.role
        }),
{
}

/// A node that does not lead says so at every tick. The term that it last led in stays
/// known.
pub proof fn law_last_term_led_stays_known(d: DriverView, now: u128)
    requires
        d.node.role != NodeRole::Leader,
    ensures
        !after_tick(d, now).state.is_leader,
        after_tick(d, now).state.current_term == d.state.current_term,
{
}

/// The peers of a node are the nodes of the cluster but itself, in their order.
pub proof fn law_peers(nodes: Seq<u64>, id: u64, n: u64)
    ensures
        others(nodes, id).contains(n) <==> nodes.contains(n) && n != id,
        !nodes.contains(id) ==> others(nodes, id) == nodes,
{
    lemma_peer(nodes, id, n);
    if !nodes.contains(id) {
        lemma_all_kept(nodes, id);
    }
}

proof fn lemma_peer(nodes: Seq<u64>, id: u64, n: u64)
    ensures
        others(nodes, id).contains(n) <==> nodes.contains(n) && n != id,
    decreases nodes.len(),
{
    reveal(Seq::filter);
    if nodes.len() > 0 {
        let front = nodes.drop_last();
        let before = others(front, id);
        lemma_peer(front, id, n);
        assert(nodes =~= front.push(nodes.last()));
        assert(nodes.contains(n) <==> front.contains(n) || n == nodes.last()) by {
            lemma_pushed(front, nodes.last(), n);
        }
        if nodes.last() != id {
            assert(others(nodes, id) =~= before.push(nodes.last()));
            lemma_pushed(before, nodes.last(), n);
        } else {
            assert(others(nodes, id) =~= before);
        }
    }
}

proof fn lemma_pushed(s: Seq<u64>, x: u64, n: u64)
    ensures
        s.push(x).contains(n) <==> s.contains(n) || n == x,
{
    if s.contains(n) {
        let k = choose|k: int| 0 <= k < s.len() && s[k] == n;
        assert(s.push(x)[k] == n);
    }
    if n == x {
        assert(s.push(x)[s.len() as int] == n);
    }
    if s.push(x).contains(n) {
        let k = choose|k: int| 0 <= k < s.push(x).len() && s.push(x)[k] == n;
        if k < s.len() {
            assert(s[k] == n);
        }
    }
}

proof fn lemma_all_kept(nodes: Seq<u64>, id: u64)
    requires
        !nodes.contains(id),
    ensures
        others(nodes, id) == nodes,
    decreases nodes.len(),
{
    reveal(Seq::filter);
    if nodes.len() > 0 {
        let front = nodes.drop_last();
        assert(!front.contains(id)) by {
            if front.contains(id) {
                let k = choose|k: int| 0 <= k < front.len() && front[k] == id;
                assert(nodes[k] == id);
            }
        }
        lemma_all_kept(front, id);
        assert(nodes[nodes.len() - 1] == nodes.last());
        assert(front.push(nodes.last()) =~= nodes);
    } else {
        assert(others(nodes, id) =~= nodes);
    }
}

/// A driver that starts leads nothing, and has counted no vote. A node that starts
/// follows, knows no entry, and has given no vote.
pub proof fn law_nothing_at_the_start(id: u64, peers: Seq<u64>, seed: u64, now: u128)
    ensures
        ({
            let n = fresh(id, peers, seed, now);
            let d = idle(n);
            &&& !d.state.is_leader
            &&& d.state.current_term == 0
            &&& d.election.votes == 0
            &&& d.election.term == 0
            &&& d.node == n
            &&& n.id == id
            &&& n.peers == peers
            &&& n.role == NodeRole::Follower
            &&& n.current_term == 0
            &&& n.voted_for is None
            &&& n.log.len() == 0
            &&& n.commit_index == 0
            &&& n.last_applied == 0
        }),
{
}

/// Every deadline is drawn anew: what the next one is drawn from differs, for
/// different numbers before.
pub proof fn law_drawn_anew(s: RaftView, t: RaftView, now: u128)
    ensures
        s.jitter != t.jitter ==> rearmed(s, now).jitter != rearmed(t, now).jitter,
        rearmed(s, now).jitter == xorshift(s.jitter),
{
    let x = s.jitter;
    let y = t.jitter;
    let a = x ^ (x << 13);
    let c = y ^ (y << 13);
    assert(x != y ==> x ^ (x << 13) != y ^ (y << 13)) by (bit_vector);
    let b = a ^ (a >> 7);
    let d = c ^ (c >> 7);
    assert(a != c ==> a ^ (a >> 7) != c ^ (c >> 7)) by (bit_vector);
    assert(b != d ==> b ^ (b << 17) != d ^ (d << 17)) by (bit_vector);
}

/// Different brokers are different nodes.
pub proof fn law_nodes_differ(a: i32, b: i32)
    ensures
        a != b ==> node_id(a) != node_id(b),
        a >= 0 ==> node_id(a) == a,
{
}

} // verus!
