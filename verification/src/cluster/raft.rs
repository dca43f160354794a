//! A node of the Raft protocol.
//!
//! What a message does to a node is described by functions on a [`RaftView`],
//! the node's state as a mathematical value. The clock stands in them as a
//! number, the nanoseconds since the node was made.

use std::time::Instant;

use vstd::prelude::*;
use vstd::slice::slice_to_vec;

use crate::clock;
use crate::protocol::primitive::Modeled;

verus! {

/// The part that a node plays.
#[derive(Debug, Clone, Copy, PartialEq, Eq, Structural)]
pub enum NodeRole {
    Follower,
    Candidate,
    Leader,
}

/// An entry of the replicated log.
#[derive(Debug, Clone)]
pub struct LogEntry {
    pub term: u64,
    pub index: u64,
    pub data: Vec<u8>,
}

/// The answer to a request for a vote.
#[derive(Debug, Clone, Copy, PartialEq, Eq, Structural)]
pub struct VoteResult {
    pub granted: bool,
    pub term: u64,
}

/// A candidate's request for a vote.
#[derive(Debug, Clone, Copy, PartialEq, Eq, Structural)]
pub struct RequestVote {
    pub term: u64,
    pub candidate_id: u64,
    pub last_log_index: u64,
    pub last_log_term: u64,
}

/// A leader's request to append entries, or its sign of life.
#[derive(Debug, Clone)]
pub struct AppendEntries {
    pub term: u64,
    pub leader_id: u64,
    pub prev_log_index: u64,
    pub prev_log_term: u64,
    pub entries: Vec<LogEntry>,
    pub leader_commit: u64,
}

/// A node.
#[derive(Debug)]
pub struct RaftNode {
    pub id: u64,
    pub role: NodeRole,
    pub current_term: u64,
    pub voted_for: Option<u64>,
    pub log: Vec<LogEntry>,
    pub commit_index: u64,
    pub last_applied: u64,
    /// The other nodes that vote.
    pub peers: Vec<u64>,
    /// When to call an election, in nanoseconds since `started`.
    pub election_deadline: u128,
    /// The last random number drawn.
    pub jitter: u64,
    /// When the node was made.
    pub started: Instant,
}

/// The mathematical value of a log entry.
pub struct EntryModel {
    pub term: u64,
    pub index: u64,
    pub data: Seq<u8>,
}

/// The mathematical value of an append request.
pub struct AppendModel {
    pub term: u64,
    pub leader_id: u64,
    pub prev_log_index: u64,
    pub prev_log_term: u64,
    pub entries: Seq<EntryModel>,
    pub leader_commit: u64,
}

/// The mathematical value of a node.
pub struct RaftView {
    pub id: u64,
    pub role: NodeRole,
    pub current_term: u64,
    pub voted_for: Option<u64>,
    pub log: Seq<EntryModel>,
    pub commit_index: u64,
    pub last_applied: u64,
    pub peers: Seq<u64>,
    pub election_deadline: u128,
    pub jitter: u64,
}

impl Modeled for LogEntry {
    type M = EntryModel;

    open spec fn model(&self) -> EntryModel {
        EntryModel { term: self.term, index: self.index, data: self.data@ }
    }
}

impl Modeled for AppendEntries {
    type M = AppendModel;

    open spec fn model(&self) -> AppendModel {
        AppendModel {
            term: self.term,
            leader_id: self.leader_id,
            prev_log_index: self.prev_log_index,
            prev_log_term: self.prev_log_term,
            entries: self.entries.model(),
            leader_commit: self.leader_commit,
        }
    }
}

impl View for RaftNode {
    type V = RaftView;

    open spec fn view(&self) -> RaftView {
        RaftView {
            id: self.id,
            role: self.role,
            current_term: self.current_term,
            voted_for: self.voted_for,
            log: self.log.model(),
            commit_index: self.commit_index,
            last_applied: self.last_applied,
            peers: self.peers@,
            election_deadline: self.election_deadline,
            jitter: self.jitter,
        }
    }
}

// ---------------------------------------------------------------------------
// What messages do to a node

/// The random number after `x`, by the shifts 13, 7 and 17.
pub open spec fn xorshift(x: u64) -> u64 {
    let a = x ^ (x << 13);
    let b = a ^ (a >> 7);
    b ^ (b << 17)
}

/// The deadline that is drawn at `now`: 150 to 299 milliseconds later.
pub open spec fn drawn_deadline(now: u128, random: u64) -> u128 {
    let later = now + (150 + random % 150) * 1_000_000;
    if later > u128::MAX {
        u128::MAX
    } else {
        later as u128
    }
}

/// A node that never saw a message.
pub open spec fn fresh(id: u64, peers: Seq<u64>, seed: u64, now: u128) -> RaftView {
    rearmed(
        RaftView {
            id,
            role: NodeRole::Follower,
            current_term: 0,
            voted_for: None,
            log: Seq::empty(),
            commit_index: 0,
            last_applied: 0,
            peers,
            election_deadline: 0,
            jitter: seed,
        },
        now,
    )
}

/// The node with a deadline drawn anew.
pub open spec fn rearmed(s: RaftView, now: u128) -> RaftView {
    let random = xorshift(s.jitter);
    RaftView { jitter: random, election_deadline: drawn_deadline(now, random), ..s }
}

/// Whether the deadline of a node has come.
pub open spec fn due(s: RaftView, now: u128) -> bool {
    now >= s.election_deadline
}

/// The index of the last entry of a log.
pub open spec fn last_index(log: Seq<EntryModel>) -> u64 {
    if log.len() == 0 {
        0
    } else {
        log.last().index
    }
}

/// The term of the last entry of a log.
pub open spec fn last_term(log: Seq<EntryModel>) -> u64 {
    if log.len() == 0 {
        0
    } else {
        log.last().term
    }
}

/// Whether a log that ends with `index` and `term` goes at least as far as `log`.
pub open spec fn up_to_date(log: Seq<EntryModel>, index: u64, term: u64) -> bool {
    term > last_term(log) || (term == last_term(log) && index >= last_index(log))
}

/// The node after it hears of a term.
pub open spec fn after_term(s: RaftView, term: u64) -> RaftView {
    if term > s.current_term {
        RaftView { current_term: term, role: NodeRole::Follower, voted_for: None, ..s }
    } else {
        s
    }
}

/// Whether the node votes for the candidate.
pub open spec fn grants(s: RaftView, req: RequestVote) -> bool {
    let t = after_term(s, req.term);
    &&& req.term >= t.current_term
    &&& t.voted_for is None || t.voted_for == Some(req.candidate_id)
    &&& up_to_date(t.log, req.last_log_index, req.last_log_term)
}

/// The node after a request for its vote.
pub open spec fn after_vote(s: RaftView, req: RequestVote, now: u128) -> RaftView {
    let t = after_term(s, req.term);
    if grants(s, req) {
        rearmed(RaftView { voted_for: Some(req.candidate_id), ..t }, now)
    } else {
        t
    }
}

/// Whether a log has an entry with the index.
pub open spec fn has_index(log: Seq<EntryModel>, index: u64) -> bool {
    exists|k: int| 0 <= k < log.len() && (#[trigger] log[k]).index == index
}

/// The log with those of the entries appended, in their order, whose index is
/// not there yet.
pub open spec fn merged(log: Seq<EntryModel>, entries: Seq<EntryModel>) -> Seq<EntryModel>
    decreases entries.len(),
{
    if entries.len() == 0 {
        log
    } else {
        let before = merged(log, entries.drop_last());
        if has_index(before, entries.last().index) {
            before
        } else {
            before.push(entries.last())
        }
    }
}

/// Whether the node takes what a leader of that term says.
pub open spec fn accepts(s: RaftView, req: AppendModel) -> bool {
    req.term >= s.current_term
}

/// The node after a request to append.
pub open spec fn after_append(s: RaftView, req: AppendModel, now: u128) -> RaftView {
    if !accepts(s, req) {
        s
    } else {
        let t = rearmed(RaftView { role: NodeRole::Follower, ..after_term(s, req.term) }, now);
        let log = merged(t.log, req.entries);
        let commit_index = if req.leader_commit > t.commit_index {
            if req.leader_commit <= last_index(log) {
                req.leader_commit
            } else {
                last_index(log)
            }
        } else {
            t.commit_index
        };
        RaftView { log, commit_index, ..t }
    }
}

/// The node after it stands for election.
pub open spec fn after_election(s: RaftView, now: u128) -> RaftView {
    rearmed(
        RaftView {
            role: NodeRole::Candidate,
            current_term: (s.current_term + 1) as u64,
            voted_for: Some(s.id),
            ..s
        },
        now,
    )
}

/// The request that a candidate sends.
pub open spec fn ballot(s: RaftView) -> RequestVote {
    RequestVote {
        term: s.current_term,
        candidate_id: s.id,
        last_log_index: last_index(s.log),
        last_log_term: last_term(s.log),
    }
}

/// The request that a leader sends, with entries.
pub open spec fn append_of(s: RaftView, entries: Seq<EntryModel>) -> AppendModel {
    AppendModel {
        term: s.current_term,
        leader_id: s.id,
        prev_log_index: 0,
        prev_log_term: 0,
        entries,
        leader_commit: s.commit_index,
    }
}

/// The entry that a leader makes of data.
pub open spec fn next_entry(s: RaftView, data: Seq<u8>) -> EntryModel {
    EntryModel { term: s.current_term, index: (last_index(s.log) + 1) as u64, data }
}

// ---------------------------------------------------------------------------
// Laws

/// A node that gave its vote refuses every other candidate of that term.
pub proof fn law_second_candidate_is_refused(
    s: RaftView,
    req: RequestVote,
    now: u128,
    other: RequestVote,
)
    requires
        grants(s, req),
        other.term == req.term,
        other.candidate_id != req.candidate_id,
    ensures
        !grants(after_vote(s, req, now), other),
{
}

/// A vote, once given, stands for as long as the term does, whatever requests
/// come in.
pub proof fn law_vote_stands(
    s: RaftView,
    candidate: u64,
    req: RequestVote,
    append: AppendModel,
    now: u128,
)
    requires
        s.voted_for == Some(candidate),
    ensures
        ({
            let t = after_vote(s, req, now);
            t.current_term == s.current_term ==> t.voted_for == Some(candidate)
        }),
        ({
            let t = after_append(s, append, now);
            t.current_term == s.current_term ==> t.voted_for == Some(candidate)
        }),
{
}

/// The term of a node never falls.
pub proof fn law_term_grows(s: RaftView, req: RequestVote, append: AppendModel, now: u128)
    requires
        s.current_term < u64::MAX,
    ensures
        after_vote(s, req, now).current_term >= s.current_term,
        after_vote(s, req, now).current_term >= req.term,
        after_append(s, append, now).current_term >= s.current_term,
        after_append(s, append, now).current_term >= append.term,
        after_election(s, now).current_term > s.current_term,
{
}

/// What a log holds stays where it is when entries are merged into it.
pub proof fn law_log_only_grows(log: Seq<EntryModel>, entries: Seq<EntryModel>)
    ensures
        log.is_prefix_of(merged(log, entries)),
    decreases entries.len(),
{
    if entries.len() > 0 {
        law_log_only_grows(log, entries.drop_last());
        assert(log.is_prefix_of(merged(log, entries)));
    }
}

/// Every entry sent is in the log afterwards, under its index.
pub proof fn law_entries_arrive(log: Seq<EntryModel>, entries: Seq<EntryModel>, k: int)
    requires
        0 <= k < entries.len(),
    ensures
        has_index(merged(log, entries), entries[k].index),
    decreases entries.len(),
{
    let before = merged(log, entries.drop_last());
    if k < entries.len() - 1 {
        law_entries_arrive(log, entries.drop_last(), k);
        let j = choose|j: int| 0 <= j < before.len() && (#[trigger] before[j]).index
            == entries[k].index;
        assert(merged(log, entries)[j].index == entries[k].index);
    } else if !has_index(before, entries.last().index) {
        assert(merged(log, entries)[before.len() as int].index == entries[k].index);
    }
}

/// Whether no index occurs twice in a log.
pub open spec fn distinct_indices(log: Seq<EntryModel>) -> bool {
    forall|i: int, j: int|
        0 <= i < j < log.len() ==> (#[trigger] log[i]).index != (#[trigger] log[j]).index
}

/// Merging gives no index a second entry.
pub proof fn law_indices_stay_distinct(log: Seq<EntryModel>, entries: Seq<EntryModel>)
    requires
        distinct_indices(log),
    ensures
        distinct_indices(merged(log, entries)),
    decreases entries.len(),
{
    if entries.len() > 0 {
        law_indices_stay_distinct(log, entries.drop_last());
    }
}

/// A follower whose log is the front of the leader's has the leader's log after
/// it took the leader's entries.
pub proof fn law_replication(
    follower: RaftView,
    leader: RaftView,
    now: u128,
)
    requires
        follower.log.is_prefix_of(leader.log),
        distinct_indices(leader.log),
        leader.current_term >= follower.current_term,
    ensures
        after_append(follower, append_of(leader, leader.log), now).log == leader.log,
        after_append(follower, append_of(leader, leader.log), now).role == NodeRole::Follower,
        after_append(follower, append_of(leader, leader.log), now).current_term
            == leader.current_term,
{
    lemma_merge_prefix(follower.log, leader.log, leader.log.len() as int);
    assert(leader.log.take(leader.log.len() as int) =~= leader.log);
}

proof fn lemma_merge_prefix(front: Seq<EntryModel>, log: Seq<EntryModel>, n: int)
    requires
        front.is_prefix_of(log),
        distinct_indices(log),
        0 <= n <= log.len(),
    ensures
        merged(front, log.take(n)) == if n <= front.len() {
            front
        } else {
            log.take(n)
        },
    decreases n,
{
    if n > 0 {
        lemma_merge_prefix(front, log, n - 1);
        assert(log.take(n).drop_last() =~= log.take(n - 1));
        let before = merged(front, log.take(n - 1));
        if n <= front.len() {
            assert(before == front);
            assert(front[n - 1] == log[n - 1]);
            assert(before[n - 1].index == log.take(n).last().index);
        } else {
            assert(before =~= log.take(n - 1));
            assert(!has_index(before, log.take(n).last().index));
            assert(before.push(log.take(n).last()) =~= log.take(n));
        }
    }
}

/// The random numbers never come to a standstill at zero.
pub proof fn law_jitter_moves(x: u64)
    requires
        x != 0,
    ensures
        xorshift(x) != 0,
{
    let a = x ^ (x << 13);
    let b = a ^ (a >> 7);
    assert(x != 0 ==> x ^ (x << 13) != 0) by (bit_vector);
    assert(a != 0 ==> a ^ (a >> 7) != 0) by (bit_vector);
    assert(b != 0 ==> b ^ (b << 17) != 0) by (bit_vector);
}

/// A node that just drew a deadline calls no election for 150 milliseconds, and
/// calls one after 300.
pub proof fn law_election_timeout(s: RaftView, now: u128)
    requires
        now + 300 * 1_000_000 <= u128::MAX,
    ensures
        now + 150 * 1_000_000 <= rearmed(s, now).election_deadline < now + 300 * 1_000_000,
{
}

// ---------------------------------------------------------------------------

/// The entry, a second time.
pub fn copy_entry(e: &LogEntry) -> (r: LogEntry)
    ensures
        r.model() == e.model(),
{
    LogEntry { term: e.term, index: e.index, data: slice_to_vec(e.data.as_slice()) }
}

/// The entries, a second time.
pub fn copy_entries(log: &Vec<LogEntry>) -> (r: Vec<LogEntry>)
    ensures
        r.model() == log.model(),
{
    let mut out: Vec<LogEntry> = Vec::new();
    let mut i: usize = 0;
    while i < log.len()
        invariant
            i <= log@.len(),
            out.model() =~= log.model().take(i as int),
        decreases log@.len() - i,
    {
        let ghost before = out.model();
        out.push(copy_entry(&log[i]));
        assert(out.model() =~= before.push(log.model()[i as int]));
        i += 1;
    }
    assert(log.model().take(i as int) =~= log.model());
    out
}

fn log_has_index(log: &Vec<LogEntry>, index: u64) -> (r: bool)
    ensures
        r == has_index(log.model(), index),
{
    let mut i: usize = 0;
    while i < log.len()
        invariant
            i <= log@.len(),
            forall|k: int| 0 <= k < i ==> (#[trigger] log.model()[k]).index != index,
        decreases log@.len() - i,
    {
        if log[i].index == index {
            assert(log.model()[i as int].index == index);
            return true;
        }
        i += 1;
    }
    false
}

/// The random number after `x`.
pub fn xorshift_step(x: u64) -> (r: u64)
    ensures
        r == xorshift(x),
{
    let a: u64 = x ^ (x << 13);
    let b: u64 = a ^ (a >> 7);
    b ^ (b << 17)
}

impl RaftNode {
    /// A follower that knows its peers.
    pub fn new(id: u64, peers: Vec<u64>) -> (r: Self)
        ensures
            exists|seed: u64, now: u128| r@ == #[trigger] fresh(id, peers@, seed, now),
    {
        let started = clock::instant_now();
        let seed = clock::time_seed();
        let now = clock::nanos_since(&started);
        let mut node = RaftNode {
            id,
            role: NodeRole::Follower,
            current_term: 0,
            voted_for: None,
            log: Vec::new(),
            commit_index: 0,
            last_applied: 0,
            peers,
            election_deadline: 0,
            jitter: seed,
            started,
        };
        assert(node.log.model() =~= Seq::empty());
        node.reset_election_timeout_at(now);
        assert(node@ == fresh(id, peers@, seed, now));
        node
    }

    /// The nanoseconds since the node was made, as the clock shows them.
    pub fn now(&self) -> (r: u128) {
        clock::nanos_since(&self.started)
    }

    /// Draws a new deadline for the next election.
    pub fn reset_election_timeout(&mut self)
        ensures
            exists|now: u128| final(self)@ == #[trigger] rearmed(old(self)@, now),
    {
        let now = self.now();
        self.reset_election_timeout_at(now);
    }

    /// Draws a new deadline for the next election, at a given time.
    pub fn reset_election_timeout_at(&mut self, now: u128)
        ensures
            final(self)@ == rearmed(old(self)@, now),
    {
        let random = xorshift_step(self.jitter);
        self.jitter = random;
        let rand_ms: u64 = 150 + random % 150;
        self.election_deadline = now.saturating_add(rand_ms as u128 * 1_000_000);
    }

    /// Whether the time for an election has come.
    pub fn election_timeout_expired(&self) -> (r: bool)
        ensures
            exists|now: u128| r == #[trigger] due(self@, now),
    {
        let now = self.now();
        self.election_timeout_expired_at(now)
    }

    /// Whether the time for an election has come, at a given time.
    pub fn election_timeout_expired_at(&self, now: u128) -> (r: bool)
        ensures
            r == due(self@, now),
    {
        now >= self.election_deadline
    }

    fn last_log_index(&self) -> (r: u64)
        ensures
            r == last_index(self.log.model()),
    {
        if self.log.len() == 0 {
            0
        } else {
            self.log[self.log.len() - 1].index
        }
    }

    fn last_log_term(&self) -> (r: u64)
        ensures
            r == last_term(self.log.model()),
    {
        if self.log.len() == 0 {
            0
        } else {
            self.log[self.log.len() - 1].term
        }
    }

    /// Stands for election in the next term, with the node's own vote. What is
    /// returned goes to every peer.
    pub fn start_election(&mut self) -> (r: RequestVote)
        requires
            old(self).current_term < u64::MAX,
        ensures
            exists|now: u128| final(self)@ == #[trigger] after_election(old(self)@, now),
            r == ballot(final(self)@),
    {
        let now = self.now();
        self.start_election_at(now)
    }

    /// Stands for election at a given time.
    pub fn start_election_at(&mut self, now: u128) -> (r: RequestVote)
        requires
            old(self).current_term < u64::MAX,
        ensures
            final(self)@ == after_election(old(self)@, now),
            r == ballot(final(self)@),
    {
        self.role = NodeRole::Candidate;
        self.current_term += 1;
        self.voted_for = Some(self.id);
        let req = RequestVote {
            term: self.current_term,
            candidate_id: self.id,
            last_log_index: self.last_log_index(),
            last_log_term: self.last_log_term(),
        };
        self.reset_election_timeout_at(now);
        req
    }

    /// Answers a request for the node's vote.
    pub fn handle_request_vote(&mut self, req: &RequestVote) -> (r: VoteResult)
        ensures
            exists|now: u128| final(self)@ == #[trigger] after_vote(old(self)@, *req, now),
            r.granted == grants(old(self)@, *req),
            r.term == final(self).current_term,
    {
        let now = self.now();
        self.handle_request_vote_at(req, now)
    }

    /// Answers a request for the node's vote at a given time.
    pub fn handle_request_vote_at(&mut self, req: &RequestVote, now: u128) -> (r: VoteResult)
        ensures
            final(self)@ == after_vote(old(self)@, *req, now),
            r.granted == grants(old(self)@, *req),
            r.term == final(self).current_term,
    {
        if req.term > self.current_term {
            self.current_term = req.term;
            self.role = NodeRole::Follower;
            self.voted_for = None;
        }
        let free = match self.voted_for {
            None => true,
            Some(c) => c == req.candidate_id,
        };
        let granted = req.term >= self.current_term && free && self.is_log_up_to_date(
            req.last_log_index,
            req.last_log_term,
        );
        if granted {
            self.voted_for = Some(req.candidate_id);
            self.reset_election_timeout_at(now);
        }
        VoteResult { granted, term: self.current_term }
    }

    fn is_log_up_to_date(&self, index: u64, term: u64) -> (r: bool)
        ensures
            r == up_to_date(self.log.model(), index, term),
    {
        let last_term = self.last_log_term();
        let last_index = self.last_log_index();
        term > last_term || (term == last_term && index >= last_index)
    }

    /// Takes entries, or a sign of life, from a leader.
    pub fn handle_append_entries(&mut self, req: &AppendEntries) -> (r: bool)
        ensures
            exists|now: u128|
                final(self)@ == #[trigger] after_append(old(self)@, req.model(), now),
            r == accepts(old(self)@, req.model()),
    {
        let now = self.now();
        self.handle_append_entries_at(req, now)
    }

    /// Takes entries, or a sign of life, from a leader at a given time.
    pub fn handle_append_entries_at(&mut self, req: &AppendEntries, now: u128) -> (r: bool)
        ensures
            final(self)@ == after_append(old(self)@, req.model(), now),
            r == accepts(old(self)@, req.model()),
    {
        if req.term < self.current_term {
            return false;
        }
        if req.term > self.current_term {
            self.current_term = req.term;
            self.voted_for = None;
        }
        self.role = NodeRole::Follower;
        self.reset_election_timeout_at(now);
        self.merge_entries(&req.entries);
        if req.leader_commit > self.commit_index {
            let last = self.last_log_index();
            self.commit_index = if req.leader_commit <= last {
                req.leader_commit
            } else {
                last
            };
        }
        true
    }

    fn merge_entries(&mut self, entries: &Vec<LogEntry>)
        ensures
            final(self)@ == (RaftView {
                log: merged(old(self)@.log, entries.model()),
                ..old(self)@
            }),
    {
        let mut i: usize = 0;
        assert(entries.model().take(0) =~= Seq::empty());
        while i < entries.len()
            invariant
                i <= entries@.len(),
                self@ == (RaftView {
                    log: merged(old(self)@.log, entries.model().take(i as int)),
                    ..old(self)@
                }),
            decreases entries@.len() - i,
        {
            let ghost before = self.log.model();
            proof {
                assert(entries.model().take(i as int + 1).drop_last() =~= entries.model().take(
                    i as int,
                ));
            }
            if !log_has_index(&self.log, entries[i].index) {
                self.log.push(copy_entry(&entries[i]));
                assert(self.log.model() =~= before.push(entries.model()[i as int]));
            }
            i += 1;
        }
        assert(entries.model().take(i as int) =~= entries.model());
    }

    /// A leader's sign of life. What is returned goes to every peer.
    pub fn heartbeat(&self) -> (r: Option<AppendEntries>)
        ensures
            match r {
                Some(req) => {
                    &&& self.role == NodeRole::Leader
                    &&& req.model() == append_of(self@, Seq::empty())
                },
                None => self.role != NodeRole::Leader,
            },
    {
        if self.role != NodeRole::Leader {
            return None;
        }
        let entries: Vec<LogEntry> = Vec::new();
        assert(entries.model() =~= Seq::empty());
        Some(
            AppendEntries {
                term: self.current_term,
                leader_id: self.id,
                prev_log_index: 0,
                prev_log_term: 0,
                entries,
                leader_commit: self.commit_index,
            },
        )
    }

    /// A leader's log, for its peers.
    pub fn replicate(&self) -> (r: AppendEntries)
        ensures
            r.model() == append_of(self@, self@.log),
    {
        AppendEntries {
            term: self.current_term,
            leader_id: self.id,
            prev_log_index: 0,
            prev_log_term: 0,
            entries: copy_entries(&self.log),
            leader_commit: self.commit_index,
        }
    }

    /// Puts data at the end of a leader's log.
    pub fn append_log(&mut self, data: Vec<u8>)
        requires
            last_index(old(self)@.log) < u64::MAX,
        ensures
            final(self)@ == (RaftView {
                log: old(self)@.log.push(next_entry(old(self)@, data@)),
                ..old(self)@
            }),
    {
        let ghost before = self.log.model();
        let index = self.last_log_index() + 1;
        self.log.push(LogEntry { term: self.current_term, index, data });
        assert(self.log.model() =~= before.push(next_entry(old(self)@, data@)));
    }
}

} // verus!
