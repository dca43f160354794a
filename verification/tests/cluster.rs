use std::sync::Arc;

use rivine::clock::{seed, timestamp};
use rivine::cluster::driver::RaftDriver;
use rivine::cluster::raft::{xorshift_step, AppendEntries, LogEntry, RequestVote, VoteResult};
use rivine::cluster::transport::RpcResult;
use rivine::cluster::{ClusterController, NodeRole, RaftNode};
use rivine::config::BrokerConfig;

#[test]
fn readings_of_the_clock() {
    assert_eq!(seed(None), 0);
    assert_eq!(seed(Some(5)), 5);
    assert_eq!(seed(Some((1u128 << 64) + 7)), 7);
    assert_eq!(timestamp(None), 0);
    assert_eq!(timestamp(Some(1_700_000_000_000)), 1_700_000_000_000);
}

#[test]
fn test_vote_granted_once() {
    let mut node = RaftNode::new(1, vec![2, 3]);
    let req = RequestVote {
        term: 1,
        candidate_id: 2,
        last_log_index: 0,
        last_log_term: 0,
    };
    let r1 = node.handle_request_vote(&req);
    assert!(r1.granted);
    // Another candidate in the same term gets no vote.
    let req2 = RequestVote {
        term: 1,
        candidate_id: 3,
        last_log_index: 0,
        last_log_term: 0,
    };
    let r2 = node.handle_request_vote(&req2);
    assert!(!r2.granted);
}

#[test]
fn votes_depend_on_term_and_log() {
    let mut node = RaftNode::new(1, vec![2]);
    node.current_term = 5;
    let mut req = RequestVote {
        term: 4,
        candidate_id: 2,
        last_log_index: 9,
        last_log_term: 9,
    };
    let r = node.handle_request_vote_at(&req, 0);
    assert!(!r.granted);
    assert_eq!(r.term, 5);
    node.role = NodeRole::Leader;
    node.append_log(vec![1]);
    req.term = 6;
    req.last_log_index = 0;
    req.last_log_term = 0;
    let r = node.handle_request_vote_at(&req, 0);
    assert!(!r.granted);
    assert_eq!(r.term, 6);
    assert_eq!(node.role, NodeRole::Follower);
}

#[test]
fn elections_begin_when_the_time_is_up() {
    let mut node = RaftNode::new(1, vec![2, 3]);
    node.reset_election_timeout_at(0);
    let deadline = node.election_deadline;
    assert!(deadline >= 150_000_000 && deadline < 300_000_000);
    assert!(!node.election_timeout_expired_at(0));
    assert!(node.election_timeout_expired_at(deadline));
    let req = node.start_election_at(deadline + 1);
    assert_eq!(node.role, NodeRole::Candidate);
    assert_eq!((req.term, req.candidate_id), (1, 1));
    assert_eq!(node.voted_for, Some(1));
}

#[test]
fn entries_are_taken_once() {
    let mut node = RaftNode::new(2, vec![1]);
    let entry = |index: u64| LogEntry {
        term: 1,
        index,
        data: vec![index as u8],
    };
    let mut req = AppendEntries {
        term: 1,
        leader_id: 1,
        prev_log_index: 0,
        prev_log_term: 0,
        entries: vec![entry(1), entry(2)],
        leader_commit: 5,
    };
    assert!(node.handle_append_entries_at(&req, 0));
    assert!(node.handle_append_entries_at(&req, 0));
    assert_eq!(node.log.len(), 2);
    assert_eq!(node.commit_index, 2);
    req.term = 0;
    assert!(!node.handle_append_entries_at(&req, 0));
}

#[test]
fn jitter_moves() {
    assert_eq!(xorshift_step(1), 1082269761);
    assert_ne!(xorshift_step(2), 2);
}

/// Lets a driver's message reach the others, and their replies come back.
fn exchange(drivers: &mut [RaftDriver], from: usize, now: u128) -> Vec<LogEntry> {
    let tick = drivers[from].run_tick_at(now);
    for to in 0..drivers.len() {
        if to == from {
            continue;
        }
        if let Some(v) = &tick.vote {
            let r = drivers[to].node.handle_request_vote_at(v, now);
            drivers[from].process_reply_at(RpcResult::Vote(r), now);
        }
        if let Some(a) = &tick.append {
            let ok = drivers[to].node.handle_append_entries_at(a, now);
            drivers[from].process_reply_at(RpcResult::Append(ok), now);
        }
    }
    tick.apply
}

#[test]
fn single_node_becomes_leader() {
    let mut d = RaftDriver::new(1, vec![]);
    let late = d.node.election_deadline + 1;
    d.run_tick_at(late);
    d.run_tick_at(late);
    assert!(d.is_leader());
    assert_eq!(d.id(), 1);
    assert!(d.propose(b"x".to_vec()));
}

#[test]
fn three_nodes_elect_one_leader_and_replicate() {
    let mut drivers = vec![
        RaftDriver::new(1, vec![2, 3]),
        RaftDriver::new(2, vec![1, 3]),
        RaftDriver::new(3, vec![1, 2]),
    ];
    assert!(!drivers[0].propose(b"no".to_vec()));
    let mut now = drivers[0].node.election_deadline + 1;
    drivers[1].node.reset_election_timeout_at(now);
    drivers[2].node.reset_election_timeout_at(now);
    exchange(&mut drivers, 0, now);
    drivers[0].run_tick_at(now);
    assert_eq!(drivers.iter().filter(|d| d.is_leader()).count(), 1);
    assert_eq!(drivers[0].node.role, NodeRole::Leader);

    let proposed = "replicated-msg-1".to_string();
    assert!(drivers[0].propose(proposed.as_bytes().to_vec()));
    let mut applied: Vec<Vec<String>> = vec![vec![], vec![], vec![]];
    for _ in 0..4 {
        now += 150_000_000;
        for i in 0..3 {
            let entries = exchange(&mut drivers, i, now);
            for e in entries {
                applied[i].push(String::from_utf8(e.data).unwrap());
            }
        }
    }
    for a in &applied {
        assert_eq!(a, &vec![proposed.clone()]);
    }
}

#[test]
fn a_leader_does_not_vote_again_in_its_term() {
    let mut d = RaftDriver::new(1, vec![2, 3, 4, 5]);
    let late = d.node.election_deadline;
    d.run_tick_at(late);
    let vote = VoteResult { granted: true, term: 1 };
    d.process_reply_at(RpcResult::Vote(vote), late);
    assert_eq!(d.node.role, NodeRole::Candidate);
    d.process_reply_at(RpcResult::Vote(VoteResult { granted: true, term: 1 }), late);
    assert_eq!(d.node.role, NodeRole::Leader);
    let req = RequestVote {
        term: 1,
        candidate_id: 3,
        last_log_index: 0,
        last_log_term: 0,
    };
    assert!(!d.node.handle_request_vote_at(&req, late).granted);
    let next = RequestVote { term: 2, ..req };
    assert!(d.node.handle_request_vote_at(&next, late).granted);
    assert_eq!(d.node.role, NodeRole::Follower);
    d.run_tick_at(late);
    assert!(!d.is_leader());
}

#[test]
fn votes_that_do_not_count() {
    let mut d = RaftDriver::new(1, vec![2, 3]);
    let late = d.node.election_deadline;
    d.run_tick_at(late);
    for (granted, term) in [(false, 1), (true, 0), (true, 2)] {
        d.process_reply_at(RpcResult::Vote(VoteResult { granted, term }), late);
    }
    d.process_reply_at(RpcResult::Append(true), late);
    assert_eq!(d.election.votes, 1);
    assert_eq!(d.node.role, NodeRole::Candidate);
}

#[test]
fn controller_of_a_single_node() {
    let mut cfg = BrokerConfig::default();
    cfg.broker_id = 1;
    let mut c = ClusterController::new(Arc::new(cfg));
    assert!(c.is_controller());
    assert!(c.on_topic_created("t", 3, 1).contains("t"));
    assert!(c.start_raft(&vec![1]).is_none());
}

#[test]
fn controller_of_a_cluster() {
    let mut cfg = BrokerConfig::default();
    cfg.broker_id = 1;
    cfg.single_node = false;
    let mut c = ClusterController::new(Arc::new(cfg));
    assert!(!c.is_controller());
    let driver = c.start_raft(&vec![1, 2, 3]).unwrap();
    assert_eq!(driver.node.peers, vec![2, 3]);
    let mut state = driver.state;
    state.is_leader = true;
    state.current_term = 4;
    c.observe(state);
    assert!(c.is_controller());
    assert_eq!((c.raft_state.leader_id, c.raft_state.current_term), (0, 0));
    c.on_applied(state);
    assert_eq!((c.raft_state.leader_id, c.raft_state.current_term), (1, 4));
    state.is_leader = false;
    c.on_applied(state);
    assert_eq!((c.raft_state.leader_id, c.raft_state.current_term), (0, 4));
    assert!(c.is_controller());
}
