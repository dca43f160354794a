//! The controller: the broker that changes the cluster's metadata. A broker
//! that runs alone is its own controller; among several the Raft leader is.

use std::sync::Arc;

use vstd::prelude::*;
use vstd::string::StringExecFns;

use crate::cluster::driver::{DriverState, RaftDriver};
use crate::config::BrokerConfig;
use crate::text;

verus! {

/// What is known of the cluster's leader.
#[derive(Debug, Clone, Copy, PartialEq, Eq, Structural)]
pub struct RaftState {
    /// The leader's number; zero while there is none or it is not known.
    pub leader_id: u64,
    pub current_term: u64,
    /// Whether the driver was started.
    pub started: bool,
}

impl RaftState {
    /// No leader, of no term, and no driver.
    pub fn new() -> (r: Self)
        ensures
            r == (RaftState { leader_id: 0, current_term: 0, started: false }),
    {
        RaftState { leader_id: 0, current_term: 0, started: false }
    }
}

impl Default for RaftState {
    fn default() -> (r: Self)
        ensures
            r == (RaftState { leader_id: 0, current_term: 0, started: false }),
    {
        RaftState::new()
    }
}

/// The controller of a broker.
#[derive(Debug)]
pub struct ClusterController {
    pub config: Arc<BrokerConfig>,
    pub raft_state: RaftState,
    /// What the broker's driver says, once there is one.
    pub driver_state: Option<DriverState>,
}

/// The number of a broker as a node; a negative one counts down from 2^64.
pub open spec fn node_id(broker_id: i32) -> u64 {
    if broker_id >= 0 {
        broker_id as u64
    } else {
        (0x1_0000_0000_0000_0000 + broker_id) as u64
    }
}

/// The nodes but for one.
pub open spec fn others(nodes: Seq<u64>, id: u64) -> Seq<u64> {
    nodes.filter(|n: u64| n != id)
}

/// The number of a broker as a node.
pub fn node_number(broker_id: i32) -> (r: u64)
    ensures
        r == node_id(broker_id),
{
    proof {
        assert(broker_id < 0 ==> broker_id as i64 as u64 == 0x1_0000_0000_0000_0000 + broker_id)
            by (bit_vector);
    }
    broker_id as i64 as u64
}

impl ClusterController {
    /// Whether this broker is the controller.
    pub open spec fn leads(&self) -> bool {
        if self.config.single_node {
            true
        } else {
            match self.driver_state {
                Some(d) => d.is_leader,
                None => self.raft_state.leader_id == node_id(self.config.broker_id)
                    && self.raft_state.leader_id != 0,
            }
        }
    }

    /// A controller without a driver.
    pub fn new(config: Arc<BrokerConfig>) -> (r: Self)
        ensures
            r.config == config,
            r.raft_state == (RaftState { leader_id: 0, current_term: 0, started: false }),
            r.driver_state is None,
            r.leads() == config.single_node,
    {
        ClusterController { config, raft_state: RaftState::new(), driver_state: None }
    }

    /// Whether this broker is the controller.
    pub fn is_controller(&self) -> (r: bool)
        ensures
            r == self.leads(),
    {
        if self.config.single_node {
            return true;
        }
        match self.driver_state {
            Some(d) => d.is_leader,
            None => {
                let leader = self.raft_state.leader_id;
                leader == node_number(self.config.broker_id) && leader != 0
            },
        }
    }

    /// The note that a topic was created.
    pub fn on_topic_created(&self, topic: &str, partitions: i32, rf: i16) -> (r: String)
        ensures
            r@ == "元数据变更: 创建主题 "@ + topic@ + ", 分区="@ + text::decimal(partitions as int)
                + ", 副本因子="@ + text::decimal(rf as int),
    {
        let mut s = "元数据变更: 创建主题 ".to_string();
        s.append(topic);
        s.append(", 分区=");
        text::push_int(&mut s, partitions as i64);
        s.append(", 副本因子=");
        text::push_int(&mut s, rf as i64);
        s
    }

    /// Starts the broker's part in the cluster: once, and only if it does not
    /// run alone. The peers are the nodes but for the broker's own.
    pub fn start_raft(&mut self, all_nodes: &Vec<u64>) -> (r: Option<RaftDriver>)
        ensures
            final(self).config == old(self).config,
            match r {
                Some(d) => {
                    &&& !old(self).config.single_node
                    &&& !old(self).raft_state.started
                    &&& final(self).raft_state == (RaftState {
                        started: true,
                        ..old(self).raft_state
                    })
                    &&& final(self).driver_state == Some(
                        DriverState { is_leader: false, current_term: 0 },
                    )
                    &&& d.state == (DriverState { is_leader: false, current_term: 0 })
                    &&& d.node.id == node_id(old(self).config.broker_id)
                    &&& d.node.peers@ == others(all_nodes@, d.node.id)
                },
                None => {
                    &&& old(self).config.single_node || old(self).raft_state.started
                    &&& *final(self) == *old(self)
                },
            },
    {
        if self.config.single_node || self.raft_state.started {
            return None;
        }
        self.raft_state.started = true;
        let id = node_number(self.config.broker_id);
        let peers = peers_of(all_nodes, id);
        let driver = RaftDriver::new(id, peers);
        self.driver_state = Some(driver.state);
        Some(driver)
    }

    /// Takes over what the broker's driver says.
    pub fn observe(&mut self, state: DriverState)
        ensures
            final(self).config == old(self).config,
            final(self).raft_state == old(self).raft_state,
            final(self).driver_state == Some(state),
            !old(self).config.single_node ==> final(self).leads() == state.is_leader,
    {
        self.driver_state = Some(state);
    }

    /// Takes note of the leader and the term in which the broker's driver applied
    /// entries.
    pub fn on_applied(&mut self, state: DriverState)
        ensures
            final(self).config == old(self).config,
            final(self).driver_state == old(self).driver_state,
            final(self).raft_state == (RaftState {
                leader_id: if state.is_leader {
                    node_id(old(self).config.broker_id)
                } else {
                    0
                },
                current_term: state.current_term,
                ..old(self).raft_state
            }),
    {
        self.raft_state.leader_id = if state.is_leader {
            node_number(self.config.broker_id)
        } else {
            0
        };
        self.raft_state.current_term = state.current_term;
    }
}

fn peers_of(nodes: &Vec<u64>, id: u64) -> (r: Vec<u64>)
    ensures
        r@ == others(nodes@, id),
{
    let mut out: Vec<u64> = Vec::new();
    let mut i: usize = 0;
    proof {
        reveal(Seq::filter);
    }
    while i < nodes.len()
        invariant
            i <= nodes@.len(),
            out@ == others(nodes@.take(i as int), id),
        decreases nodes@.len() - i,
    {
        proof {
            assert(nodes@.take(i as int + 1).drop_last() =~= nodes@.take(i as int));
            reveal(Seq::filter);
        }
        if nodes[i] != id {
            out.push(nodes[i]);
        }
        i += 1;
    }
    assert(nodes@.take(i as int) =~= nodes@);
    out
}

} // verus!
