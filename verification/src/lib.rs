//! Core of a distributed consensus runtime: a replicated-log consensus state
//! machine, a tagged family of consensus engines, state-based CRDTs with
//! verified merge laws, and the configuration and message types shared by the
//! node runtime.

pub mod consensus;
pub mod crdt;
pub mod error;
pub mod pratt;
pub mod raft;
pub mod state;
pub mod wire;

use vstd::prelude::*;

verus! {

/// Identifier of a node in the cluster; opaque, unique within the cluster.
pub type NodeId = String;

/// Correlation token minted when a value is proposed and retired when the
/// proposal commits or times out.
#[derive(Debug, Clone, PartialEq, Eq)]
pub struct ProposalId(pub String);

/// An externally supplied vote on a proposal.
#[derive(Debug, Clone, Copy, PartialEq, Eq, Structural)]
pub enum Vote {
    Accept,
    Reject,
    Abstain,
}

/// Errors a caller of the consensus layer can observe.
#[derive(Debug, Clone, Copy, PartialEq, Eq, Structural)]
pub enum ConsensusError {
    /// A propose reached a node whose role forbids proposing.
    NotLeader,
    /// The outstanding-proposal bound was exceeded.
    Backpressure,
    /// A vote named a proposal this node does not know.
    UnknownProposal,
    /// A quorum write timed out below its threshold.
    QuorumNotReached,
}

/// Envelope exchanged between nodes over the transport.
#[derive(Debug, Clone)]
pub enum Message {
    Propose { id: ProposalId, value: Vec<u8> },
    Vote { id: ProposalId, vote: Vote },
    Commit { value: Vec<u8> },
    Gossip { data: Vec<u8> },
    Heartbeat,
}

/// Which consensus algorithm a node runs.
#[derive(Debug, Clone, Copy, PartialEq, Eq, Structural)]
pub enum ConsensusAlgorithm {
    Raft,
    PBFT,
    Tendermint,
}

/// Consensus engine configuration.
#[derive(Debug, Clone)]
pub struct ConsensusConfig {
    pub algorithm: ConsensusAlgorithm,
    pub timeout_ms: u64,
    pub max_faulty: u32,
}

/// How peers are discovered.
#[derive(Debug, Clone)]
pub enum DiscoveryMethod {
    MDNS,
    Static(Vec<String>),
}

/// Transport configuration.
#[derive(Debug, Clone)]
pub struct NetworkConfig {
    pub port: u16,
    pub discovery: DiscoveryMethod,
}

/// Consistency mode under which the state store serves reads and writes.
/// A quorum write carries its threshold as a fraction of the replica set.
#[derive(Debug, Clone, Copy, PartialEq, Eq, Structural)]
pub enum ConsistencyLevel {
    Strong,
    Eventual,
    Causal,
    Quorum { numerator: u64, denominator: u64 },
}

/// Replicated-state configuration.
#[derive(Debug, Clone)]
pub struct StateConfig {
    pub replication_factor: u32,
    pub consistency_level: ConsistencyLevel,
}

/// Configuration of a whole node runtime.
#[derive(Debug, Clone)]
pub struct RuntimeConfig {
    pub consensus: ConsensusConfig,
    pub network: NetworkConfig,
    pub state: StateConfig,
}

/// The default single-node configuration: Raft over mDNS discovery with
/// strong consistency and a replication factor of three.
pub fn create_mvp_config(port: u16) -> (r: RuntimeConfig)
    ensures
        r.consensus.algorithm == ConsensusAlgorithm::Raft,
        r.consensus.timeout_ms == 2000,
        r.consensus.max_faulty == 1,
        r.network.port == port,
        r.network.discovery is MDNS,
        r.state.replication_factor == 3,
        r.state.consistency_level == ConsistencyLevel::Strong,
{
    RuntimeConfig {
        consensus: ConsensusConfig {
            algorithm: ConsensusAlgorithm::Raft,
            timeout_ms: 2000,
            max_faulty: 1,
        },
        network: NetworkConfig { port, discovery: DiscoveryMethod::MDNS },
        state: StateConfig { replication_factor: 3, consistency_level: ConsistencyLevel::Strong },
    }
}

} // verus!
