use omnix::consensus::{
    create_engine, Engine, PBFTConsensus, PBFTPhase, RaftConsensus, TendermintConsensus,
    TendermintStep,
};
use omnix::raft::NodeState;
use omnix::{
    create_mvp_config, ConsensusAlgorithm, ConsensusConfig, ConsensusError, ProposalId, Vote,
};

fn config(algorithm: ConsensusAlgorithm) -> ConsensusConfig {
    ConsensusConfig { algorithm, timeout_ms: 2000, max_faulty: 1 }
}

#[test]
fn test_create_engine_picks_the_configured_algorithm() {
    assert!(matches!(create_engine(config(ConsensusAlgorithm::Raft)), Engine::Raft(_)));
    assert!(matches!(create_engine(config(ConsensusAlgorithm::PBFT)), Engine::PBFT(_)));
    assert!(matches!(
        create_engine(config(ConsensusAlgorithm::Tendermint)),
        Engine::Tendermint(_)
    ));
}

#[test]
fn test_raft_engine_propose_requires_leadership() {
    let mut e = RaftConsensus::new(config(ConsensusAlgorithm::Raft));
    assert_eq!(e.propose(vec![1]).unwrap_err(), ConsensusError::NotLeader);
    assert!(e.log.is_empty());

    e.role = NodeState::Leader;
    let id = e.propose(vec![1, 2]).unwrap();
    assert_eq!(e.log.len(), 1);
    assert_eq!(e.log[0].value, vec![1, 2]);
    assert_eq!(e.log[0].index, 1);
    // the identifier is the engine tag plus 36 characters of fresh identity
    assert!(id.0.starts_with("raft_"));
    assert_eq!(id.0.len(), "raft_".len() + 36);

    // two proposals never share an identifier
    let id2 = e.propose(vec![3]).unwrap();
    assert_ne!(id.0, id2.0);
}

#[test]
fn test_raft_engine_vote_is_internal() {
    let e = RaftConsensus::new(config(ConsensusAlgorithm::Raft));
    assert!(e.vote(ProposalId("raft_x".to_string()), Vote::Accept).is_ok());
    assert!(e.on_commit(vec![1]).is_ok());
}

#[test]
fn test_pbft_propose_registers_proposal() {
    let mut e = PBFTConsensus::new(config(ConsensusAlgorithm::PBFT));
    let id = e.propose(vec![9, 9]).unwrap();
    assert!(id.0.starts_with("pbft_"));
    assert_eq!(e.proposals.len(), 1);
    assert_eq!(e.proposals[0].0, id.0);
    assert_eq!(e.proposals[0].1.value, vec![9, 9]);
}

#[test]
fn test_pbft_vote_unknown_proposal_refused() {
    let mut e = PBFTConsensus::new(config(ConsensusAlgorithm::PBFT));
    let r = e.vote(ProposalId("pbft_missing".to_string()), Vote::Accept);
    assert_eq!(r.unwrap_err(), ConsensusError::UnknownProposal);
}

#[test]
fn test_pbft_vote_lands_in_the_current_phase() {
    let mut e = PBFTConsensus::new(config(ConsensusAlgorithm::PBFT));
    let id = e.propose(vec![1]).unwrap();

    // before the prepare phase a vote changes nothing
    assert!(e.vote(id.clone(), Vote::Accept).is_ok());
    assert!(e.proposals[0].1.prepares.is_empty());
    assert!(e.proposals[0].1.commits.is_empty());

    e.phase = PBFTPhase::Prepare;
    assert!(e.vote(id.clone(), Vote::Accept).is_ok());
    assert_eq!(e.proposals[0].1.prepares.len(), 1);

    e.phase = PBFTPhase::Commit;
    assert!(e.vote(id, Vote::Reject).is_ok());
    assert_eq!(e.proposals[0].1.commits.len(), 1);
}

#[test]
fn test_tendermint_propose_only_in_propose_step() {
    let mut e = TendermintConsensus::new(config(ConsensusAlgorithm::Tendermint));
    let id = e.propose(vec![1]).unwrap();
    assert!(id.0.starts_with("tendermint_"));

    e.step = TendermintStep::Prevote;
    assert_eq!(e.propose(vec![1]).unwrap_err(), ConsensusError::NotLeader);
}

#[test]
fn test_mvp_config_values() {
    let c = create_mvp_config(8080);
    assert!(matches!(c.consensus.algorithm, ConsensusAlgorithm::Raft));
    assert_eq!(c.consensus.timeout_ms, 2000);
    assert_eq!(c.consensus.max_faulty, 1);
    assert_eq!(c.network.port, 8080);
    assert_eq!(c.state.replication_factor, 3);
}

#[test]
fn test_engine_dispatch() {
    let mut e = create_engine(config(ConsensusAlgorithm::PBFT));
    assert!(e.propose(vec![5]).is_ok());
    let mut t = create_engine(config(ConsensusAlgorithm::Tendermint));
    assert!(t.propose(vec![5]).is_ok());
    let mut r = create_engine(config(ConsensusAlgorithm::Raft));
    assert!(r.propose(vec![5]).is_err());
    assert!(r.on_commit(vec![5]).is_ok());
}
