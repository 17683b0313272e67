//! The consensus engine family: a tagged variant over the three algorithms,
//! each exposing the same propose / vote / commit-callback contract.

use vstd::prelude::*;
use vstd::string::StringExecFns;
use crate::raft::{LogEntry, NodeState};
use crate::{ConsensusAlgorithm, ConsensusConfig, ConsensusError, ProposalId, Vote};

verus! {

/// Relies on uuid::Uuid::new_v4 and its Display impl: a fresh random
/// identifier rendered as 36 hyphenated lowercase hex characters. Nothing
/// beyond the length is assumed of the value.
#[verifier::external_body]
fn uuid_string() -> (r: String)
    ensures
        r@.len() == 36,
{
    uuid::Uuid::new_v4().to_string()
}

/// A freshly minted proposal identifier: the engine's tag followed by 36
/// characters of a random identifier.
pub open spec fn fresh_id(id: Seq<char>, tag: Seq<char>) -> bool {
    exists|u: Seq<char>| u.len() == 36 && id == tag + u
}

/// Mint a proposal identifier carrying the given engine tag.
fn mint_id(tag: &str) -> (r: ProposalId)
    ensures
        fresh_id(r.0@, tag@),
{
    let u = uuid_string();
    let mut s = tag.to_owned();
    s.append(u.as_str());
    proof {
        assert(u@.len() == 36 && s@ == tag@ + u@);
    }
    ProposalId(s)
}

/// The replicated-log engine: the log and election state this node holds
/// when driving consensus by leader-based replication.
pub struct RaftConsensus {
    pub config: ConsensusConfig,
    pub term: u64,
    pub voted_for: Option<String>,
    pub log: Vec<LogEntry>,
    pub role: NodeState,
}

impl RaftConsensus {
    pub fn new(config: ConsensusConfig) -> (r: RaftConsensus)
        ensures
            r.term == 0,
            r.voted_for is None,
            r.log@.len() == 0,
            r.role == NodeState::Follower,
            r.config == config,
    {
        RaftConsensus { config, term: 0, voted_for: None, log: Vec::new(), role: NodeState::Follower }
    }

    /// Submit a value: only a leader appends it to its log; any other role
    /// refuses with `NotLeader` and leaves the engine unchanged.
    pub fn propose(&mut self, value: Vec<u8>) -> (r: Result<ProposalId, ConsensusError>)
        requires
            old(self).log@.len() < u64::MAX,
        ensures
            old(self).role == NodeState::Leader <==> r is Ok,
            r is Err ==> (r matches Result::Err(e) && e == ConsensusError::NotLeader) && final(self).log@ == old(self).log@,
            r is Ok ==> final(self).log@ == old(self).log@.push(
                (LogEntry {
                    term: old(self).term,
                    index: (old(self).log@.len() + 1) as u64,
                    value,
                }),
            ) && (r matches Result::Ok(id) && fresh_id(id.0@, "raft_"@)),
            final(self).term == old(self).term,
            final(self).role == old(self).role,
            final(self).voted_for == old(self).voted_for,
            final(self).config == old(self).config,
    {
        if !matches!(self.role, NodeState::Leader) {
            return Err(ConsensusError::NotLeader);
        }
        let index = self.log.len() as u64 + 1;
        let entry = LogEntry { term: self.term, index, value };
        self.log.push(entry);
        Ok(mint_id("raft_"))
    }

    /// External voting is a no-op here: this engine's votes travel inside
    /// its own protocol messages.
    pub fn vote(&self, _proposal_id: ProposalId, _vote: Vote) -> (r: Result<(), ConsensusError>)
        ensures
            r is Ok,
    {
        Ok(())
    }

    /// Acknowledge one committed value.
    pub fn on_commit(&self, _value: Vec<u8>) -> (r: Result<(), ConsensusError>)
        ensures
            r is Ok,
    {
        Ok(())
    }
}

/// Phase of the three-phase Byzantine agreement protocol.
#[derive(Debug, Clone, Copy, PartialEq, Eq, Structural)]
pub enum PBFTPhase {
    PrePrepare,
    Prepare,
    Commit,
}

/// Votes gathered for one proposal in the Byzantine engine.
pub struct ProposalState {
    pub value: Vec<u8>,
    pub prepares: Vec<Vote>,
    pub commits: Vec<Vote>,
}

/// The proposal table after a vote joined proposal `j`: that proposal's
/// prepare list (or, during the commit phase, its commit list) grew by the
/// vote, and nothing else changed.
pub open spec fn vote_recorded(
    before: Seq<(String, ProposalState)>,
    after: Seq<(String, ProposalState)>,
    j: int,
    vote: Vote,
    in_commits: bool,
) -> bool {
    &&& 0 <= j < before.len()
    &&& after.len() == before.len()
    &&& (forall|x: int| 0 <= x < before.len() && x != j ==> after[x] == before[x])
    &&& after[j].0 == before[j].0
    &&& after[j].1.value == before[j].1.value
    &&& (if in_commits {
        after[j].1.commits@ == before[j].1.commits@.push(vote) && after[j].1.prepares@
            == before[j].1.prepares@
    } else {
        after[j].1.prepares@ == before[j].1.prepares@.push(vote) && after[j].1.commits@
            == before[j].1.commits@
    })
}

/// The Byzantine engine: a view number, the current phase, and the
/// proposals with the votes gathered for each.
pub struct PBFTConsensus {
    pub config: ConsensusConfig,
    pub view: u64,
    pub phase: PBFTPhase,
    pub proposals: Vec<(String, ProposalState)>,
}

impl PBFTConsensus {
    pub fn new(config: ConsensusConfig) -> (r: PBFTConsensus)
        ensures
            r.view == 0,
            r.phase == PBFTPhase::PrePrepare,
            r.proposals@.len() == 0,
            r.config == config,
    {
        PBFTConsensus { config, view: 0, phase: PBFTPhase::PrePrepare, proposals: Vec::new() }
    }

    /// Register a value for agreement under a fresh proposal identifier.
    pub fn propose(&mut self, value: Vec<u8>) -> (r: Result<ProposalId, ConsensusError>)
        ensures
            r is Ok,
            r matches Result::Ok(id) ==> fresh_id(id.0@, "pbft_"@) && final(self).proposals@.len()
                == old(self).proposals@.len() + 1 && final(self).proposals@.last().0@ == id.0@
                && final(self).proposals@.last().1.value@ == value@ && final(self).proposals@.last().1.prepares@.len() == 0 && final(self).proposals@.last().1.commits@.len() == 0 && final(self).proposals@.take(
                old(self).proposals@.len() as int,
            ) == old(self).proposals@,
            final(self).view == old(self).view,
            final(self).phase == old(self).phase,
            final(self).config == old(self).config,
    {
        let id = mint_id("pbft_");
        let key = id.0.clone();
        self.proposals.push((key, ProposalState { value, prepares: Vec::new(), commits: Vec::new() }));
        proof {
            assert(final(self).proposals@.take(old(self).proposals@.len() as int) =~= old(
                self,
            ).proposals@);
        }
        Ok(id)
    }

    /// Record a vote on a known proposal: it joins the prepare votes during
    /// the prepare phase and the commit votes during the commit phase; a
    /// vote before the phases start changes nothing. A vote naming an
    /// unknown proposal is refused.
    pub fn vote(&mut self, proposal_id: ProposalId, vote: Vote) -> (r: Result<
        (),
        ConsensusError,
    >)
        ensures
            r is Err ==> (r matches Result::Err(e) && e == ConsensusError::UnknownProposal)
                && final(self).proposals@ == old(self).proposals@ && (forall|j: int|
                0 <= j < old(self).proposals@.len() ==> old(self).proposals@[j].0@
                    != proposal_id.0@),
            r is Ok ==> exists|j: int|
                0 <= j < old(self).proposals@.len() && old(self).proposals@[j].0@
                    == proposal_id.0@,
            r is Ok && old(self).phase == PBFTPhase::PrePrepare ==> final(self).proposals@ == old(
                self,
            ).proposals@,
            r is Ok && old(self).phase == PBFTPhase::Prepare ==> exists|j: int|
                old(self).proposals@[j].0@ == proposal_id.0@ && #[trigger] vote_recorded(
                    old(self).proposals@,
                    final(self).proposals@,
                    j,
                    vote,
                    false,
                ),
            r is Ok && old(self).phase == PBFTPhase::Commit ==> exists|j: int|
                old(self).proposals@[j].0@ == proposal_id.0@ && #[trigger] vote_recorded(
                    old(self).proposals@,
                    final(self).proposals@,
                    j,
                    vote,
                    true,
                ),
            final(self).view == old(self).view,
            final(self).phase == old(self).phase,
            final(self).config == old(self).config,
            final(self).proposals@.len() == old(self).proposals@.len(),
    {
        match crate::crdt::find_key(&self.proposals, &proposal_id.0) {
            None => Err(ConsensusError::UnknownProposal),
            Some(i) => {
                match self.phase {
                    PBFTPhase::Prepare => {
                        let slot = &mut self.proposals[i].1.prepares;
                        slot.push(vote);
                        proof {
                            assert(vote_recorded(
                                old(self).proposals@,
                                self.proposals@,
                                i as int,
                                vote,
                                false,
                            ));
                        }
                    },
                    PBFTPhase::Commit => {
                        let slot = &mut self.proposals[i].1.commits;
                        slot.push(vote);
                        proof {
                            assert(vote_recorded(
                                old(self).proposals@,
                                self.proposals@,
                                i as int,
                                vote,
                                true,
                            ));
                        }
                    },
                    PBFTPhase::PrePrepare => {},
                }
                Ok(())
            },
        }
    }

    /// Acknowledge one committed value.
    pub fn on_commit(&self, _value: Vec<u8>) -> (r: Result<(), ConsensusError>)
        ensures
            r is Ok,
    {
        Ok(())
    }
}

/// Step of the height/round/step agreement protocol.
#[derive(Debug, Clone, Copy, PartialEq, Eq, Structural)]
pub enum TendermintStep {
    Propose,
    Prevote,
    Precommit,
    Commit,
}

/// The height/round/step engine.
pub struct TendermintConsensus {
    pub config: ConsensusConfig,
    pub height: u64,
    pub round: u32,
    pub step: TendermintStep,
}

impl TendermintConsensus {
    pub fn new(config: ConsensusConfig) -> (r: TendermintConsensus)
        ensures
            r.height == 0,
            r.round == 0,
            r.step == TendermintStep::Propose,
            r.config == config,
    {
        TendermintConsensus { config, height: 0, round: 0, step: TendermintStep::Propose }
    }

    /// A value may be proposed only during the propose step of a round; in
    /// any other step the role forbids proposing.
    pub fn propose(&mut self, _value: Vec<u8>) -> (r: Result<ProposalId, ConsensusError>)
        ensures
            old(self).step == TendermintStep::Propose <==> r is Ok,
            r is Err ==> (r matches Result::Err(e) && e == ConsensusError::NotLeader),
            r matches Result::Ok(id) ==> fresh_id(id.0@, "tendermint_"@),
            *final(self) == *old(self),
    {
        if matches!(self.step, TendermintStep::Propose) {
            Ok(mint_id("tendermint_"))
        } else {
            Err(ConsensusError::NotLeader)
        }
    }

    /// External votes feed the prevote and precommit steps; this engine
    /// records nothing for them yet.
    pub fn vote(&self, _proposal_id: ProposalId, _vote: Vote) -> (r: Result<(), ConsensusError>)
        ensures
            r is Ok,
    {
        Ok(())
    }

    /// Acknowledge one committed value.
    pub fn on_commit(&self, _value: Vec<u8>) -> (r: Result<(), ConsensusError>)
        ensures
            r is Ok,
    {
        Ok(())
    }
}

/// A consensus engine of any of the three algorithms, behind the uniform
/// propose / vote / commit-callback contract.
pub enum Engine {
    Raft(RaftConsensus),
    PBFT(PBFTConsensus),
    Tendermint(TendermintConsensus),
}

/// Build the engine the configuration names, in its initial state.
pub fn create_engine(config: ConsensusConfig) -> (r: Engine)
    ensures
        config.algorithm == ConsensusAlgorithm::Raft ==> (r matches Engine::Raft(e) && e.term == 0
            && e.voted_for is None && e.log@.len() == 0 && e.role == NodeState::Follower
            && e.config == config),
        config.algorithm == ConsensusAlgorithm::PBFT ==> (r matches Engine::PBFT(e) && e.view == 0
            && e.phase == PBFTPhase::PrePrepare && e.proposals@.len() == 0 && e.config == config),
        config.algorithm == ConsensusAlgorithm::Tendermint ==> (r matches Engine::Tendermint(e)
            && e.height == 0 && e.round == 0 && e.step == TendermintStep::Propose && e.config
            == config),
{
    match config.algorithm {
        ConsensusAlgorithm::Raft => Engine::Raft(RaftConsensus::new(config)),
        ConsensusAlgorithm::PBFT => Engine::PBFT(PBFTConsensus::new(config)),
        ConsensusAlgorithm::Tendermint => Engine::Tendermint(TendermintConsensus::new(config)),
    }
}

impl Engine {
    /// Submit a value to whichever engine this is, with that engine's own
    /// effect: the leader's appended entry, the registered proposal, or the
    /// step-gated identifier.
    pub fn propose(&mut self, value: Vec<u8>) -> (r: Result<ProposalId, ConsensusError>)
        requires
            (*old(self)) matches Engine::Raft(e) ==> e.log@.len() < u64::MAX,
        ensures
            match (*old(self), *final(self)) {
                (Engine::Raft(e1), Engine::Raft(e2)) => {
                    &&& (e1.role == NodeState::Leader <==> r is Ok)
                    &&& (r is Err ==> (r matches Result::Err(err) && err
                        == ConsensusError::NotLeader) && e2.log@ == e1.log@)
                    &&& (r is Ok ==> e2.log@ == e1.log@.push(
                        (LogEntry {
                            term: e1.term,
                            index: (e1.log@.len() + 1) as u64,
                            value,
                        }),
                    ) && (r matches Result::Ok(id) && fresh_id(id.0@, "raft_"@)))
                    &&& e2.term == e1.term
                    &&& e2.role == e1.role
                    &&& e2.voted_for == e1.voted_for
                    &&& e2.config == e1.config
                },
                (Engine::PBFT(e1), Engine::PBFT(e2)) => {
                    &&& r is Ok
                    &&& (r matches Result::Ok(id) ==> fresh_id(id.0@, "pbft_"@)
                        && e2.proposals@.len() == e1.proposals@.len() + 1
                        && e2.proposals@.last().0@ == id.0@ && e2.proposals@.last().1.value@
                        == value@ && e2.proposals@.last().1.prepares@.len() == 0
                        && e2.proposals@.last().1.commits@.len() == 0 && e2.proposals@.take(
                        e1.proposals@.len() as int,
                    ) == e1.proposals@)
                    &&& e2.view == e1.view
                    &&& e2.phase == e1.phase
                    &&& e2.config == e1.config
                },
                (Engine::Tendermint(e1), Engine::Tendermint(e2)) => {
                    &&& (e1.step == TendermintStep::Propose <==> r is Ok)
                    &&& (r is Err ==> (r matches Result::Err(err) && err
                        == ConsensusError::NotLeader))
                    &&& (r matches Result::Ok(id) ==> fresh_id(id.0@, "tendermint_"@))
                    &&& e2 == e1
                },
                _ => false,
            },
    {
        match self {
            Engine::Raft(e) => e.propose(value),
            Engine::PBFT(e) => e.propose(value),
            Engine::Tendermint(e) => e.propose(value),
        }
    }

    /// Hand a vote to whichever engine this is; the Byzantine engine
    /// records it in the current phase's votes for the named proposal.
    pub fn vote(&mut self, proposal_id: ProposalId, vote: Vote) -> (r: Result<(), ConsensusError>)
        ensures
            match (*old(self), *final(self)) {
                (Engine::PBFT(e1), Engine::PBFT(e2)) => {
                    &&& (r is Err <==> (forall|j: int|
                        0 <= j < e1.proposals@.len() ==> e1.proposals@[j].0@ != proposal_id.0@))
                    &&& (r is Err ==> e2.proposals@ == e1.proposals@)
                    &&& (r is Ok && e1.phase == PBFTPhase::PrePrepare ==> e2.proposals@
                        == e1.proposals@)
                    &&& (r is Ok && e1.phase == PBFTPhase::Prepare ==> exists|j: int|
                        e1.proposals@[j].0@ == proposal_id.0@ && #[trigger] vote_recorded(
                            e1.proposals@,
                            e2.proposals@,
                            j,
                            vote,
                            false,
                        ))
                    &&& (r is Ok && e1.phase == PBFTPhase::Commit ==> exists|j: int|
                        e1.proposals@[j].0@ == proposal_id.0@ && #[trigger] vote_recorded(
                            e1.proposals@,
                            e2.proposals@,
                            j,
                            vote,
                            true,
                        ))
                    &&& e2.view == e1.view
                    &&& e2.phase == e1.phase
                    &&& e2.config == e1.config
                },
                (Engine::Raft(e1), Engine::Raft(e2)) => r is Ok && e2 == e1,
                (Engine::Tendermint(e1), Engine::Tendermint(e2)) => r is Ok && e2 == e1,
                _ => false,
            },
    {
        match self {
            Engine::Raft(e) => e.vote(proposal_id, vote),
            Engine::PBFT(e) => e.vote(proposal_id, vote),
            Engine::Tendermint(e) => e.vote(proposal_id, vote),
        }
    }

    /// Deliver one committed value to whichever engine this is.
    pub fn on_commit(&self, value: Vec<u8>) -> (r: Result<(), ConsensusError>)
        ensures
            r is Ok,
    {
        match self {
            Engine::Raft(e) => e.on_commit(value),
            Engine::PBFT(e) => e.on_commit(value),
            Engine::Tendermint(e) => e.on_commit(value),
        }
    }
}

} // verus!
