//! The replicated-log consensus state machine: leader election, log
//! replication and the commit rule.
//!
//! Every decision of the protocol is a pure function of the node's state and
//! the incoming message; the surrounding runtime only moves messages and
//! fires timers. The contracts state how each step changes the node: the
//! term never decreases, the commit index and applied index never decrease,
//! and a vote, once cast in a term, is never recast for another candidate.

use vstd::prelude::*;

verus! {

/// Role a node currently plays.
#[derive(Debug, Clone, Copy, PartialEq, Eq, Structural)]
pub enum NodeState {
    Follower,
    Candidate,
    Leader,
}

/// One replicated log entry: the term it was appended in, its 1-based index
/// and the opaque payload.
#[derive(Debug, Clone)]
pub struct LogEntry {
    pub term: u64,
    pub index: u64,
    pub value: Vec<u8>,
}

/// A protocol message: the sender's term, the sender, and the body.
#[derive(Debug, Clone)]
pub struct RaftMessage {
    pub term: u64,
    pub from: String,
    pub message_type: RaftMessageType,
}

/// The bodies of the protocol messages.
#[derive(Debug, Clone)]
pub enum RaftMessageType {
    RequestVote { candidate_id: String, last_log_index: u64, last_log_term: u64 },
    RequestVoteResponse { vote_granted: bool },
    AppendEntries {
        leader_id: String,
        prev_log_index: u64,
        prev_log_term: u64,
        entries: Vec<LogEntry>,
        leader_commit: u64,
    },
    AppendEntriesResponse { success: bool, match_index: u64 },
    Heartbeat,
}

/// Entries carry their 1-based position: the entry at sequence position `i`
/// has index `i + 1`.
pub open spec fn log_wf(log: Seq<LogEntry>) -> bool {
    forall|i: int| 0 <= i < log.len() ==> log[i].index == i + 1
}

/// Term of the last entry, or zero for an empty log.
pub open spec fn last_term(log: Seq<LogEntry>) -> u64 {
    if log.len() == 0 {
        0
    } else {
        log.last().term
    }
}

/// The candidate's log is at least as up-to-date as `log`: a strictly later
/// last term wins, an equal last term falls back to length.
pub open spec fn up_to_date(log: Seq<LogEntry>, last_log_index: u64, last_log_term: u64) -> bool {
    last_log_term > last_term(log) || (last_log_term == last_term(log) && last_log_index
        >= log.len())
}

/// The follower's log is consistent with the leader's claimed predecessor:
/// either there is none, or the follower holds it with the same term.
pub open spec fn log_consistent(log: Seq<LogEntry>, prev_log_index: u64, prev_log_term: u64) -> bool {
    prev_log_index == 0 || (prev_log_index <= log.len() && log[prev_log_index - 1].term
        == prev_log_term)
}

/// One step of accepting a replicated entry at 1-based position `pos`: a
/// conflicting entry (same index, different term) discards it and the whole
/// suffix after it; a matching entry is kept; a missing one is appended.
pub open spec fn accept_step(log: Seq<LogEntry>, pos: int, e: LogEntry) -> Seq<LogEntry> {
    if 1 <= pos <= log.len() {
        if log[pos - 1].term != e.term {
            log.take(pos - 1).push(e)
        } else {
            log
        }
    } else if pos == log.len() + 1 {
        log.push(e)
    } else {
        log
    }
}

/// The log after accepting `entries`, whose first entry sits at 1-based
/// position `prev + 1`.
pub open spec fn accept_entries(log: Seq<LogEntry>, prev: int, entries: Seq<LogEntry>) -> Seq<
    LogEntry,
>
    decreases entries.len(),
{
    if entries.len() == 0 {
        log
    } else {
        accept_step(
            accept_entries(log, prev, entries.drop_last()),
            prev + entries.len(),
            entries.last(),
        )
    }
}

/// Whether a recorded vote names the candidate `c`.
pub open spec fn voted_is(v: Option<String>, c: Seq<char>) -> bool {
    match v {
        Option::None => false,
        Option::Some(s) => s@ == c,
    }
}

/// A node of the replicated-log consensus protocol. All protocol state is
/// plain data; the runtime around it owns timers and the transport.
pub struct RaftNode {
    pub node_id: String,
    pub state: NodeState,
    pub current_term: u64,
    pub voted_for: Option<String>,
    pub log: Vec<LogEntry>,
    pub commit_index: u64,
    pub last_applied: u64,
    /// Per peer, the index of the next entry to send once leader.
    pub next_index: Vec<(String, u64)>,
    /// Per peer, the highest index known replicated on it.
    pub match_index: Vec<(String, u64)>,
    pub peers: Vec<String>,
    /// Votes gathered in the current candidacy, this node's own included.
    pub votes_received: u64,
    /// Election timeout in milliseconds, drawn from [150, 300).
    pub election_timeout_ms: u64,
    /// Heartbeat interval in milliseconds.
    pub heartbeat_interval_ms: u64,
}

/// Relies on rand::random: a uniformly random machine word. Nothing is
/// assumed of the value.
#[verifier::external_body]
fn random_u64() -> u64 {
    rand::random::<u64>()
}

impl RaftNode {
    /// The protocol's structural invariant.
    pub open spec fn wf(self) -> bool {
        &&& log_wf(self.log@)
        &&& self.last_applied <= self.commit_index
    }

    /// A fresh node: a follower at term zero with an empty log and a
    /// randomized election timeout.
    pub fn new(node_id: String) -> (r: RaftNode)
        ensures
            r.wf(),
            r.node_id@ == node_id@,
            r.state == NodeState::Follower,
            r.current_term == 0,
            r.voted_for is None,
            r.log@.len() == 0,
            r.commit_index == 0,
            r.last_applied == 0,
            r.peers@.len() == 0,
            r.next_index@.len() == 0,
            r.match_index@.len() == 0,
            r.votes_received == 0,
            150 <= r.election_timeout_ms < 300,
            r.heartbeat_interval_ms == 50,
    {
        let jitter = random_u64() % 150;
        RaftNode {
            node_id,
            state: NodeState::Follower,
            current_term: 0,
            voted_for: None,
            log: Vec::new(),
            commit_index: 0,
            last_applied: 0,
            next_index: Vec::new(),
            match_index: Vec::new(),
            peers: Vec::new(),
            votes_received: 0,
            election_timeout_ms: 150 + jitter,
            heartbeat_interval_ms: 50,
        }
    }

    /// Make a peer known to this node.
    pub fn add_peer(&mut self, peer_id: String)
        requires
            old(self).wf(),
        ensures
            final(self).wf(),
            final(self).peers@ == old(self).peers@.push(peer_id),
            final(self).log@ == old(self).log@,
            final(self).current_term == old(self).current_term,
            final(self).state == old(self).state,
            final(self).commit_index == old(self).commit_index,
            final(self).last_applied == old(self).last_applied,
            final(self).voted_for == old(self).voted_for,
            final(self).next_index@ == old(self).next_index@,
            final(self).match_index@ == old(self).match_index@,
            final(self).votes_received == old(self).votes_received,
            final(self).node_id == old(self).node_id,
            final(self).election_timeout_ms == old(self).election_timeout_ms,
            final(self).heartbeat_interval_ms == old(self).heartbeat_interval_ms,
    {
        self.peers.push(peer_id);
    }

    /// Whether a candidate's log, summarized by its last index and term, is
    /// at least as up-to-date as this node's.
    pub fn is_log_up_to_date(&self, last_log_index: u64, last_log_term: u64) -> (r: bool)
        ensures
            r == up_to_date(self.log@, last_log_index, last_log_term),
    {
        let our_last_index = self.log.len() as u64;
        let our_last_term = if self.log.len() == 0 {
            0
        } else {
            self.log[self.log.len() - 1].term
        };
        last_log_term > our_last_term || (last_log_term == our_last_term && last_log_index
            >= our_last_index)
    }

    /// Whether this node's log holds the leader's claimed predecessor entry.
    pub fn check_log_consistency(&self, prev_log_index: u64, prev_log_term: u64) -> (r: bool)
        ensures
            r == log_consistent(self.log@, prev_log_index, prev_log_term),
    {
        if prev_log_index == 0 {
            return true;
        }
        if prev_log_index > self.log.len() as u64 {
            return false;
        }
        let i = (prev_log_index - 1) as usize;
        self.log[i].term == prev_log_term
    }

    /// Append one entry to the leader's own log, returning its index.
    pub fn append_log_entry(&mut self, value: Vec<u8>) -> (r: u64)
        requires
            old(self).wf(),
            old(self).log@.len() < u64::MAX,
        ensures
            final(self).wf(),
            r == old(self).log@.len() + 1,
            final(self).log@ == old(self).log@.push(
                (LogEntry { term: old(self).current_term, index: r, value }),
            ),
            final(self).current_term == old(self).current_term,
            final(self).state == old(self).state,
            final(self).commit_index == old(self).commit_index,
            final(self).last_applied == old(self).last_applied,
            final(self).voted_for == old(self).voted_for,
            final(self).peers@ == old(self).peers@,
            final(self).node_id == old(self).node_id,
    {
        let index = self.log.len() as u64 + 1;
        let entry = LogEntry { term: self.current_term, index, value };
        self.log.push(entry);
        index
    }

    /// Submit a value for replication. Only a leader appends; any other
    /// role refuses with `NotLeader`, and the node is unchanged.
    pub fn propose(&mut self, value: Vec<u8>) -> (r: Result<u64, crate::ConsensusError>)
        requires
            old(self).wf(),
            old(self).log@.len() < u64::MAX,
        ensures
            final(self).wf(),
            old(self).state == NodeState::Leader <==> r is Ok,
            r is Err ==> r == Result::<u64, crate::ConsensusError>::Err(
                crate::ConsensusError::NotLeader,
            ) && *final(self) == *old(self),
            r is Ok ==> r == Result::<u64, crate::ConsensusError>::Ok(
                (old(self).log@.len() + 1) as u64,
            ) && final(self).log@ == old(self).log@.push(
                (LogEntry {
                    term: old(self).current_term,
                    index: (old(self).log@.len() + 1) as u64,
                    value,
                }),
            ),
            final(self).current_term == old(self).current_term,
            final(self).state == old(self).state,
            final(self).commit_index == old(self).commit_index,
            final(self).last_applied == old(self).last_applied,
            final(self).voted_for == old(self).voted_for,
            final(self).node_id == old(self).node_id,
            final(self).peers@ == old(self).peers@,
    {
        if !matches!(self.state, NodeState::Leader) {
            return Err(crate::ConsensusError::NotLeader);
        }
        let index = self.append_log_entry(value);
        Ok(index)
    }

    /// Decide a vote request. The vote is granted exactly when the request's
    /// term is current, this node has not yet voted for anyone else in it,
    /// and the candidate's log is at least as up-to-date as ours; a granted
    /// vote is recorded so it cannot be recast in this term.
    pub fn handle_request_vote(
        &mut self,
        term: u64,
        candidate_id: String,
        last_log_index: u64,
        last_log_term: u64,
    ) -> (granted: bool)
        requires
            old(self).wf(),
        ensures
            final(self).wf(),
            granted == (term >= old(self).current_term && (old(self).voted_for is None
                || voted_is(old(self).voted_for, candidate_id@)) && up_to_date(
                old(self).log@,
                last_log_index,
                last_log_term,
            )),
            granted ==> voted_is(final(self).voted_for, candidate_id@),
            !granted ==> final(self).voted_for == old(self).voted_for,
            final(self).current_term == old(self).current_term,
            final(self).state == old(self).state,
            final(self).log@ == old(self).log@,
            final(self).commit_index == old(self).commit_index,
            final(self).last_applied == old(self).last_applied,
            final(self).peers@ == old(self).peers@,
            final(self).node_id == old(self).node_id,
    {
        let not_yet_voted = match &self.voted_for {
            None => true,
            Some(v) => *v == candidate_id,
        };
        let granted = term >= self.current_term && not_yet_voted && self.is_log_up_to_date(
            last_log_index,
            last_log_term,
        );
        if granted {
            self.voted_for = Some(candidate_id);
        }
        granted
    }

    /// Accept or refuse a replication request. Acceptance requires a current
    /// term and a matching predecessor entry; on acceptance, conflicting
    /// entries and everything after them are discarded, the new entries are
    /// appended, and the commit index advances to the leader's commit,
    /// capped by the log length and never moving backwards.
    pub fn handle_append_entries(
        &mut self,
        term: u64,
        leader_id: String,
        prev_log_index: u64,
        prev_log_term: u64,
        entries: Vec<LogEntry>,
        leader_commit: u64,
    ) -> (success: bool)
        requires
            old(self).wf(),
            prev_log_index + entries@.len() <= u64::MAX,
            forall|k: int|
                0 <= k < entries@.len() ==> entries@[k].index == prev_log_index + 1 + k,
        ensures
            final(self).wf(),
            success == (term >= old(self).current_term && log_consistent(
                old(self).log@,
                prev_log_index,
                prev_log_term,
            )),
            term >= old(self).current_term ==> final(self).state == NodeState::Follower,
            term < old(self).current_term ==> final(self).state == old(self).state,
            success ==> final(self).log@ == accept_entries(
                old(self).log@,
                prev_log_index as int,
                entries@,
            ),
            !success ==> final(self).log@ == old(self).log@,
            success ==> final(self).commit_index == (if min64(
                leader_commit,
                final(self).log@.len() as u64,
            ) > old(self).commit_index {
                min64(leader_commit, final(self).log@.len() as u64)
            } else {
                old(self).commit_index
            }),
            !success ==> final(self).commit_index == old(self).commit_index,
            final(self).commit_index >= old(self).commit_index,
            final(self).current_term == old(self).current_term,
            final(self).voted_for == old(self).voted_for,
            final(self).last_applied == old(self).last_applied,
            final(self).peers@ == old(self).peers@,
            final(self).node_id == old(self).node_id,
            final(self).next_index@ == old(self).next_index@,
            final(self).match_index@ == old(self).match_index@,
            final(self).votes_received == old(self).votes_received,
            final(self).election_timeout_ms == old(self).election_timeout_ms,
            final(self).heartbeat_interval_ms == old(self).heartbeat_interval_ms,
    {
        let ghost orig = self.log@;
        let ghost all = entries@;
        if term >= self.current_term {
            self.state = NodeState::Follower;
        }
        let consistent = self.check_log_consistency(prev_log_index, prev_log_term);
        let success = term >= self.current_term && consistent;
        if success {
            let total = entries.len();
            let mut rest = entries;
            let mut k: usize = 0;
            proof {
                assert(all.take(0) =~= Seq::<LogEntry>::empty());
                assert(rest@ =~= all.skip(0));
            }
            while rest.len() > 0
                invariant
                    self.state == NodeState::Follower,
                    self.current_term == old(self).current_term,
                    self.commit_index == old(self).commit_index,
                    self.last_applied == old(self).last_applied,
                    self.voted_for == old(self).voted_for,
                    self.peers@ == old(self).peers@,
                    self.node_id == old(self).node_id,
                    self.next_index@ == old(self).next_index@,
                    self.match_index@ == old(self).match_index@,
                    self.votes_received == old(self).votes_received,
                    self.election_timeout_ms == old(self).election_timeout_ms,
                    self.heartbeat_interval_ms == old(self).heartbeat_interval_ms,
                    total == all.len(),
                    prev_log_index + all.len() <= u64::MAX,
                    forall|j: int| 0 <= j < all.len() ==> all[j].index == prev_log_index + 1 + j,
                    k <= all.len(),
                    rest@ == all.skip(k as int),
                    log_wf(self.log@),
                    self.log@ == accept_entries(orig, prev_log_index as int, all.take(k as int)),
                    self.log@.len() >= prev_log_index + k,
                    self.log@.len() <= orig.len() + k,
                decreases rest@.len(),
            {
                let e = rest.remove(0);
                proof {
                    assert(all.skip(k as int)[0] == all[k as int]);
                    assert(rest@ =~= all.skip(k + 1));
                    assert(all.take(k + 1).drop_last() =~= all.take(k as int));
                    assert(all.take(k + 1).last() == all[k as int]);
                }
                let pos = prev_log_index + k as u64;
                let ghost cur = self.log@;
                if pos < self.log.len() as u64 {
                    let p = pos as usize;
                    if self.log[p].term != e.term {
                        self.log.truncate(p);
                        self.log.push(e);
                        proof {
                            assert(cur.subrange(0, pos as int) =~= cur.take(pos as int));
                            assert(self.log@ == accept_step(cur, pos as int + 1, all[k as int]));
                        }
                    } else {
                        proof {
                            assert(self.log@ == accept_step(cur, pos as int + 1, all[k as int]));
                        }
                    }
                } else {
                    self.log.push(e);
                    proof {
                        assert(self.log@ == accept_step(cur, pos as int + 1, all[k as int]));
                    }
                }
                k = k + 1;
            }
            proof {
                assert(all.take(all.len() as int) =~= all);
                assert(all.skip(k as int).len() == 0);
                assert(k == all.len());
            }
            let len = self.log.len() as u64;
            let target = if leader_commit < len {
                leader_commit
            } else {
                len
            };
            if target > self.commit_index {
                self.commit_index = target;
            }
        }
        success
    }

    /// The number of nodes, this one included, that constitutes a strict
    /// majority of the cluster.
    pub fn majority(&self) -> (r: usize)
        requires
            self.peers@.len() < usize::MAX,
        ensures
            r == majority_of(self.peers@.len() + 1 as int),
    {
        (self.peers.len() + 1) / 2 + 1
    }

    /// The replication round a leader sends: to each tracked peer, the
    /// suffix of the log from that peer's next index on, preceded by the
    /// index and term of the entry just before it.
    pub fn replication_messages(&self) -> (msgs: Vec<RaftMessage>)
        requires
            self.wf(),
            self.log@.len() < u64::MAX,
        ensures
            msgs@.len() == self.next_index@.len(),
            forall|i: int|
                0 <= i < msgs@.len() ==> replication_to(
                    msgs@[i],
                    self.log@,
                    self.current_term,
                    self.node_id@,
                    self.commit_index,
                    self.next_index@[i].1,
                ),
    {
        let len = self.log.len() as u64;
        let n = self.next_index.len();
        let mut msgs: Vec<RaftMessage> = Vec::new();
        let mut i: usize = 0;
        while i < n
            invariant
                self.wf(),
                self.log@.len() < u64::MAX,
                len == self.log@.len(),
                n == self.next_index@.len(),
                i <= n,
                msgs@.len() == i,
                forall|j: int|
                    0 <= j < i ==> replication_to(
                        msgs@[j],
                        self.log@,
                        self.current_term,
                        self.node_id@,
                        self.commit_index,
                        self.next_index@[j].1,
                    ),
            decreases n - i,
        {
            let next = self.next_index[i].1;
            let clamped = if next < 1 {
                1
            } else if next > len + 1 {
                len + 1
            } else {
                next
            };
            let prev_log_index = clamped - 1;
            let prev_log_term = if prev_log_index == 0 {
                0
            } else {
                self.log[(prev_log_index - 1) as usize].term
            };
            let mut entries: Vec<LogEntry> = Vec::new();
            let cur_len = self.log.len();
            proof {
                assert(prev_log_index <= cur_len);
            }
            let mut p = prev_log_index as usize;
            while p < self.log.len()
                invariant
                    self.wf(),
                    len == self.log@.len(),
                    prev_log_index <= p <= self.log@.len(),
                    entries@.len() == p - prev_log_index,
                    entries_like(entries@, self.log@.subrange(prev_log_index as int, p as int)),
                decreases self.log@.len() - p,
            {
                let e = &self.log[p];
                entries.push(LogEntry { term: e.term, index: e.index, value: clone_bytes(&e.value) });
                p = p + 1;
            }
            let m = RaftMessage {
                term: self.current_term,
                from: self.node_id.clone(),
                message_type: RaftMessageType::AppendEntries {
                    leader_id: self.node_id.clone(),
                    prev_log_index,
                    prev_log_term,
                    entries,
                    leader_commit: self.commit_index,
                },
            };
            msgs.push(m);
            i = i + 1;
        }
        msgs
    }

    /// The heartbeat round a leader sends: one replication request per
    /// tracked peer, from that peer's next index on, so a caught-up peer
    /// gets the empty request that constitutes a heartbeat and a lagging
    /// one gets the retry it is owed.
    pub fn send_heartbeats(&self) -> (msgs: Vec<RaftMessage>)
        requires
            self.wf(),
            self.log@.len() < u64::MAX,
        ensures
            msgs@.len() == self.next_index@.len(),
            forall|i: int|
                0 <= i < msgs@.len() ==> replication_to(
                    msgs@[i],
                    self.log@,
                    self.current_term,
                    self.node_id@,
                    self.commit_index,
                    self.next_index@[i].1,
                ),
    {
        self.replication_messages()
    }

    /// Take leadership of the current term: arm the per-peer replication
    /// indices and emit the first heartbeat round.
    pub fn become_leader(&mut self) -> (msgs: Vec<RaftMessage>)
        requires
            old(self).wf(),
            old(self).log@.len() < u64::MAX,
        ensures
            final(self).wf(),
            final(self).state == NodeState::Leader,
            final(self).next_index@.len() == old(self).peers@.len(),
            forall|i: int|
                0 <= i < final(self).next_index@.len() ==> final(self).next_index@[i].0@ == old(self).peers@[i]@ && final(self).next_index@[i].1 == old(self).log@.len() + 1,
            final(self).match_index@.len() == old(self).peers@.len(),
            forall|i: int|
                0 <= i < final(self).match_index@.len() ==> final(self).match_index@[i].0@ == old(self).peers@[i]@ && final(self).match_index@[i].1 == 0,
            msgs@.len() == old(self).peers@.len(),
            forall|i: int|
                0 <= i < msgs@.len() ==> replication_to(
                    msgs@[i],
                    old(self).log@,
                    old(self).current_term,
                    old(self).node_id@,
                    old(self).commit_index,
                    (old(self).log@.len() + 1) as u64,
                ),
            final(self).current_term == old(self).current_term,
            final(self).log@ == old(self).log@,
            final(self).commit_index == old(self).commit_index,
            final(self).last_applied == old(self).last_applied,
            final(self).voted_for == old(self).voted_for,
            final(self).votes_received == old(self).votes_received,
            final(self).peers@ == old(self).peers@,
            final(self).node_id == old(self).node_id,
    {
        self.state = NodeState::Leader;
        let next = self.log.len() as u64 + 1;
        let n = self.peers.len();
        let mut next_index: Vec<(String, u64)> = Vec::new();
        let mut match_index: Vec<(String, u64)> = Vec::new();
        let mut i: usize = 0;
        while i < n
            invariant
                n == self.peers@.len(),
                i <= n,
                next == self.log@.len() + 1,
                next_index@.len() == i,
                match_index@.len() == i,
                forall|j: int|
                    0 <= j < i ==> next_index@[j].0@ == self.peers@[j]@ && next_index@[j].1 == next,
                forall|j: int|
                    0 <= j < i ==> match_index@[j].0@ == self.peers@[j]@ && match_index@[j].1 == 0,
            decreases n - i,
        {
            next_index.push((self.peers[i].clone(), next));
            match_index.push((self.peers[i].clone(), 0));
            i = i + 1;
        }
        self.next_index = next_index;
        self.match_index = match_index;
        self.send_heartbeats()
    }

    /// Stand for election: advance the term, vote for ourselves, and ask
    /// every peer for its vote. A node with no peers wins immediately.
    pub fn start_election(&mut self) -> (msgs: Vec<RaftMessage>)
        requires
            old(self).wf(),
            old(self).current_term < u64::MAX,
            old(self).log@.len() < u64::MAX,
            old(self).peers@.len() < usize::MAX,
        ensures
            final(self).wf(),
            final(self).current_term == old(self).current_term + 1,
            voted_is(final(self).voted_for, old(self).node_id@),
            final(self).votes_received == 1,
            old(self).peers@.len() == 0 ==> final(self).state == NodeState::Leader && msgs@.len()
                == 0,
            old(self).peers@.len() > 0 ==> final(self).state == NodeState::Candidate
                && msgs@.len() == old(self).peers@.len() && (forall|i: int|
                0 <= i < msgs@.len() ==> vote_request_to(
                    msgs@[i],
                    (old(self).current_term + 1) as u64,
                    old(self).node_id@,
                    old(self).log@.len() as u64,
                    last_term(old(self).log@),
                )),
            final(self).log@ == old(self).log@,
            final(self).commit_index == old(self).commit_index,
            final(self).last_applied == old(self).last_applied,
            final(self).peers@ == old(self).peers@,
            final(self).node_id == old(self).node_id,
    {
        self.state = NodeState::Candidate;
        self.current_term = self.current_term + 1;
        self.voted_for = Some(self.node_id.clone());
        self.votes_received = 1;

        let last_log_index = self.log.len() as u64;
        let last_log_term = if self.log.len() == 0 {
            0
        } else {
            self.log[self.log.len() - 1].term
        };

        let n = self.peers.len();
        let mut msgs: Vec<RaftMessage> = Vec::new();
        let mut i: usize = 0;
        while i < n
            invariant
                n == self.peers@.len(),
                i <= n,
                msgs@.len() == i,
                last_log_index == self.log@.len(),
                last_log_term == last_term(self.log@),
                self.current_term == old(self).current_term + 1,
                self.node_id == old(self).node_id,
                forall|j: int|
                    0 <= j < i ==> vote_request_to(
                        msgs@[j],
                        self.current_term,
                        self.node_id@,
                        last_log_index,
                        last_log_term,
                    ),
            decreases n - i,
        {
            let m = RaftMessage {
                term: self.current_term,
                from: self.node_id.clone(),
                message_type: RaftMessageType::RequestVote {
                    candidate_id: self.node_id.clone(),
                    last_log_index,
                    last_log_term,
                },
            };
            msgs.push(m);
            i = i + 1;
        }

        if self.peers.len() == 0 {
            let hb = self.become_leader();
            return hb;
        }
        msgs
    }

    /// Count a returned vote. A vote counts only while this node is still a
    /// candidate of the same term; reaching a strict majority of the
    /// cluster, own vote included, takes leadership and emits the first
    /// heartbeat round.
    pub fn handle_request_vote_response(&mut self, term: u64, vote_granted: bool) -> (msgs: Vec<
        RaftMessage,
    >)
        requires
            old(self).wf(),
            old(self).votes_received < u64::MAX,
            old(self).log@.len() < u64::MAX,
            old(self).peers@.len() < usize::MAX,
        ensures
            final(self).wf(),
            final(self).votes_received == old(self).votes_received + (if counts_vote(
                old(self).state,
                old(self).current_term,
                term,
                vote_granted,
            ) {
                1int
            } else {
                0int
            }),
            (counts_vote(old(self).state, old(self).current_term, term, vote_granted) && old(self).votes_received + 1 >= majority_of(old(self).peers@.len() + 1 as int)) ==> final(self).state == NodeState::Leader && msgs@.len() == old(self).peers@.len() && (forall|i: int|
                0 <= i < msgs@.len() ==> replication_to(
                    msgs@[i],
                    old(self).log@,
                    old(self).current_term,
                    old(self).node_id@,
                    old(self).commit_index,
                    (old(self).log@.len() + 1) as u64,
                )),
            !(counts_vote(old(self).state, old(self).current_term, term, vote_granted) && old(self).votes_received + 1 >= majority_of(old(self).peers@.len() + 1 as int)) ==> final(self).state == old(self).state && msgs@.len() == 0,
            final(self).current_term == old(self).current_term,
            final(self).log@ == old(self).log@,
            final(self).commit_index == old(self).commit_index,
            final(self).last_applied == old(self).last_applied,
            final(self).voted_for == old(self).voted_for,
            final(self).peers@ == old(self).peers@,
            final(self).node_id == old(self).node_id,
    {
        let is_candidate = matches!(self.state, NodeState::Candidate);
        if is_candidate && term == self.current_term && vote_granted {
            self.votes_received = self.votes_received + 1;
            if self.votes_received >= self.majority() as u64 {
                return self.become_leader();
            }
        }
        Vec::new()
    }

    /// Record a replication reply on the leader. Success raises the peer's
    /// match and next indices to what it acknowledged and re-evaluates the
    /// commit rule; failure backs the peer's next index off by one, to at
    /// least one, so the next heartbeat retries earlier in the log.
    pub fn handle_append_entries_response(
        &mut self,
        from: &String,
        term: u64,
        success: bool,
        match_index: u64,
    )
        requires
            old(self).wf(),
            match_index < u64::MAX,
            old(self).peers@.len() < usize::MAX,
            old(self).match_index@.len() < usize::MAX,
        ensures
            final(self).wf(),
            leader_counts_reply(old(self).state, old(self).current_term, term) && success ==> {
                &&& final(self).match_index@.len() == old(self).match_index@.len()
                &&& (forall|j: int|
                    0 <= j < final(self).match_index@.len() ==> final(self).match_index@[j]
                        == (if old(self).match_index@[j].0@ == from@ {
                        (old(self).match_index@[j].0, match_index)
                    } else {
                        old(self).match_index@[j]
                    }))
                &&& final(self).next_index@.len() == old(self).next_index@.len()
                &&& (forall|j: int|
                    0 <= j < final(self).next_index@.len() ==> final(self).next_index@[j] == (if old(self).next_index@[j].0@ == from@ {
                        (old(self).next_index@[j].0, (match_index + 1) as u64)
                    } else {
                        old(self).next_index@[j]
                    }))
            },
            leader_counts_reply(old(self).state, old(self).current_term, term) && !success ==> {
                &&& final(self).match_index@ == old(self).match_index@
                &&& final(self).next_index@.len() == old(self).next_index@.len()
                &&& (forall|j: int|
                    0 <= j < final(self).next_index@.len() ==> final(self).next_index@[j] == (if old(self).next_index@[j].0@ == from@ {
                        (old(self).next_index@[j].0, backed_off(old(self).next_index@[j].1))
                    } else {
                        old(self).next_index@[j]
                    }))
            },
            !leader_counts_reply(old(self).state, old(self).current_term, term) ==> final(self).match_index@ == old(self).match_index@ && final(self).next_index@ == old(self).next_index@,
            final(self).commit_index >= old(self).commit_index,
            leader_counts_reply(old(self).state, old(self).current_term, term) && success
                ==> commit_by_rule(
                old(self).log@,
                old(self).current_term,
                final(self).match_index@,
                old(self).peers@.len() + 1 as int,
                old(self).commit_index,
                final(self).commit_index,
            ),
            !(leader_counts_reply(old(self).state, old(self).current_term, term) && success)
                ==> final(self).commit_index == old(self).commit_index,
            final(self).current_term == old(self).current_term,
            final(self).state == old(self).state,
            final(self).log@ == old(self).log@,
            final(self).last_applied == old(self).last_applied,
            final(self).voted_for == old(self).voted_for,
            final(self).peers@ == old(self).peers@,
            final(self).node_id == old(self).node_id,
    {
        if !(matches!(self.state, NodeState::Leader) && term == self.current_term) {
            return ;
        }
        if success {
            let n = self.match_index.len();
            let mut j: usize = 0;
            while j < n
                invariant
                    n == self.match_index@.len(),
                    j <= n,
                    n == old(self).match_index@.len(),
                    forall|x: int|
                        0 <= x < j ==> self.match_index@[x] == (if old(self).match_index@[x].0@
                            == from@ {
                            (old(self).match_index@[x].0, match_index)
                        } else {
                            old(self).match_index@[x]
                        }),
                    forall|x: int| j <= x < n ==> self.match_index@[x] == old(self).match_index@[x],
                    self.next_index@ == old(self).next_index@,
                    self.state == old(self).state,
                    self.current_term == old(self).current_term,
                    self.log@ == old(self).log@,
                    self.commit_index == old(self).commit_index,
                    self.last_applied == old(self).last_applied,
                    self.voted_for == old(self).voted_for,
                    self.peers@ == old(self).peers@,
                    self.node_id == old(self).node_id,
                    self.wf(),
                decreases n - j,
            {
                if self.match_index[j].0 == *from {
                    let key = self.match_index[j].0.clone();
                    self.match_index[j] = (key, match_index);
                }
                j = j + 1;
            }
            let m = self.next_index.len();
            let mut k: usize = 0;
            while k < m
                invariant
                    m == self.next_index@.len(),
                    k <= m,
                    m == old(self).next_index@.len(),
                    forall|x: int|
                        0 <= x < k ==> self.next_index@[x] == (if old(self).next_index@[x].0@
                            == from@ {
                            (old(self).next_index@[x].0, (match_index + 1) as u64)
                        } else {
                            old(self).next_index@[x]
                        }),
                    forall|x: int| k <= x < m ==> self.next_index@[x] == old(self).next_index@[x],
                    match_index < u64::MAX,
                    forall|x: int|
                        0 <= x < self.match_index@.len() ==> self.match_index@[x] == (if old(
                            self,
                        ).match_index@[x].0@ == from@ {
                            (old(self).match_index@[x].0, match_index)
                        } else {
                            old(self).match_index@[x]
                        }),
                    self.match_index@.len() == old(self).match_index@.len(),
                    self.state == old(self).state,
                    self.current_term == old(self).current_term,
                    self.log@ == old(self).log@,
                    self.commit_index == old(self).commit_index,
                    self.last_applied == old(self).last_applied,
                    self.voted_for == old(self).voted_for,
                    self.peers@ == old(self).peers@,
                    self.node_id == old(self).node_id,
                    self.wf(),
                decreases m - k,
            {
                if self.next_index[k].0 == *from {
                    let key = self.next_index[k].0.clone();
                    self.next_index[k] = (key, match_index + 1);
                }
                k = k + 1;
            }
            self.advance_commit_index();
        } else {
            let m = self.next_index.len();
            let mut k: usize = 0;
            while k < m
                invariant
                    m == self.next_index@.len(),
                    k <= m,
                    m == old(self).next_index@.len(),
                    forall|x: int|
                        0 <= x < k ==> self.next_index@[x] == (if old(self).next_index@[x].0@
                            == from@ {
                            (old(self).next_index@[x].0, backed_off(old(self).next_index@[x].1))
                        } else {
                            old(self).next_index@[x]
                        }),
                    forall|x: int| k <= x < m ==> self.next_index@[x] == old(self).next_index@[x],
                    self.match_index@ == old(self).match_index@,
                    self.state == old(self).state,
                    self.current_term == old(self).current_term,
                    self.log@ == old(self).log@,
                    self.commit_index == old(self).commit_index,
                    self.last_applied == old(self).last_applied,
                    self.voted_for == old(self).voted_for,
                    self.peers@ == old(self).peers@,
                    self.node_id == old(self).node_id,
                    self.wf(),
                decreases m - k,
            {
                if self.next_index[k].0 == *from {
                    let key = self.next_index[k].0.clone();
                    let cur = self.next_index[k].1;
                    let nv = if cur > 1 {
                        cur - 1
                    } else {
                        1
                    };
                    self.next_index[k] = (key, nv);
                }
                k = k + 1;
            }
        }
    }

    /// Re-evaluate the leader's commit rule: the commit index advances to
    /// the greatest index that a strict majority of the cluster holds and
    /// whose entry is of the current term; entries of earlier terms commit
    /// only transitively through it.
    pub fn advance_commit_index(&mut self)
        requires
            old(self).wf(),
            old(self).peers@.len() < usize::MAX,
            old(self).match_index@.len() < usize::MAX,
        ensures
            final(self).wf(),
            final(self).commit_index >= old(self).commit_index,
            commit_by_rule(
                old(self).log@,
                old(self).current_term,
                old(self).match_index@,
                old(self).peers@.len() + 1 as int,
                old(self).commit_index,
                final(self).commit_index,
            ),
            final(self).current_term == old(self).current_term,
            final(self).state == old(self).state,
            final(self).log@ == old(self).log@,
            final(self).last_applied == old(self).last_applied,
            final(self).voted_for == old(self).voted_for,
            final(self).match_index@ == old(self).match_index@,
            final(self).next_index@ == old(self).next_index@,
            final(self).peers@ == old(self).peers@,
            final(self).node_id == old(self).node_id,
    {
        let ghost glog = self.log@;
        let ghost gterm = self.current_term;
        let ghost gmatch = self.match_index@;
        let ghost gcluster = self.peers@.len() + 1 as int;
        let len = self.log.len();
        let mut n = len;
        while n > 0 && n as u64 > self.commit_index
            invariant
                self.wf(),
                *self == *old(self),
                glog == self.log@,
                gterm == self.current_term,
                gmatch == self.match_index@,
                gcluster == self.peers@.len() + 1 as int,
                self.match_index@.len() < usize::MAX,
                self.peers@.len() < usize::MAX,
                len == self.log@.len(),
                n <= len,
                forall|x: int| n < x <= len ==> !commit_allowed(glog, gterm, gmatch, gcluster, x),
            decreases n,
        {
            if self.log[n - 1].term == self.current_term {
                let acked = count_at_least(&self.match_index, n as u64);
                if acked + 1 >= self.majority() {
                    proof {
                        assert(commit_allowed(glog, gterm, gmatch, gcluster, n as int));
                    }
                    self.commit_index = n as u64;
                    return ;
                }
            }
            proof {
                assert(!commit_allowed(glog, gterm, gmatch, gcluster, n as int));
            }
            n = n - 1;
        }
    }

    /// The entries committed but not yet applied, in strict index order;
    /// handing them out advances the applied index to the commit index, so
    /// an entry is produced exactly once. Asking again with nothing newly
    /// committed returns nothing and changes nothing.
    pub fn take_committed(&mut self) -> (r: Vec<(u64, Vec<u8>)>)
        requires
            old(self).wf(),
            old(self).commit_index <= old(self).log@.len(),
        ensures
            final(self).wf(),
            final(self).last_applied == old(self).commit_index,
            r@.len() == old(self).commit_index - old(self).last_applied,
            forall|j: int|
                0 <= j < r@.len() ==> r@[j].0 == old(self).last_applied + 1 + j && r@[j].1@ == old(self).log@[old(self).last_applied + j].value@,
            old(self).last_applied == old(self).commit_index ==> r@.len() == 0 && final(self).last_applied == old(self).last_applied,
            final(self).commit_index == old(self).commit_index,
            final(self).current_term == old(self).current_term,
            final(self).state == old(self).state,
            final(self).log@ == old(self).log@,
            final(self).voted_for == old(self).voted_for,
            final(self).peers@ == old(self).peers@,
            final(self).node_id == old(self).node_id,
    {
        let mut r: Vec<(u64, Vec<u8>)> = Vec::new();
        while self.last_applied < self.commit_index
            invariant
                self.wf(),
                self.commit_index <= self.log@.len(),
                old(self).last_applied <= self.last_applied <= self.commit_index,
                self.commit_index == old(self).commit_index,
                self.current_term == old(self).current_term,
                self.state == old(self).state,
                self.log@ == old(self).log@,
                self.voted_for == old(self).voted_for,
                self.peers@ == old(self).peers@,
                self.node_id == old(self).node_id,
                self.next_index@ == old(self).next_index@,
                self.match_index@ == old(self).match_index@,
                self.votes_received == old(self).votes_received,
                self.election_timeout_ms == old(self).election_timeout_ms,
                self.heartbeat_interval_ms == old(self).heartbeat_interval_ms,
                r@.len() == self.last_applied - old(self).last_applied,
                forall|j: int|
                    0 <= j < r@.len() ==> r@[j].0 == old(self).last_applied + 1 + j && r@[j].1@
                        == old(self).log@[old(self).last_applied + j].value@,
            decreases self.commit_index - self.last_applied,
        {
            let loglen = self.log.len();
            proof {
                assert(self.last_applied < loglen);
            }
            let i = self.last_applied as usize;
            let payload = clone_bytes(&self.log[i].value);
            proof {
                assert(payload@ == self.log@[self.last_applied as int].value@);
            }
            self.last_applied = self.last_applied + 1;
            r.push((self.last_applied, payload));
        }
        r
    }
}

/// The term and recorded vote after a node observes a message of `term`:
/// a higher term is adopted and the vote of the old term forgotten.
pub open spec fn term_after(current_term: u64, voted_for: Option<String>, term: u64) -> (
    u64,
    Option<String>,
) {
    if term > current_term {
        (term, Option::None)
    } else {
        (current_term, voted_for)
    }
}

impl RaftNode {
    /// Handle one inbound protocol message and return the messages to send
    /// back. A higher term always downgrades this node to follower and
    /// adopts the term before anything else; the commit and applied indices
    /// never move backwards.
    pub fn handle_message(&mut self, message: RaftMessage) -> (out: Vec<RaftMessage>)
        requires
            old(self).wf(),
            old(self).votes_received < u64::MAX,
            old(self).log@.len() < u64::MAX,
            old(self).peers@.len() < usize::MAX,
            old(self).match_index@.len() < usize::MAX,
            match message.message_type {
                RaftMessageType::AppendEntries { prev_log_index, ref entries, .. } => {
                    &&& prev_log_index + entries@.len() <= u64::MAX
                    &&& (forall|k: int|
                        0 <= k < entries@.len() ==> entries@[k].index == prev_log_index + 1 + k)
                },
                RaftMessageType::AppendEntriesResponse { match_index, .. } => match_index
                    < u64::MAX,
                _ => true,
            },
        ensures
            final(self).wf(),
            final(self).current_term == crate::crdt::max64(old(self).current_term, message.term),
            final(self).commit_index >= old(self).commit_index,
            final(self).last_applied == old(self).last_applied,
            message.term > old(self).current_term ==> final(self).state == NodeState::Follower,
            message.term > old(self).current_term && !(message.message_type is RequestVote)
                ==> final(self).voted_for is None,
            !(message.message_type is RequestVote) ==> final(self).voted_for == term_after(
                old(self).current_term,
                old(self).voted_for,
                message.term,
            ).1,
            match message.message_type {
                RaftMessageType::RequestVote { ref candidate_id, last_log_index, last_log_term } => {
                    &&& out@.len() == 1
                    &&& out@[0].term == final(self).current_term
                    &&& out@[0].from@ == old(self).node_id@
                    &&& match out@[0].message_type {
                        RaftMessageType::RequestVoteResponse { vote_granted } => {
                            &&& vote_granted == (message.term >= old(self).current_term && (
                            term_after(
                                old(self).current_term,
                                old(self).voted_for,
                                message.term,
                            ).1 is None || voted_is(
                                term_after(
                                    old(self).current_term,
                                    old(self).voted_for,
                                    message.term,
                                ).1,
                                candidate_id@,
                            )) && up_to_date(old(self).log@, last_log_index, last_log_term))
                            &&& (vote_granted ==> voted_is(final(self).voted_for, candidate_id@))
                            &&& (!vote_granted ==> final(self).voted_for == term_after(
                                old(self).current_term,
                                old(self).voted_for,
                                message.term,
                            ).1)
                        },
                        _ => false,
                    }
                },
                RaftMessageType::AppendEntries {
                    prev_log_index,
                    prev_log_term,
                    ref entries,
                    ..
                } => {
                    &&& out@.len() == 1
                    &&& out@[0].term == final(self).current_term
                    &&& out@[0].from@ == old(self).node_id@
                    &&& match out@[0].message_type {
                        RaftMessageType::AppendEntriesResponse { success, match_index } => {
                            &&& success == (message.term >= old(self).current_term
                                && log_consistent(old(self).log@, prev_log_index, prev_log_term))
                            &&& (success ==> final(self).log@ == accept_entries(
                                old(self).log@,
                                prev_log_index as int,
                                entries@,
                            ) && match_index == prev_log_index + entries@.len())
                            &&& (!success ==> final(self).log@ == old(self).log@ && match_index
                                == old(self).log@.len())
                        },
                        _ => false,
                    }
                },
                RaftMessageType::Heartbeat => out@.len() == 0 && final(self).log@ == old(
                    self,
                ).log@,
                _ => final(self).log@ == old(self).log@,
            },
    {
        if message.term > self.current_term {
            self.current_term = message.term;
            self.state = NodeState::Follower;
            self.voted_for = None;
        }
        match message.message_type {
            RaftMessageType::RequestVote { candidate_id, last_log_index, last_log_term } => {
                let granted = self.handle_request_vote(
                    message.term,
                    candidate_id,
                    last_log_index,
                    last_log_term,
                );
                let reply = RaftMessage {
                    term: self.current_term,
                    from: self.node_id.clone(),
                    message_type: RaftMessageType::RequestVoteResponse { vote_granted: granted },
                };
                let mut out: Vec<RaftMessage> = Vec::new();
                out.push(reply);
                out
            },
            RaftMessageType::AppendEntries {
                leader_id,
                prev_log_index,
                prev_log_term,
                entries,
                leader_commit,
            } => {
                let entry_count = entries.len() as u64;
                let success = self.handle_append_entries(
                    message.term,
                    leader_id,
                    prev_log_index,
                    prev_log_term,
                    entries,
                    leader_commit,
                );
                let match_index = if success {
                    prev_log_index + entry_count
                } else {
                    self.log.len() as u64
                };
                let reply = RaftMessage {
                    term: self.current_term,
                    from: self.node_id.clone(),
                    message_type: RaftMessageType::AppendEntriesResponse { success, match_index },
                };
                let mut out: Vec<RaftMessage> = Vec::new();
                out.push(reply);
                out
            },
            RaftMessageType::RequestVoteResponse { vote_granted } => {
                self.handle_request_vote_response(message.term, vote_granted)
            },
            RaftMessageType::AppendEntriesResponse { success, match_index } => {
                self.handle_append_entries_response(&message.from, message.term, success, match_index);
                Vec::new()
            },
            RaftMessageType::Heartbeat => Vec::new(),
        }
    }
}

/// Copy a byte string.
fn clone_bytes(v: &Vec<u8>) -> (r: Vec<u8>)
    ensures
        r@ == v@,
{
    let r = v.clone();
    proof {
        assert forall|i: int| 0 <= i < v@.len() implies r@[i] == v@[i] by {
            assert(cloned::<u8>(v@[i], r@[i]));
        }
        assert(r@ =~= v@);
    }
    r
}

/// A returned vote counts while the node is still a candidate of that term.
pub open spec fn counts_vote(state: NodeState, current_term: u64, term: u64, granted: bool) -> bool {
    state is Candidate && term == current_term && granted
}

/// A replication reply is the leader's to process while its term holds.
pub open spec fn leader_counts_reply(state: NodeState, current_term: u64, term: u64) -> bool {
    state is Leader && term == current_term
}

/// A refused replication backs the peer's next index off by one, stopping
/// at the start of the log.
pub open spec fn backed_off(n: u64) -> u64 {
    if n > 1 {
        (n - 1) as u64
    } else {
        1
    }
}

/// How many tracked peers acknowledge holding index `n` or beyond.
pub open spec fn count_at_least_spec(s: Seq<(String, u64)>, n: u64) -> int
    decreases s.len(),
{
    if s.len() == 0 {
        0
    } else {
        count_at_least_spec(s.drop_last(), n) + (if s.last().1 >= n {
            1int
        } else {
            0int
        })
    }
}

/// The commit rule admits index `n`: the log holds it, its entry is of the
/// current term, and a strict majority of the cluster (the leader included)
/// holds it.
pub open spec fn commit_allowed(
    log: Seq<LogEntry>,
    cur_term: u64,
    match_seq: Seq<(String, u64)>,
    cluster: int,
    n: int,
) -> bool {
    &&& 1 <= n <= log.len()
    &&& log[n - 1].term == cur_term
    &&& count_at_least_spec(match_seq, n as u64) + 1 >= majority_of(cluster)
}

/// The commit index moved exactly as the rule allows: to an admitted index
/// above its old value, with no admitted index left above the new value.
pub open spec fn commit_by_rule(
    log: Seq<LogEntry>,
    cur_term: u64,
    match_seq: Seq<(String, u64)>,
    cluster: int,
    before: u64,
    after: u64,
) -> bool {
    &&& after >= before
    &&& (after != before ==> commit_allowed(log, cur_term, match_seq, cluster, after as int))
    &&& (forall|x: int|
        after < x <= log.len() ==> !commit_allowed(log, cur_term, match_seq, cluster, x))
}

/// How many entries of `s` hold a count of at least `n`.
fn count_at_least(s: &Vec<(String, u64)>, n: u64) -> (r: usize)
    ensures
        r == count_at_least_spec(s@, n),
        r <= s@.len(),
{
    let len = s.len();
    let mut r: usize = 0;
    let mut i: usize = 0;
    while i < len
        invariant
            len == s@.len(),
            i <= len,
            r <= i,
            r == count_at_least_spec(s@.take(i as int), n),
        decreases len - i,
    {
        proof {
            assert(s@.take(i + 1).drop_last() =~= s@.take(i as int));
        }
        if s[i].1 >= n {
            r = r + 1;
        }
        i = i + 1;
    }
    proof {
        assert(s@.take(len as int) =~= s@);
    }
    r
}

/// Entry lists that replicate the same content: equal terms, indices and
/// payloads position by position.
pub open spec fn entries_like(a: Seq<LogEntry>, b: Seq<LogEntry>) -> bool {
    a.len() == b.len() && (forall|i: int|
        0 <= i < a.len() ==> a[i].term == b[i].term && a[i].index == b[i].index && a[i].value@
            == b[i].value@)
}

/// The next index a replication round uses for a peer, held to the log:
/// at least one, at most just past the end.
pub open spec fn clamped_next(next: u64, len: int) -> int {
    if next < 1 {
        1
    } else if next > len + 1 {
        len + 1
    } else {
        next as int
    }
}

/// The message replicates the log suffix a peer with next index `next` is
/// owed: the entries from there on, after the predecessor's index and term.
pub open spec fn replication_to(
    m: RaftMessage,
    log: Seq<LogEntry>,
    term: u64,
    leader: Seq<char>,
    commit: u64,
    next: u64,
) -> bool {
    &&& m.term == term
    &&& m.from@ == leader
    &&& match m.message_type {
        RaftMessageType::AppendEntries {
            leader_id,
            prev_log_index,
            prev_log_term,
            entries,
            leader_commit,
        } => {
            let prev = clamped_next(next, log.len() as int) - 1;
            &&& leader_id@ == leader
            &&& prev_log_index == prev
            &&& prev_log_term == (if prev == 0 {
                0u64
            } else {
                log[prev - 1].term
            })
            &&& entries_like(entries@, log.subrange(prev, log.len() as int))
            &&& leader_commit == commit
        },
        _ => false,
    }
}

/// Smaller of two counters.
pub open spec fn min64(x: u64, y: u64) -> u64 {
    if x <= y {
        x
    } else {
        y
    }
}

/// The size of a strict majority of a cluster of `n` nodes.
pub open spec fn majority_of(n: int) -> int {
    n / 2 + 1
}

/// The message asks for a vote for `candidate` at `term`, describing the
/// candidate's log by its last index and term.
pub open spec fn vote_request_to(
    m: RaftMessage,
    term: u64,
    candidate: Seq<char>,
    last_log_index: u64,
    last_log_term: u64,
) -> bool {
    &&& m.term == term
    &&& m.from@ == candidate
    &&& match m.message_type {
        RaftMessageType::RequestVote { candidate_id, last_log_index: lli, last_log_term: llt } => {
            &&& candidate_id@ == candidate
            &&& lli == last_log_index
            &&& llt == last_log_term
        },
        _ => false,
    }
}

/// Log Matching: wherever two logs carry the same term at the same index,
/// they agree on that entry and on everything before it.
pub open spec fn logs_match(a: Seq<LogEntry>, b: Seq<LogEntry>) -> bool {
    forall|i: int, j: int|
        0 <= j <= i && i < a.len() && i < b.len() && a[i].term == b[i].term ==> a[j] == b[j]
}

/// Election Safety: in one term, two candidates cannot both gather votes
/// from a strict majority of the same cluster, because each node records at
/// most one vote per term (`handle_request_vote` grants a vote only to the
/// candidate already recorded, or when none is recorded yet). Here `votes`
/// is the per-node record of that term's vote; any two majorities
/// intersect, so the shared voter forces the candidates to be one.
pub proof fn lemma_election_safety(
    cluster: Set<Seq<char>>,
    votes: Map<Seq<char>, Seq<char>>,
    c1: Seq<char>,
    c2: Seq<char>,
    v1: Set<Seq<char>>,
    v2: Set<Seq<char>>,
)
    requires
        cluster.finite(),
        v1.subset_of(cluster),
        v2.subset_of(cluster),
        forall|n: Seq<char>|
            v1.contains(n) ==> votes.contains_key(n) && votes[n] == c1,
        forall|n: Seq<char>|
            v2.contains(n) ==> votes.contains_key(n) && votes[n] == c2,
        2 * v1.len() > cluster.len(),
        2 * v2.len() > cluster.len(),
    ensures
        c1 == c2,
{
    vstd::set_lib::lemma_len_subset(v1, cluster);
    vstd::set_lib::lemma_len_subset(v2, cluster);
    if v1.disjoint(v2) {
        broadcast use vstd::set_lib::lemma_set_disjoint_lens;

        assert((v1 + v2).len() == v1.len() + v2.len());
        assert((v1 + v2).subset_of(cluster));
        vstd::set_lib::lemma_len_subset(v1 + v2, cluster);
        assert(false);
    }
    let n = choose|n: Seq<char>| v1.contains(n) && v2.contains(n);
    assert(votes[n] == c1);
    assert(votes[n] == c2);
}

proof fn lemma_accept_entries_structure(
    flog: Seq<LogEntry>,
    llog: Seq<LogEntry>,
    prev: int,
    entries: Seq<LogEntry>,
)
    requires
        0 <= prev <= flog.len(),
        prev + entries.len() <= llog.len(),
        entries =~= llog.subrange(prev, prev + entries.len()),
        logs_match(flog, llog),
        prev > 0 ==> flog[prev - 1].term == llog[prev - 1].term,
    ensures
        accept_entries(flog, prev, entries).len() >= prev + entries.len(),
        accept_entries(flog, prev, entries).len() <= flog.len() || accept_entries(
            flog,
            prev,
            entries,
        ).len() == prev + entries.len(),
        forall|j: int|
            0 <= j < prev ==> #[trigger] accept_entries(flog, prev, entries)[j] == flog[j],
        forall|i: int|
            prev <= i < prev + entries.len() ==> #[trigger] accept_entries(flog, prev, entries)[i]
                == llog[i],
        forall|i: int|
            prev + entries.len() <= i < accept_entries(flog, prev, entries).len()
                ==> #[trigger] accept_entries(flog, prev, entries)[i] == flog[i],
    decreases entries.len(),
{
    if entries.len() == 0 {
    } else {
        let k = entries.len() - 1;
        let pre = entries.drop_last();
        assert(pre =~= llog.subrange(prev, prev + k));
        lemma_accept_entries_structure(flog, llog, prev, pre);
        let r0 = accept_entries(flog, prev, pre);
        let pos = prev + entries.len();
        let e = entries.last();
        assert(e == llog[pos - 1]);
        let r = accept_step(r0, pos, e);
        assert(accept_entries(flog, prev, entries) == r);
        if pos <= r0.len() {
            if r0[pos - 1].term != e.term {
                assert(r == r0.take(pos - 1).push(e));
            } else {
                // the held entry has the leader's term at this index, so by
                // log matching it is the leader's entry
                assert(r0[pos - 1] == flog[pos - 1]);
                assert(flog[pos - 1].term == llog[pos - 1].term);
                assert(flog[pos - 1] == llog[pos - 1]);
                assert(r == r0);
            }
        } else {
            assert(pos == r0.len() + 1);
            assert(r == r0.push(e));
        }
    }
}

/// Log Matching is preserved when a follower accepts entries that are a
/// slice of the leader's log and whose predecessor entry matches: the
/// follower's new log again matches the leader's. This is the inductive
/// step of the Log Matching property for one successful replication.
pub proof fn lemma_log_matching_preserved(
    flog: Seq<LogEntry>,
    llog: Seq<LogEntry>,
    prev: int,
    entries: Seq<LogEntry>,
)
    requires
        0 <= prev <= flog.len(),
        prev + entries.len() <= llog.len(),
        entries =~= llog.subrange(prev, prev + entries.len()),
        logs_match(flog, llog),
        prev > 0 ==> flog[prev - 1].term == llog[prev - 1].term,
    ensures
        logs_match(accept_entries(flog, prev, entries), llog),
{
    lemma_accept_entries_structure(flog, llog, prev, entries);
    let r = accept_entries(flog, prev, entries);
    assert forall|i: int, j: int|
        0 <= j <= i && i < r.len() && i < llog.len() && r[i].term == llog[i].term implies r[j]
        == llog[j] by {
        // below prev the follower is unchanged, and its prefix there equals
        // the leader's, because the predecessor entry's term matches
        assert forall|x: int| 0 <= x < prev implies r[x] == flog[x] && flog[x] == llog[x] by {
            assert(r[x] == flog[x]);
            if prev > 0 {
                assert(flog[prev - 1].term == llog[prev - 1].term);
                assert(flog[x] == llog[x]);
            }
        }
        if i < prev {
            assert(flog[i].term == llog[i].term);
            assert(r[j] == flog[j]);
        } else if i < prev + entries.len() {
            if j < prev {
            } else if j < prev + entries.len() {
                assert(r[j] == llog[j]);
            } else {
            }
        } else {
            assert(r[i] == flog[i]);
            assert(flog[i].term == llog[i].term);
            if j < prev {
            } else if j < prev + entries.len() {
                assert(r[j] == llog[j]);
            } else {
                assert(r[j] == flog[j]);
                assert(flog[j] == llog[j]);
            }
        }
    }
}

/// State Machine Safety at one index, given Log Matching: two logs that
/// agree on the term of the entry at an index agree on the entry itself,
/// its payload included. That the terms agree at every committed index is
/// Leader Completeness, which the commit rule's current-term restriction
/// protects.
pub proof fn lemma_state_machine_safety(a: Seq<LogEntry>, b: Seq<LogEntry>, i: int)
    requires
        logs_match(a, b),
        0 <= i < a.len(),
        i < b.len(),
        a[i].term == b[i].term,
    ensures
        a[i] == b[i],
        a[i].value == b[i].value,
{
}

} // verus!
