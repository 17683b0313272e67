use omnix::raft::{LogEntry, NodeState, RaftMessage, RaftMessageType, RaftNode};
use omnix::ConsensusError;

fn entry(term: u64, index: u64, value: &[u8]) -> LogEntry {
    LogEntry { term, index, value: value.to_vec() }
}

#[test]
fn test_new_node_is_follower() {
    let n = RaftNode::new("n1".to_string());
    assert_eq!(n.state, NodeState::Follower);
    assert_eq!(n.current_term, 0);
    assert!(n.voted_for.is_none());
    assert_eq!(n.commit_index, 0);
    assert_eq!(n.last_applied, 0);
    assert!(n.log.is_empty());
    assert!(n.election_timeout_ms >= 150 && n.election_timeout_ms < 300);
    assert_eq!(n.heartbeat_interval_ms, 50);
}

#[test]
fn test_propose_refused_off_leader() {
    let mut n = RaftNode::new("n1".to_string());
    let r = n.propose(vec![1, 2, 3]);
    assert_eq!(r, Err(ConsensusError::NotLeader));
    assert!(n.log.is_empty());
}

#[test]
fn test_single_node_election_wins_immediately() {
    let mut n = RaftNode::new("n1".to_string());
    let msgs = n.start_election();
    assert_eq!(n.state, NodeState::Leader);
    assert_eq!(n.current_term, 1);
    assert_eq!(msgs.len(), 0);
}

#[test]
fn test_election_requires_majority() {
    let mut n = RaftNode::new("n1".to_string());
    n.add_peer("n2".to_string());
    n.add_peer("n3".to_string());
    let msgs = n.start_election();
    assert_eq!(n.state, NodeState::Candidate);
    assert_eq!(msgs.len(), 2);
    for m in &msgs {
        assert_eq!(m.term, 1);
        assert!(matches!(
            m.message_type,
            RaftMessageType::RequestVote { last_log_index: 0, last_log_term: 0, .. }
        ));
    }

    // one granted vote gives two of three: strict majority, leadership
    let hb = n.handle_request_vote_response(1, true);
    assert_eq!(n.state, NodeState::Leader);
    assert_eq!(hb.len(), 2);
    for m in &hb {
        assert!(matches!(m.message_type, RaftMessageType::AppendEntries { .. }));
    }
}

#[test]
fn test_denied_votes_do_not_elect() {
    let mut n = RaftNode::new("n1".to_string());
    n.add_peer("n2".to_string());
    n.add_peer("n3".to_string());
    n.add_peer("n4".to_string());
    n.add_peer("n5".to_string());
    let _ = n.start_election();
    let _ = n.handle_request_vote_response(1, false);
    let _ = n.handle_request_vote_response(1, false);
    assert_eq!(n.state, NodeState::Candidate);
    // two grants complete three of five
    let _ = n.handle_request_vote_response(1, true);
    assert_eq!(n.state, NodeState::Candidate);
    let _ = n.handle_request_vote_response(1, true);
    assert_eq!(n.state, NodeState::Leader);
}

#[test]
fn test_vote_granted_once_per_term() {
    let mut n = RaftNode::new("n1".to_string());
    assert!(n.handle_request_vote(1, "c1".to_string(), 0, 0));
    assert_eq!(n.voted_for, Some("c1".to_string()));
    // a different candidate of the same term is refused
    assert!(!n.handle_request_vote(1, "c2".to_string(), 0, 0));
    assert_eq!(n.voted_for, Some("c1".to_string()));
    // the same candidate may ask again
    assert!(n.handle_request_vote(1, "c1".to_string(), 0, 0));
}

#[test]
fn test_vote_refused_for_stale_log() {
    let mut n = RaftNode::new("n1".to_string());
    n.current_term = 2;
    n.log.push(entry(2, 1, b"a"));
    // candidate's last log term is older than ours
    assert!(!n.handle_request_vote(3, "c1".to_string(), 5, 1));
    // equal last term but shorter log is refused too
    assert!(!n.handle_request_vote(3, "c1".to_string(), 0, 2));
    // equal last term and at least as long is granted
    assert!(n.handle_request_vote(3, "c1".to_string(), 1, 2));
}

#[test]
fn test_append_entries_accepts_and_commits() {
    let mut n = RaftNode::new("n2".to_string());
    let entries = vec![entry(1, 1, b"a"), entry(1, 2, b"b")];
    let ok = n.handle_append_entries(1, "n1".to_string(), 0, 0, entries, 1);
    assert!(ok);
    assert_eq!(n.log.len(), 2);
    assert_eq!(n.commit_index, 1);
    assert_eq!(n.state, NodeState::Follower);
}

#[test]
fn test_append_entries_rejects_missing_predecessor() {
    let mut n = RaftNode::new("n2".to_string());
    let ok = n.handle_append_entries(1, "n1".to_string(), 3, 1, vec![entry(1, 4, b"d")], 0);
    assert!(!ok);
    assert!(n.log.is_empty());
}

#[test]
fn test_append_entries_rejects_term_mismatch() {
    let mut n = RaftNode::new("n2".to_string());
    let _ = n.handle_append_entries(1, "n1".to_string(), 0, 0, vec![entry(1, 1, b"a")], 0);
    // predecessor at index 1 has term 1, not 9
    let ok = n.handle_append_entries(1, "n1".to_string(), 1, 9, vec![entry(1, 2, b"b")], 0);
    assert!(!ok);
    assert_eq!(n.log.len(), 1);
}

#[test]
fn test_append_entries_truncates_conflicting_suffix() {
    let mut n = RaftNode::new("n2".to_string());
    let first = vec![entry(1, 1, b"a"), entry(1, 2, b"b"), entry(1, 3, b"c")];
    assert!(n.handle_append_entries(1, "n1".to_string(), 0, 0, first, 0));
    // a new leader of term 2 replaces everything after index 1
    let second = vec![entry(2, 2, b"x")];
    assert!(n.handle_append_entries(2, "n3".to_string(), 1, 1, second, 0));
    assert_eq!(n.log.len(), 2);
    assert_eq!(n.log[1].term, 2);
    assert_eq!(n.log[1].value, b"x".to_vec());
}

#[test]
fn test_heartbeat_leaves_log_alone() {
    let mut n = RaftNode::new("n2".to_string());
    let entries = vec![entry(1, 1, b"a"), entry(1, 2, b"b")];
    assert!(n.handle_append_entries(1, "n1".to_string(), 0, 0, entries, 0));
    // an empty replication request must not shrink the log
    assert!(n.handle_append_entries(1, "n1".to_string(), 0, 0, Vec::new(), 2));
    assert_eq!(n.log.len(), 2);
    assert_eq!(n.commit_index, 2);
}

#[test]
fn test_stale_term_append_refused() {
    let mut n = RaftNode::new("n2".to_string());
    n.current_term = 5;
    let ok = n.handle_append_entries(4, "n1".to_string(), 0, 0, vec![entry(4, 1, b"a")], 0);
    assert!(!ok);
    assert!(n.log.is_empty());
}

#[test]
fn test_commit_index_monotonic_across_trace() {
    let mut n = RaftNode::new("n2".to_string());
    let mut seen: Vec<u64> = Vec::new();
    let batches: Vec<(u64, u64)> = vec![(1, 1), (2, 1), (3, 2), (4, 1)];
    for (term, leader_commit) in batches {
        let prev_index = n.log.len() as u64;
        let prev_term = n.log.last().map(|e| e.term).unwrap_or(0);
        let e = vec![entry(term, prev_index + 1, b"v")];
        let _ = n.handle_append_entries(
            term,
            "n1".to_string(),
            prev_index,
            prev_term,
            e,
            leader_commit,
        );
        seen.push(n.commit_index);
    }
    for w in seen.windows(2) {
        assert!(w[0] <= w[1]);
    }
}

#[test]
fn test_leader_commit_rule_needs_majority_and_current_term() {
    let mut n = RaftNode::new("n1".to_string());
    n.add_peer("n2".to_string());
    n.add_peer("n3".to_string());
    let _ = n.start_election();
    let _ = n.handle_request_vote_response(1, true);
    assert_eq!(n.state, NodeState::Leader);

    let idx = n.propose(b"v".to_vec()).unwrap();
    assert_eq!(idx, 1);
    assert_eq!(n.commit_index, 0);

    // one acknowledgement plus the leader is a majority of three
    n.handle_append_entries_response(&"n2".to_string(), 1, true, 1);
    assert_eq!(n.commit_index, 1);
}

#[test]
fn test_failed_replication_backs_off_next_index() {
    let mut n = RaftNode::new("n1".to_string());
    n.add_peer("n2".to_string());
    n.add_peer("n3".to_string());
    let _ = n.start_election();
    let _ = n.handle_request_vote_response(1, true);
    let _ = n.propose(b"a".to_vec()).unwrap();
    let _ = n.propose(b"b".to_vec()).unwrap();
    // a successful ack raises the peer's next index past the log end
    n.handle_append_entries_response(&"n2".to_string(), 1, true, 2);
    let before: Vec<u64> = n.next_index.iter().map(|p| p.1).collect();
    assert_eq!(before[0], 3);
    n.handle_append_entries_response(&"n2".to_string(), 1, false, 0);
    let after: Vec<u64> = n.next_index.iter().map(|p| p.1).collect();
    assert_eq!(after[0], 2);
    assert_eq!(before[1], after[1]);
    // the back-off never drops below the start of the log
    n.handle_append_entries_response(&"n2".to_string(), 1, false, 0);
    n.handle_append_entries_response(&"n2".to_string(), 1, false, 0);
    let floor: Vec<u64> = n.next_index.iter().map(|p| p.1).collect();
    assert_eq!(floor[0], 1);
}

#[test]
fn test_higher_term_forces_follower() {
    let mut n = RaftNode::new("n1".to_string());
    let _ = n.start_election();
    assert_eq!(n.state, NodeState::Leader);
    let msg = RaftMessage {
        term: 7,
        from: "n9".to_string(),
        message_type: RaftMessageType::Heartbeat,
    };
    let out = n.handle_message(msg);
    assert!(out.is_empty());
    assert_eq!(n.state, NodeState::Follower);
    assert_eq!(n.current_term, 7);
    assert!(n.voted_for.is_none());
}

#[test]
fn test_handle_message_replies_to_vote_request() {
    let mut n = RaftNode::new("n2".to_string());
    let msg = RaftMessage {
        term: 1,
        from: "n1".to_string(),
        message_type: RaftMessageType::RequestVote {
            candidate_id: "n1".to_string(),
            last_log_index: 0,
            last_log_term: 0,
        },
    };
    let out = n.handle_message(msg);
    assert_eq!(out.len(), 1);
    assert_eq!(out[0].term, 1);
    assert_eq!(out[0].from, "n2".to_string());
    assert!(matches!(
        out[0].message_type,
        RaftMessageType::RequestVoteResponse { vote_granted: true }
    ));
}

#[test]
fn test_take_committed_in_order_exactly_once() {
    let mut n = RaftNode::new("n2".to_string());
    let entries = vec![entry(1, 1, b"a"), entry(1, 2, b"b"), entry(1, 3, b"c")];
    assert!(n.handle_append_entries(1, "n1".to_string(), 0, 0, entries, 2));
    let first = n.take_committed();
    assert_eq!(first.len(), 2);
    assert_eq!(first[0], (1, b"a".to_vec()));
    assert_eq!(first[1], (2, b"b".to_vec()));

    // asking again with nothing newly committed yields nothing
    let again = n.take_committed();
    assert!(again.is_empty());
    assert_eq!(n.last_applied, 2);

    // committing the rest yields only the rest
    assert!(n.handle_append_entries(1, "n1".to_string(), 3, 1, Vec::new(), 3));
    let rest = n.take_committed();
    assert_eq!(rest, vec![(3, b"c".to_vec())]);
}

#[test]
fn test_three_node_log_replication_end_to_end() {
    // a leader and two followers agree on one entry at the same index
    let mut leader = RaftNode::new("n1".to_string());
    leader.add_peer("n2".to_string());
    leader.add_peer("n3".to_string());
    let mut f2 = RaftNode::new("n2".to_string());
    let mut f3 = RaftNode::new("n3".to_string());

    let requests = leader.start_election();
    assert_eq!(requests.len(), 2);
    let grant2 = f2.handle_message(requests[0].clone());
    let grant3 = f3.handle_message(requests[1].clone());
    assert!(matches!(
        grant2[0].message_type,
        RaftMessageType::RequestVoteResponse { vote_granted: true }
    ));
    let _ = leader.handle_message(grant2[0].clone());
    assert_eq!(leader.state, NodeState::Leader);
    let _ = leader.handle_message(grant3[0].clone());

    let payload = vec![0x01, 0x02, 0x03, 0x04, 0x05];
    let idx = leader.propose(payload.clone()).unwrap();
    assert_eq!(idx, 1);

    // replicate to both followers
    let append = RaftMessage {
        term: leader.current_term,
        from: "n1".to_string(),
        message_type: RaftMessageType::AppendEntries {
            leader_id: "n1".to_string(),
            prev_log_index: 0,
            prev_log_term: 0,
            entries: leader.log.clone(),
            leader_commit: leader.commit_index,
        },
    };
    let ack2 = f2.handle_message(append.clone());
    let ack3 = f3.handle_message(append.clone());
    let _ = leader.handle_message(ack2[0].clone());
    let _ = leader.handle_message(ack3[0].clone());
    assert_eq!(leader.commit_index, 1);

    // the commit travels on the next heartbeat
    let hb = RaftMessage {
        term: leader.current_term,
        from: "n1".to_string(),
        message_type: RaftMessageType::AppendEntries {
            leader_id: "n1".to_string(),
            prev_log_index: 1,
            prev_log_term: 1,
            entries: Vec::new(),
            leader_commit: leader.commit_index,
        },
    };
    let _ = f2.handle_message(hb.clone());
    let _ = f3.handle_message(hb.clone());

    let on_leader = leader.take_committed();
    let on_f2 = f2.take_committed();
    let on_f3 = f3.take_committed();
    assert_eq!(on_leader, vec![(1, payload.clone())]);
    assert_eq!(on_f2, vec![(1, payload.clone())]);
    assert_eq!(on_f3, vec![(1, payload)]);
}

#[test]
fn test_leader_failover_elects_new_leader_with_higher_term() {
    // five nodes; the first leader goes silent and another node stands at
    // a later term and wins, so a new propose succeeds elsewhere
    let mut l1 = RaftNode::new("n1".to_string());
    for p in ["n2", "n3", "n4", "n5"] {
        l1.add_peer(p.to_string());
    }
    let _ = l1.start_election();
    let _ = l1.handle_request_vote_response(1, true);
    let _ = l1.handle_request_vote_response(1, true);
    assert_eq!(l1.state, NodeState::Leader);
    let term_at_crash = l1.current_term;

    // l1 crashes; n2's election timeout fires
    let mut l2 = RaftNode::new("n2".to_string());
    for p in ["n1", "n3", "n4", "n5"] {
        l2.add_peer(p.to_string());
    }
    l2.current_term = term_at_crash;
    let requests = l2.start_election();
    assert!(l2.current_term > term_at_crash);
    assert_eq!(requests.len(), 4);
    let _ = l2.handle_request_vote_response(l2.current_term, true);
    let _ = l2.handle_request_vote_response(l2.current_term, true);
    assert_eq!(l2.state, NodeState::Leader);
    assert!(l2.propose(b"after failover".to_vec()).is_ok());
}

#[test]
fn test_minority_partition_cannot_progress() {
    // two of five nodes are cut off: the candidate can reach only one
    // other node, never a strict majority, so no leader and no commits
    let mut n1 = RaftNode::new("n1".to_string());
    for p in ["n2", "n3", "n4", "n5"] {
        n1.add_peer(p.to_string());
    }
    let mut n2 = RaftNode::new("n2".to_string());
    for p in ["n1", "n3", "n4", "n5"] {
        n2.add_peer(p.to_string());
    }

    let requests = n1.start_election();
    assert_eq!(requests.len(), 4);
    // only n2 is reachable and grants its vote
    let replies = n2.handle_message(requests[0].clone());
    let _ = n1.handle_message(replies[0].clone());

    // two of five is not a strict majority
    assert_eq!(n1.state, NodeState::Candidate);
    assert_eq!(n1.commit_index, 0);
    assert_eq!(n1.propose(b"stuck".to_vec()), Err(ConsensusError::NotLeader));
    assert_eq!(n2.propose(b"stuck".to_vec()), Err(ConsensusError::NotLeader));
}

#[test]
fn test_replication_messages_carry_log_suffix() {
    let mut n = RaftNode::new("n1".to_string());
    n.add_peer("n2".to_string());
    n.add_peer("n3".to_string());
    let _ = n.start_election();
    let _ = n.handle_request_vote_response(1, true);
    let _ = n.propose(b"a".to_vec()).unwrap();
    let _ = n.propose(b"b".to_vec()).unwrap();
    let _ = n.propose(b"c".to_vec()).unwrap();

    // both peers still start from the beginning of the log
    let msgs = n.replication_messages();
    assert_eq!(msgs.len(), 2);
    for m in &msgs {
        match &m.message_type {
            RaftMessageType::AppendEntries { prev_log_index, prev_log_term, entries, .. } => {
                assert_eq!(*prev_log_index, 0);
                assert_eq!(*prev_log_term, 0);
                assert_eq!(entries.len(), 3);
                assert_eq!(entries[0].value, b"a".to_vec());
                assert_eq!(entries[2].value, b"c".to_vec());
            }
            other => panic!("expected a replication request, got {:?}", other),
        }
    }

    // once a peer acknowledged everything, it is owed only the predecessor
    n.handle_append_entries_response(&"n2".to_string(), 1, true, 3);
    let after = n.replication_messages();
    match &after[0].message_type {
        RaftMessageType::AppendEntries { prev_log_index, prev_log_term, entries, .. } => {
            assert_eq!(*prev_log_index, 3);
            assert_eq!(*prev_log_term, 1);
            assert!(entries.is_empty());
        }
        other => panic!("expected a replication request, got {:?}", other),
    }
}
