use omnix::raft::{LogEntry, RaftMessageType};
use omnix::wire::{decode_body, decode_frame, encode_body, encode_frame};

#[test]
fn test_frame_round_trip() {
    let sender = b"node1".to_vec();
    let body = vec![0x01, 0x02, 0x03, 0x04, 0x05];
    let bytes = encode_frame(7, &sender, &body);
    let (term, s, b) = decode_frame(&bytes).expect("a frame must decode");
    assert_eq!(term, 7);
    assert_eq!(s, sender);
    assert_eq!(b, body);
}

#[test]
fn test_frame_layout_is_big_endian_and_length_prefixed() {
    let bytes = encode_frame(0x0102030405060708, &vec![0xaa], &vec![0xbb, 0xcc]);
    assert_eq!(bytes.len(), 8 + 8 + 1 + 8 + 2);
    assert_eq!(&bytes[0..8], &[1, 2, 3, 4, 5, 6, 7, 8]);
    assert_eq!(&bytes[8..16], &[0, 0, 0, 0, 0, 0, 0, 1]);
    assert_eq!(bytes[16], 0xaa);
    assert_eq!(&bytes[17..25], &[0, 0, 0, 0, 0, 0, 0, 2]);
    assert_eq!(&bytes[25..27], &[0xbb, 0xcc]);
}

#[test]
fn test_frame_empty_sender_and_body() {
    let bytes = encode_frame(0, &Vec::new(), &Vec::new());
    assert_eq!(bytes.len(), 24);
    let (term, s, b) = decode_frame(&bytes).expect("an empty frame still decodes");
    assert_eq!(term, 0);
    assert!(s.is_empty());
    assert!(b.is_empty());
}

#[test]
fn test_decode_refuses_malformed_input() {
    // too short for the fixed header
    assert!(decode_frame(&vec![0u8; 10]).is_none());
    // sender length pointing past the end
    let mut bytes = encode_frame(1, &b"ab".to_vec(), &b"xy".to_vec());
    bytes[15] = 0xff;
    assert!(decode_frame(&bytes).is_none());
    // trailing garbage breaks the canonical body length
    let mut padded = encode_frame(1, &b"ab".to_vec(), &b"xy".to_vec());
    padded.push(0);
    assert!(decode_frame(&padded).is_none());
}

fn round_trip(m: RaftMessageType) -> RaftMessageType {
    let bytes = encode_body(&m);
    decode_body(&bytes).expect("a canonical body must decode")
}

#[test]
fn test_body_round_trip_request_vote() {
    let m = RaftMessageType::RequestVote {
        candidate_id: "n1".to_string(),
        last_log_index: 9,
        last_log_term: 4,
    };
    match round_trip(m) {
        RaftMessageType::RequestVote { candidate_id, last_log_index, last_log_term } => {
            assert_eq!(candidate_id, "n1");
            assert_eq!(last_log_index, 9);
            assert_eq!(last_log_term, 4);
        }
        other => panic!("wrong variant: {:?}", other),
    }
}

#[test]
fn test_body_round_trip_append_entries() {
    let m = RaftMessageType::AppendEntries {
        leader_id: "lead".to_string(),
        prev_log_index: 2,
        prev_log_term: 1,
        entries: vec![
            LogEntry { term: 1, index: 3, value: vec![7, 8] },
            LogEntry { term: 2, index: 4, value: Vec::new() },
        ],
        leader_commit: 2,
    };
    match round_trip(m) {
        RaftMessageType::AppendEntries {
            leader_id,
            prev_log_index,
            prev_log_term,
            entries,
            leader_commit,
        } => {
            assert_eq!(leader_id, "lead");
            assert_eq!(prev_log_index, 2);
            assert_eq!(prev_log_term, 1);
            assert_eq!(leader_commit, 2);
            assert_eq!(entries.len(), 2);
            assert_eq!(entries[0].value, vec![7, 8]);
            assert_eq!(entries[1].index, 4);
            assert!(entries[1].value.is_empty());
        }
        other => panic!("wrong variant: {:?}", other),
    }
}

#[test]
fn test_body_round_trip_replies_and_heartbeat() {
    assert!(matches!(
        round_trip(RaftMessageType::RequestVoteResponse { vote_granted: true }),
        RaftMessageType::RequestVoteResponse { vote_granted: true }
    ));
    assert!(matches!(
        round_trip(RaftMessageType::AppendEntriesResponse { success: false, match_index: 5 }),
        RaftMessageType::AppendEntriesResponse { success: false, match_index: 5 }
    ));
    assert!(matches!(round_trip(RaftMessageType::Heartbeat), RaftMessageType::Heartbeat));
}

#[test]
fn test_body_decode_refuses_malformed() {
    // unknown tag
    assert!(decode_body(&vec![9u8]).is_none());
    // a heartbeat with trailing bytes is not canonical
    assert!(decode_body(&vec![5u8, 0u8]).is_none());
    // a vote reply whose flag is not a bit
    assert!(decode_body(&vec![2u8, 7u8]).is_none());
    // a truncated vote request
    let mut bytes = encode_body(&RaftMessageType::RequestVote {
        candidate_id: "n1".to_string(),
        last_log_index: 1,
        last_log_term: 1,
    });
    bytes.pop();
    assert!(decode_body(&bytes).is_none());
}
