use landsraad::{decode_payload, encode_payload, CodecError, Entry, Message};

fn samples() -> Vec<Message> {
    vec![
        Message::RequestVote {
            term: 7,
            last_log_index: 3,
            last_log_term: 6,
        },
        Message::VoteResponse {
            term: 7,
            granted: true,
        },
        Message::AppendEntries {
            term: 9,
            prev_index: 0,
            prev_term: 0,
            entries: vec![],
            leader_commit: 0,
        },
        Message::AppendEntries {
            term: u64::MAX,
            prev_index: 5,
            prev_term: 4,
            entries: vec![
                Entry {
                    term: 4,
                    command: vec![],
                },
                Entry {
                    term: 5,
                    command: vec![1, 2, 3],
                },
            ],
            leader_commit: 5,
        },
        Message::AppendResponse {
            term: 1,
            success: false,
            match_index: 0,
        },
    ]
}

#[test]
fn every_message_round_trips() {
    for m in samples() {
        let (kind, payload) = encode_payload(&m);
        assert_eq!(decode_payload(kind, &payload), Ok(m));
    }
}

#[test]
fn every_truncation_is_an_error() {
    for m in samples() {
        let (kind, good) = encode_payload(&m);
        for cut in 0..good.len() {
            assert!(decode_payload(kind, &good[..cut]).is_err());
        }
    }
}

#[test]
fn valid_frames_with_bad_payloads_are_typed_errors() {
    assert_eq!(decode_payload(99, &[]), Err(CodecError::UnknownType(99)));
    assert_eq!(
        decode_payload(2, &[0; 9]),
        Ok(Message::VoteResponse {
            term: 0,
            granted: false
        })
    );
    let mut p = vec![0; 8];
    p.push(2);
    assert_eq!(decode_payload(2, &p), Err(CodecError::BadBool(2)));
    assert_eq!(decode_payload(2, &[0; 10]), Err(CodecError::TrailingBytes));
    assert_eq!(decode_payload(1, &[0; 3]), Err(CodecError::Truncated));
}

#[test]
fn a_huge_declared_entry_count_cannot_force_a_huge_allocation() {
    let mut p = vec![0u8; 32];
    p.extend(u32::MAX.to_le_bytes());
    assert_eq!(decode_payload(3, &p), Err(CodecError::Truncated));
}

#[test]
fn payloads_have_the_documented_layout() {
    let (kind, p) = encode_payload(&Message::AppendResponse {
        term: 2,
        success: true,
        match_index: 258,
    });
    assert_eq!(kind, 4);
    assert_eq!(p, vec![2, 0, 0, 0, 0, 0, 0, 0, 1, 2, 1, 0, 0, 0, 0, 0, 0]);
    let (kind, p) = encode_payload(&Message::AppendEntries {
        term: 1,
        prev_index: 0,
        prev_term: 0,
        entries: vec![Entry {
            term: 3,
            command: vec![9],
        }],
        leader_commit: 0,
    });
    assert_eq!(kind, 3);
    let mut want = vec![1, 0, 0, 0, 0, 0, 0, 0];
    want.extend([0u8; 24]);
    want.extend([1, 0, 0, 0]);
    want.extend([3, 0, 0, 0, 0, 0, 0, 0]);
    want.extend([1, 0, 0, 0, 9]);
    assert_eq!(p, want);
}

#[test]
fn message_term_reads_every_variant() {
    let terms: Vec<u64> = samples().iter().map(|m| m.term()).collect();
    assert_eq!(terms, vec![7, 7, 9, u64::MAX, 1]);
}

#[test]
fn an_entry_count_past_the_payload_is_truncated() {
    // A declared count of 1 with no room for the entry's length field.
    let mut p = vec![0u8; 32];
    p.extend(1u32.to_le_bytes());
    p.extend([0u8; 12]);
    p[44..].copy_from_slice(&[5, 0, 0, 0]);
    assert_eq!(decode_payload(3, &p), Err(CodecError::Truncated));
}
