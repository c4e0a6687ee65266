use bitturbulence::peer::handshake::{answer_hello, answer_inbound, check_hello_ack, HelloAck, PeerError};
use bitturbulence::peer::state::{PendingRequest, SessionState};
use bitturbulence::peer::step::{request_reply, RequestReply, SessionAction, SessionEvent};

#[test]
fn have_all_has_any_piece() {
    let mut s = SessionState::new(1);
    s.apply_have_all(0);
    assert!(s.peer_has_piece(0, 0));
    assert!(s.peer_has_piece(0, 9999));
}

#[test]
fn have_none_has_no_piece() {
    let mut s = SessionState::new(1);
    s.apply_have_none(0);
    assert!(!s.peer_has_piece(0, 0));
}

#[test]
fn have_piece_updates_bitmap() {
    let mut s = SessionState::new(1);
    s.apply_have_piece(0, 5);
    assert!(s.peer_has_piece(0, 5));
    assert!(!s.peer_has_piece(0, 4));
}

#[test]
fn bitmap_parsed_correctly() {
    let mut s = SessionState::new(1);
    // 0b1010_0000: pieces 0 and 2
    s.apply_have_bitmap(0, &[0b1010_0000]);
    assert!(s.peer_has_piece(0, 0));
    assert!(!s.peer_has_piece(0, 1));
    assert!(s.peer_has_piece(0, 2));
    assert!(!s.peer_has_piece(0, 3));
}

#[test]
fn pending_add_and_remove() {
    let mut s = SessionState::new(1);
    s.add_pending(PendingRequest { file_index: 0, piece_index: 3, begin: 0, length: 4096 });
    assert_eq!(s.pending.len(), 1);
    s.remove_pending(0, 3, 0);
    assert!(s.pending.is_empty());
}

#[test]
fn unknown_file_has_no_piece() {
    let s = SessionState::new(2);
    assert!(!s.peer_has_piece(1, 0));
}

#[test]
fn have_piece_after_have_all_keeps_all() {
    let mut s = SessionState::new(1);
    s.apply_have_all(0);
    s.apply_have_piece(0, 3);
    assert!(s.peer_has_piece(0, 100));
}

#[test]
fn have_piece_after_have_none_sets_only_that_piece() {
    let mut s = SessionState::new(1);
    s.apply_have_none(0);
    s.apply_have_piece(0, 9);
    assert!(s.peer_has_piece(0, 9));
    assert!(!s.peer_has_piece(0, 8));
    assert!(!s.peer_has_piece(0, 10));
}

#[test]
fn bitmap_beyond_its_end_is_missing() {
    let mut s = SessionState::new(1);
    s.apply_have_bitmap(0, &[0xFF]);
    assert!(s.peer_has_piece(0, 7));
    assert!(!s.peer_has_piece(0, 8));
}

#[test]
fn remove_pending_leaves_other_requests() {
    let mut s = SessionState::new(1);
    s.add_pending(PendingRequest { file_index: 0, piece_index: 1, begin: 0, length: 16384 });
    s.add_pending(PendingRequest { file_index: 0, piece_index: 1, begin: 16384, length: 16384 });
    s.remove_pending(0, 1, 0);
    assert_eq!(s.pending.len(), 1);
    assert_eq!(s.pending[0].begin, 16384);
}

#[test]
fn hello_for_our_flow_is_accepted() {
    let (ack, r) = answer_hello([1; 32], &[7; 32], &[7; 32]);
    assert!(ack.accepted);
    assert_eq!(ack.peer_id, [1; 32]);
    assert!(ack.reason.is_none());
    assert!(r.is_ok());
    assert_eq!(check_hello_ack(ack), Ok([1u8; 32]));
}

#[test]
fn hello_for_another_flow_is_refused() {
    let (ack, r) = answer_hello([1; 32], &[7; 32], &[8; 32]);
    assert!(!ack.accepted);
    assert_eq!(ack.reason.as_deref(), Some("info hash mismatch"));
    assert_eq!(r, Err(PeerError::InfoHashMismatch));
    assert_eq!(check_hello_ack(ack), Err(PeerError::HelloRejected("info hash mismatch".into())));
    let bare = HelloAck { peer_id: [0; 32], accepted: false, reason: None };
    assert_eq!(check_hello_ack(bare), Err(PeerError::HelloRejected("no reason".into())));
}

#[test]
fn inbound_hello_finds_the_flow() {
    let flows = vec![[1u8; 32], [2u8; 32], [2u8; 32]];
    let (ack, k) = answer_inbound([9; 32], &flows, &[2; 32]);
    assert!(ack.accepted);
    assert_eq!(k, Some(1));
    let (ack, k) = answer_inbound([9; 32], &flows, &[3; 32]);
    assert!(!ack.accepted);
    assert_eq!(k, None);
    assert_eq!(ack.reason.as_deref(), Some("flow not found"));
}

#[test]
fn session_step_per_message() {
    let mut s = SessionState::new(2);
    s.add_pending(PendingRequest { file_index: 0, piece_index: 1, begin: 0, length: 16384 });
    assert_eq!(s.on_event(&SessionEvent::HavePiece { file_index: 0, piece_index: 2 }), SessionAction::Notify);
    assert!(s.peer_has_piece(0, 2));
    assert!(!s.peer_has_piece(0, 1));
    assert_eq!(s.on_event(&SessionEvent::HaveBitmap { file_index: 1, bitmap: vec![0b1000_0000] }), SessionAction::Notify);
    assert!(s.peer_has_piece(1, 0));
    assert!(!s.peer_has_piece(1, 1));
    assert_eq!(
        s.on_event(&SessionEvent::Request { file_index: 0, piece_index: 3, begin: 0, length: 7 }),
        SessionAction::Answer { file_index: 0, piece_index: 3, begin: 0, length: 7 }
    );
    assert_eq!(s.on_event(&SessionEvent::Cancel { file_index: 0, piece_index: 1, begin: 0 }), SessionAction::Nothing);
    assert!(s.pending.is_empty());
    assert_eq!(s.on_event(&SessionEvent::HaveNone { file_index: 0 }), SessionAction::Notify);
    assert!(!s.peer_has_piece(0, 2));
    assert_eq!(s.on_event(&SessionEvent::HaveAll { file_index: 0 }), SessionAction::Notify);
    assert!(s.peer_has_piece(0, 999));
    assert_eq!(s.on_event(&SessionEvent::KeepAlive), SessionAction::Nothing);
    assert_eq!(s.on_event(&SessionEvent::Reject), SessionAction::Nothing);
    assert_eq!(s.on_event(&SessionEvent::Bye), SessionAction::Close);
}

#[test]
fn received_block_drops_its_request() {
    let mut s = SessionState::new(1);
    s.add_pending(PendingRequest { file_index: 0, piece_index: 0, begin: 16384, length: 16384 });
    s.add_pending(PendingRequest { file_index: 0, piece_index: 0, begin: 0, length: 16384 });
    assert_eq!(s.on_event(&SessionEvent::Piece { file_index: 0, piece_index: 0, begin: 0 }), SessionAction::Notify);
    assert_eq!(s.pending.len(), 1);
    assert_eq!(s.pending[0].begin, 16384);
}

#[test]
fn request_answered_or_refused() {
    assert_eq!(
        request_reply(1, 2, 3, 4, Some(vec![9, 9])),
        RequestReply::Piece { file_index: 1, piece_index: 2, begin: 3, data: vec![9, 9] }
    );
    assert_eq!(request_reply(1, 2, 3, 4, None), RequestReply::Reject { file_index: 1, piece_index: 2, begin: 3, length: 4 });
}
