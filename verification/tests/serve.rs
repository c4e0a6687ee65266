use bitturbulence::client::serve::{serve_check, serve_reply, BlockKey, CancelSet};
use bitturbulence::client::worker::{ServeAction, ServeReply};

fn key(fi: u16, pi: u32, begin: u32) -> BlockKey {
    BlockKey { fi, pi, begin }
}

#[test]
fn cancelled_request_is_rejected_once() {
    let have = vec![vec![true, true]];
    let mut cancels = CancelSet::new();
    assert!(cancels.insert(key(0, 1, 0)));
    assert!(!cancels.insert(key(0, 1, 0)));
    assert_eq!(serve_check(&have, &mut cancels, key(0, 1, 0)), ServeAction::Reject);
    assert!(!cancels.contains(key(0, 1, 0)));
    // The same request again is served.
    assert_eq!(serve_check(&have, &mut cancels, key(0, 1, 0)), ServeAction::ReadBlock);
}

#[test]
fn request_past_the_files_is_rejected() {
    let have = vec![vec![true]];
    let mut cancels = CancelSet::new();
    assert_eq!(serve_check(&have, &mut cancels, key(3, 0, 0)), ServeAction::Reject);
    assert_eq!(serve_check(&have, &mut cancels, key(0, 9, 0)), ServeAction::Reject);
    assert_eq!(serve_check(&vec![vec![false]], &mut cancels, key(0, 0, 0)), ServeAction::Reject);
}

#[test]
fn cancel_during_read_rejects_and_clears() {
    let mut cancels = CancelSet::new();
    cancels.insert(key(0, 0, 16384));
    assert_eq!(serve_reply(&mut cancels, key(0, 0, 16384), true), ServeReply::Reject);
    assert!(!cancels.contains(key(0, 0, 16384)));
    assert_eq!(serve_reply(&mut cancels, key(0, 0, 16384), true), ServeReply::Piece);
}

#[test]
fn failed_read_is_rejected_and_keeps_the_set() {
    let mut cancels = CancelSet::new();
    cancels.insert(key(1, 2, 3));
    assert_eq!(serve_reply(&mut cancels, key(1, 2, 3), false), ServeReply::Reject);
    assert!(cancels.contains(key(1, 2, 3)));
    assert_eq!(serve_reply(&mut cancels, key(0, 0, 0), false), ServeReply::Reject);
}
