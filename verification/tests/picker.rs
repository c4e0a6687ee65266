use bitturbulence::pieces::picker::PiecePicker;

#[test]
fn picks_rarest_piece() {
    let mut picker = PiecePicker::new(4);
    // peer A has pieces 0,1,2,3
    picker.add_peer_bitfield(&[true, true, true, true]);
    // peer B has piece 2 only
    picker.add_peer_bitfield(&[false, false, true, false]);
    let peer = vec![true, true, true, true];
    let pick = picker.pick(&peer).unwrap();
    assert_ne!(pick, 2);
}

#[test]
fn skips_completed_pieces() {
    let mut picker = PiecePicker::new(3);
    picker.add_peer_bitfield(&[true, true, true]);
    picker.mark_complete(0);
    picker.mark_complete(2);
    let peer = vec![true, true, true];
    let pick = picker.pick(&peer).unwrap();
    assert_eq!(pick, 1);
}

#[test]
fn returns_none_when_peer_has_nothing_we_need() {
    let mut picker = PiecePicker::new(3);
    picker.add_peer_bitfield(&[true, true, true]);
    picker.mark_complete(0);
    picker.mark_complete(1);
    picker.mark_complete(2);
    let peer = vec![true, true, true];
    assert!(picker.pick(&peer).is_none());
}

#[test]
fn is_complete_when_all_done() {
    let mut picker = PiecePicker::new(2);
    assert!(!picker.is_complete());
    picker.mark_complete(0);
    picker.mark_complete(1);
    assert!(picker.is_complete());
}

#[test]
fn picked_piece_is_not_picked_again() {
    let mut picker = PiecePicker::new(2);
    picker.add_peer_bitfield(&[true, true]);
    let peer = vec![true, true];
    let a = picker.pick(&peer).unwrap();
    let b = picker.pick(&peer).unwrap();
    assert_ne!(a, b);
    assert!(picker.pick(&peer).is_none());
}

#[test]
fn failed_piece_can_be_picked_again() {
    let mut picker = PiecePicker::new(1);
    picker.add_peer_bitfield(&[true]);
    let peer = vec![true];
    assert_eq!(picker.pick(&peer), Some(0));
    assert!(picker.pick(&peer).is_none());
    picker.mark_failed(0);
    assert_eq!(picker.pick(&peer), Some(0));
}

#[test]
fn rarest_first_with_have_and_removal() {
    let mut picker = PiecePicker::new(3);
    picker.add_peer_bitfield(&[true, true, true]);
    picker.add_peer_bitfield(&[true, false, true]);
    picker.add_peer_have(2);
    // availability [2, 1, 3]
    let peer = vec![true, true, true];
    assert_eq!(picker.pick(&peer), Some(1));
    picker.remove_peer_bitfield(&[true, false, true]);
    // availability [1, 1, 2]; piece 1 is in progress
    assert_eq!(picker.pick(&peer), Some(0));
}

#[test]
fn num_complete_counts_marked_pieces() {
    let mut picker = PiecePicker::new(4);
    picker.mark_complete(1);
    picker.mark_complete(3);
    picker.mark_complete(3);
    assert_eq!(picker.num_complete(), 2);
}

#[test]
fn join_then_leave_restores_availability() {
    let mut picker = PiecePicker::new(3);
    picker.add_peer_bitfield(&[true, false, true]);
    // A peer joins and leaves: counts are back to [1, 0, 1].
    picker.add_peer_bitfield(&[true, true, false]);
    picker.remove_peer_bitfield(&[true, true, false]);
    // Piece 1 is again the rarest.
    assert_eq!(picker.pick(&[true, true, true]), Some(1));
    // Leaving twice never goes below zero.
    picker.remove_peer_bitfield(&[true, false, true]);
    picker.remove_peer_bitfield(&[true, false, true]);
    picker.add_peer_bitfield(&[false, false, true]);
    assert_eq!(picker.pick(&[true, false, true]), Some(0));
}
