use bitturbulence::pieces::scheduler::types::{BlockState, MAX_STREAMS_PER_BLOCK};
use bitturbulence::pieces::scheduler::BlockScheduler;
use bitturbulence::protocol::metainfo::BLOCK_SIZE;
use bitturbulence::protocol::priority::Priority;

const PL: u32 = 4 * BLOCK_SIZE; // 64 KiB = 4 blocks

fn sched(num_pieces: usize) -> BlockScheduler {
    BlockScheduler::new(0, num_pieces, PL, PL)
}

#[test]
fn priority_pending_before_inflight() {
    let mut s = sched(2);
    s.add_peer_bitfield(&[true, true]);
    let peer = vec![true, true];

    let t1 = s.schedule(&peer).unwrap();
    assert_eq!((t1.pi, t1.bi), (0, 0));

    let t2 = s.schedule(&peer).unwrap();
    assert!(t2.bi != 0 || t2.pi != 0, "a pending block comes before a second stream on (0,0)");
    assert_eq!(t2.pi, 0, "piece 0 still has pending blocks");
    assert_eq!(t2.bi, 1);
}

#[test]
fn fills_all_blocks_before_redundancy() {
    let mut s = sched(1);
    s.add_peer_bitfield(&[true]);
    let peer = vec![true];

    let tasks: Vec<_> = (0..4).map(|_| s.schedule(&peer).unwrap()).collect();
    let blocks: std::collections::HashSet<u32> = tasks.iter().map(|t| t.bi).collect();
    assert_eq!(blocks.len(), 4, "4 streams cover 4 different blocks");

    let t5 = s.schedule(&peer).unwrap();
    match s.block_state[0][t5.bi as usize] {
        BlockState::InFlight(2) => {}
        other => panic!("expected InFlight(2), got {other:?}"),
    }
}

#[test]
fn max_streams_respected() {
    let mut s = sched(1);
    s.add_peer_bitfield(&[true]);
    let peer = vec![true];

    for _ in 0..MAX_STREAMS_PER_BLOCK {
        let _ = s.schedule(&peer);
    }
    s.mark_block_done(0, 1, [0u8; 32]);
    s.mark_block_done(0, 2, [0u8; 32]);
    s.mark_block_done(0, 3, [0u8; 32]);

    for expected_n in 2..=MAX_STREAMS_PER_BLOCK {
        let t = s.schedule(&peer).unwrap();
        assert_eq!(t.bi, 0);
        match s.block_state[0][0] {
            BlockState::InFlight(n) => assert_eq!(n, expected_n),
            other => panic!("expected InFlight({expected_n}), got {other:?}"),
        }
    }
    assert!(s.schedule(&peer).is_none(), "no block beyond the stream limit");
}

#[test]
fn rarest_first_ordering() {
    let mut s = sched(3);
    s.add_peer_bitfield(&[true, true, true]);
    s.add_peer_bitfield(&[true, false, true]);
    s.add_peer_bitfield(&[false, false, true]);
    let peer = vec![true, true, true];
    let t = s.schedule(&peer).unwrap();
    assert_eq!(t.pi, 1, "piece 1 is the rarest (availability 1)");
}

#[test]
fn mark_block_done_triggers_piece_complete() {
    let mut s = sched(1);
    s.add_peer_bitfield(&[true]);
    let peer = vec![true];

    for bi in 0u32..3 {
        s.schedule(&peer);
        assert!(!s.mark_block_done(0, bi, [0u8; 32]));
    }
    s.schedule(&peer);
    assert!(s.mark_block_done(0, 3, [0u8; 32]));
    assert!(!s.mark_block_done(0, 3, [0u8; 32]));
}

#[test]
fn schedule_pending_only_returns_none_when_all_inflight() {
    let mut s = sched(1);
    s.add_peer_bitfield(&[true]);
    let peer = vec![true];

    for _ in 0..4 {
        s.schedule(&peer);
    }
    assert!(s.schedule_pending(&peer).is_none());
}

#[test]
fn mark_block_failed_returns_to_pending() {
    let mut s = sched(1);
    s.add_peer_bitfield(&[true]);
    let peer = vec![true];

    s.schedule(&peer);
    s.mark_block_failed(0, 0);
    assert_eq!(s.block_state[0][0], BlockState::Pending);

    let t = s.schedule(&peer).unwrap();
    assert_eq!((t.pi, t.bi), (0, 0));
}

#[test]
fn hash_failed_resets_all_blocks() {
    let mut s = sched(1);
    s.add_peer_bitfield(&[true]);
    let peer = vec![true];

    for bi in 0u32..4 {
        s.schedule(&peer);
        s.mark_block_done(0, bi, [0u8; 32]);
    }
    assert!(s.piece_verifying[0]);

    s.mark_piece_hash_failed(0);
    assert!(!s.piece_verifying[0]);
    assert!(s.block_state[0].iter().all(|s| *s == BlockState::Pending));
}

#[test]
fn is_complete_after_all_pieces_verified() {
    let mut s = sched(2);
    assert!(!s.is_complete());
    s.mark_piece_verified(0);
    assert!(!s.is_complete());
    s.mark_piece_verified(1);
    assert!(s.is_complete());
}

#[test]
fn skips_done_and_verifying_pieces() {
    let mut s = sched(3);
    s.add_peer_bitfield(&[true, true, true]);
    let peer = vec![true, true, true];

    s.mark_piece_verified(0);
    s.piece_verifying[2] = true;

    let t = s.schedule(&peer).unwrap();
    assert_eq!(t.pi, 1);
}

#[test]
fn priority_default_is_normal() {
    let s = sched(1);
    assert_eq!(s.priority(), Priority::Normal);
}

#[test]
fn set_priority_changes_priority() {
    let mut s = sched(1);
    s.set_priority(Priority::Maximum);
    assert_eq!(s.priority(), Priority::Maximum);
}

#[test]
fn pending_blocks_counts_only_pending() {
    let mut s = sched(2); // 2 pieces x 4 blocks = 8 blocks
    s.add_peer_bitfield(&[true, true]);
    let peer = vec![true, true];

    assert_eq!(s.pending_blocks(), 8);

    s.schedule(&peer); // pi=0, bi=0 -> InFlight(1)
    s.schedule(&peer); // pi=0, bi=1 -> InFlight(1)
    assert_eq!(s.pending_blocks(), 6);

    s.mark_block_done(0, 0, [0u8; 32]);
    assert_eq!(s.pending_blocks(), 6);

    s.mark_block_failed(0, 1); // bi=1 -> Pending
    for bi in 0u32..4 {
        if s.block_state[0][bi as usize] == BlockState::Pending {
            s.schedule(&peer);
        }
        s.mark_block_done(0, bi, [0u8; 32]);
    }
    assert!(s.piece_verifying[0]);
    s.mark_piece_verified(0);

    assert_eq!(s.pending_blocks(), 4);
}

#[test]
fn pending_blocks_zero_when_complete() {
    let mut s = sched(1);
    s.add_peer_bitfield(&[true]);
    let peer = vec![true];
    for bi in 0u32..4 {
        s.schedule(&peer);
        s.mark_block_done(0, bi, [0u8; 32]);
    }
    s.mark_piece_verified(0);
    assert_eq!(s.pending_blocks(), 0);
}

#[test]
fn min_availability_returns_min_of_pending_pieces() {
    let mut s = sched(3);
    s.add_peer_bitfield(&[true, true, true]);
    s.add_peer_bitfield(&[true, false, true]);
    s.add_peer_bitfield(&[true, false, false]);
    // availability [3, 1, 2]
    assert_eq!(s.min_availability(), 1);
}

#[test]
fn min_availability_ignores_done_pieces() {
    let mut s = sched(2);
    s.add_peer_bitfield(&[true, true]);
    s.add_peer_bitfield(&[true, false]);
    // availability [2, 1]
    s.mark_piece_verified(1);
    assert_eq!(s.min_availability(), 2);
}

#[test]
fn min_availability_returns_max_when_complete() {
    let mut s = sched(2);
    s.mark_piece_verified(0);
    s.mark_piece_verified(1);
    assert_eq!(s.min_availability(), u32::MAX);
}

#[test]
fn seeder_marked_pieces_are_complete() {
    let mut s = sched(3);
    for pi in 0..3u32 {
        s.mark_piece_verified(pi);
    }
    assert!(s.is_complete());
    assert_eq!(s.num_complete_pieces(), 3);
}

#[test]
fn last_piece_blocks_are_shorter() {
    // 2 pieces: a full one and a last one of 20000 bytes (2 blocks).
    let mut s = BlockScheduler::new(3, 2, PL, 20000);
    s.add_peer_bitfield(&[false, true]);
    let peer = vec![false, true];
    let t0 = s.schedule(&peer).unwrap();
    assert_eq!((t0.fi, t0.pi, t0.bi, t0.begin, t0.length), (3, 1, 0, 0, BLOCK_SIZE));
    let t1 = s.schedule(&peer).unwrap();
    assert_eq!((t1.pi, t1.bi, t1.begin, t1.length), (1, 1, BLOCK_SIZE, 20000 - BLOCK_SIZE));
    assert_eq!(s.block_state[1].len(), 2);
}

#[test]
fn piece_block_hashes_only_when_all_done() {
    let mut s = BlockScheduler::new(0, 1, 2 * BLOCK_SIZE, 2 * BLOCK_SIZE);
    assert!(s.piece_block_hashes(0).is_none());
    s.mark_block_done(0, 0, [1u8; 32]);
    assert!(s.piece_block_hashes(0).is_none());
    s.mark_block_done(0, 1, [2u8; 32]);
    assert_eq!(s.piece_block_hashes(0), Some(vec![[1u8; 32], [2u8; 32]]));
    assert!(s.piece_block_hashes(5).is_none());
}

#[test]
fn removing_a_bitfield_undoes_adding_it() {
    let mut s = sched(3);
    s.add_peer_bitfield(&[true, false, true]);
    s.add_peer_have(1);
    s.remove_peer_bitfield(&[true, false, true]);
    assert_eq!(s.availability, vec![0, 1, 0]);
}

#[test]
fn out_of_range_marks_change_nothing() {
    let mut s = sched(1);
    assert!(!s.mark_block_done(7, 0, [0u8; 32]));
    assert!(!s.mark_block_done(0, 9, [0u8; 32]));
    s.mark_block_failed(7, 0);
    s.mark_piece_verified(7);
    s.mark_piece_hash_failed(7);
    assert_eq!(s.pending_blocks(), 4);
    assert!(!s.is_complete());
}

#[test]
fn seeder_init_is_complete() {
    let mut s = sched(3);
    for pi in 0..3u32 {
        s.mark_piece_verified(pi);
    }
    assert!(s.is_complete());
    let progress = s.num_complete_pieces() as f32 / s.num_pieces() as f32;
    assert_eq!(progress, 1.0);
}
