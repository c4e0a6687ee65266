use bitturbulence::client::announce::{bytes_left, next_event, promote, shuffled_tier, KnownPeers};
use bitturbulence::client::avail::{bitfield_to_bytes, bytes_to_bitfield, PeerAvail};
use bitturbulence::client::cli::truncate;
use bitturbulence::client::create::{build_file_entry, build_metainfo};
use bitturbulence::client::flow::FlowState;
use bitturbulence::client::ipc::{dispatch, FlowSnapshot, IpcRequest, IpcResponse};
use bitturbulence::client::link::{
    availability_announcement, max_active, Announcement, LinkHealth, PeerLink, DEFAULT_STREAMS, MAX_STREAMS,
};
use bitturbulence::client::sched::SchedulerTable;
use bitturbulence::client::state::{new_flow_entry, ClientError, ClientState, DownloadState, FlowEntry, StartOutcome};
use bitturbulence::client::worker::{
    block_acceptable, block_ranges, check_hash_response, has_piece_bit, hash_answer, reply_after_read, serve_decision,
    written_result, HashCache, ServeAction, ServeReply, StreamResult, SNUB_TIMEOUT_SECS,
};
use bitturbulence::pieces::scheduler::BlockScheduler;
use bitturbulence::pieces::verify::{hash_block, merkle_parent, piece_root, verify_piece};
use bitturbulence::protocol::metainfo::{piece_length_for_size, FileEntry, Metainfo, BLOCK_SIZE};
use bitturbulence::protocol::priority::Priority;
use bitturbulence::tracker::types::{AnnounceEvent, PeerInfo};

#[test]
fn stream_result_block_timeout_matches_correctly() {
    let r = StreamResult::BlockTimeout { stream_id: 2, fi: 0, pi: 5, bi: 1 };
    match r {
        StreamResult::BlockTimeout { stream_id, fi, pi, bi } => {
            assert_eq!(stream_id, 2);
            assert_eq!(fi, 0);
            assert_eq!(pi, 5);
            assert_eq!(bi, 1);
        }
        _ => panic!("expected BlockTimeout"),
    }
}

#[test]
fn stream_result_block_timeout_is_not_stream_dead() {
    let timeout = StreamResult::BlockTimeout { stream_id: 0, fi: 0, pi: 0, bi: 0 };
    assert!(!matches!(timeout, StreamResult::StreamDead { .. }), "BlockTimeout is not StreamDead");
}

#[test]
fn snub_timeout_is_at_least_30_seconds() {
    assert!(SNUB_TIMEOUT_SECS >= 30, "a slow but honest peer is not snubbed before 30 s");
}

fn make_table(num_pieces: usize) -> SchedulerTable {
    let sched = BlockScheduler::new(0, num_pieces, BLOCK_SIZE, BLOCK_SIZE);
    SchedulerTable::new(vec![sched])
}

#[test]
fn is_complete_with_no_schedulers() {
    let t = SchedulerTable::new(vec![]);
    assert!(t.is_complete(), "no schedulers is an empty, complete flow");
}

#[test]
fn is_complete_after_all_pieces_marked() {
    let mut t = make_table(2);
    assert!(!t.is_complete());
    t.mark_piece_verified(0, 0);
    assert!(!t.is_complete(), "piece 1 is missing");
    t.mark_piece_verified(0, 1);
    assert!(t.is_complete(), "every piece verified");
}

#[test]
fn block_done_signals_piece_ready_for_single_block_piece() {
    let mut t = make_table(1);
    assert!(t.block_done(0, 0, 0, [0xABu8; 32]), "a one-block piece is ready at once");
}

#[test]
fn block_done_oob_fi_does_not_panic() {
    let mut t = make_table(1);
    assert!(!t.block_done(99, 0, 0, [0u8; 32]), "an unknown file gives false");
}

#[test]
fn block_failed_oob_fi_does_not_panic() {
    let mut t = make_table(1);
    t.block_failed(99, 0, 0);
    t.add_peer_bitfield(99, &[true]);
    t.remove_peer_bitfield(99, &[true]);
    t.add_peer_have(99, 0);
    assert!(!t.is_complete());
}

#[test]
fn pick_block_returns_none_for_have_none_peer() {
    let mut t = make_table(2);
    let avail = vec![PeerAvail::HaveNone];
    assert!(t.pick_block(&avail, false).is_none(), "a peer without pieces offers no block");
}

#[test]
fn pick_block_returns_task_for_have_all_peer() {
    let mut t = make_table(2);
    let avail = vec![PeerAvail::HaveAll];
    assert!(t.pick_block(&avail, false).is_some(), "a peer with every piece offers a block");
}

#[test]
fn total_pending_decreases_on_verify() {
    let mut t = make_table(3);
    assert_eq!(t.total_pending(), 3);
    t.mark_piece_verified(0, 0);
    assert_eq!(t.total_pending(), 2);
    t.mark_piece_verified(0, 1);
    t.mark_piece_verified(0, 2);
    assert_eq!(t.total_pending(), 0);
}

#[test]
fn pick_block_prefers_higher_priority_file() {
    let low = BlockScheduler::new(0, 1, BLOCK_SIZE, BLOCK_SIZE);
    let mut high = BlockScheduler::new(1, 1, BLOCK_SIZE, BLOCK_SIZE);
    high.set_priority(Priority::Maximum);
    let mut t = SchedulerTable::new(vec![low, high]);
    let avail = vec![PeerAvail::HaveAll, PeerAvail::HaveAll];
    let task = t.pick_block(&avail, false).unwrap();
    assert_eq!(task.fi, 1);
    let task2 = t.pick_block(&avail, false).unwrap();
    assert_eq!(task2.fi, 0);
}

#[test]
fn pick_block_in_endgame_doubles_up() {
    let mut t = make_table(1);
    let avail = vec![PeerAvail::HaveAll];
    assert!(t.pick_block(&avail, false).is_some());
    assert!(t.pick_block(&avail, false).is_none(), "outside endgame only pending blocks are handed out");
    let again = t.pick_block(&avail, true).unwrap();
    assert_eq!((again.fi, again.pi, again.bi), (0, 0, 0));
}

fn minimal_meta() -> Metainfo {
    Metainfo {
        name: "test.bin".into(),
        info_hash: [0u8; 32],
        files: vec![FileEntry {
            path: vec!["test.bin".into()],
            size: BLOCK_SIZE as u64,
            piece_hashes: vec![[0u8; 32]],
            priority: Priority::Normal,
        }],
        trackers: vec![],
        tracker_tiers: vec![],
        comment: None,
    }
}

#[test]
fn signal_if_complete_fires_when_seeding() {
    let meta = minimal_meta();
    let mut f = FlowState::new(&meta, &[1], true, None);
    assert!(!f.complete, "nothing is signalled before the call");
    assert!(f.signal_if_complete());
    assert!(f.complete, "a seeding flow is complete");
}

#[test]
fn signal_if_complete_no_fire_when_incomplete() {
    let meta = minimal_meta();
    let mut f = FlowState::new(&meta, &[1], false, None);
    assert!(!f.signal_if_complete());
    assert!(!f.complete, "pieces are still missing");
}

#[test]
fn signal_if_complete_is_idempotent() {
    let meta = minimal_meta();
    let mut f = FlowState::new(&meta, &[1], true, None);
    assert!(f.signal_if_complete());
    assert!(!f.signal_if_complete(), "the second call signals nothing new");
    assert!(f.complete);
}

#[test]
fn resume_restores_verified_pieces() {
    let meta = minimal_meta();
    let saved = vec![vec![true]];
    let f = FlowState::new(&meta, &[1], false, Some(&saved));
    assert!(f.is_complete(), "a restored piece completes the flow");
    assert!(f.have[0][0]);
    assert_eq!(f.downloaded, BLOCK_SIZE as u64);
}

#[test]
fn seeding_ignores_saved_progress() {
    let meta = minimal_meta();
    let saved = vec![vec![false]];
    let f = FlowState::new(&meta, &[1], true, Some(&saved));
    assert!(f.is_complete());
    assert_eq!(f.downloaded, 0);
    assert_eq!(f.our_bitfield(0), vec![true]);
}

#[test]
fn verify_and_complete_checks_the_merkle_root() {
    let data = vec![0x5Au8; BLOCK_SIZE as usize];
    let block_hash = hash_block(&data);
    let mut meta = minimal_meta();
    meta.files[0].piece_hashes[0] = piece_root(&data);
    let mut f = FlowState::new(&meta, &[1], false, None);
    // Hashes not all stored yet: refused.
    assert!(!f.verify_and_complete(&meta, 0, 0));
    // A wrong block hash: refused, and the piece goes back to pending.
    assert!(f.table.block_done(0, 0, 0, [1u8; 32]));
    assert!(!f.verify_and_complete(&meta, 0, 0));
    assert!(!f.have[0][0]);
    assert_eq!(f.table.total_pending(), 1);
    // The right block hash: accepted.
    assert!(f.table.block_done(0, 0, 0, block_hash));
    assert!(f.verify_and_complete(&meta, 0, 0));
    assert!(f.have[0][0]);
    assert_eq!(f.downloaded, BLOCK_SIZE as u64);
    assert!(f.complete);
    assert!(f.is_complete());
}

#[test]
fn bitfield_bytes_roundtrip() {
    let bits = vec![true, false, true, false, false, false, false, false, true];
    let bytes = bitfield_to_bytes(&bits);
    assert_eq!(bytes, vec![0b1010_0000, 0b1000_0000]);
    assert_eq!(bytes_to_bitfield(&bytes, bits.len()), bits);
    assert_eq!(bytes_to_bitfield(&[0xFF], 10), vec![true, true, true, true, true, true, true, true, false, false]);
}

#[test]
fn peer_avail_as_bitfield() {
    assert_eq!(PeerAvail::Unknown.as_bitfield(2), vec![false, false]);
    assert_eq!(PeerAvail::HaveAll.as_bitfield(3), vec![true, true, true]);
    assert_eq!(PeerAvail::HaveNone.as_bitfield(1), vec![false]);
    assert_eq!(PeerAvail::Bitmap(vec![true]).as_bitfield(3), vec![true, false, false]);
    assert_eq!(PeerAvail::Bitmap(vec![true, true, true]).as_bitfield(2), vec![true, true]);
}

#[test]
fn record_have_piece_builds_a_bitmap() {
    let mut a = PeerAvail::Unknown;
    a.record_have_piece(1, 3);
    assert_eq!(a.as_bitfield(3), vec![false, true, false]);
    let mut b = PeerAvail::HaveAll;
    b.record_have_piece(0, 2);
    assert_eq!(b.as_bitfield(2), vec![true, true]);
}

#[test]
fn link_health_and_modes() {
    let mut h = LinkHealth::new();
    assert!(!h.is_unstable());
    assert!(!h.endgame_mode(17));
    assert!(h.endgame_mode(16));
    for _ in 0..3 {
        h.on_block_fail();
    }
    assert!(h.is_unstable());
    assert!(h.endgame_mode(1000));
    for _ in 0..32 {
        h.on_block_ok();
    }
    assert_eq!(h, LinkHealth { recent_fails: 0, blocks_ok: 0 });
    assert_eq!(max_active(true), MAX_STREAMS);
    assert_eq!(max_active(false), DEFAULT_STREAMS);
}

#[test]
fn availability_announcement_kinds() {
    assert!(matches!(availability_announcement(&[true, true]), Announcement::HaveAll));
    assert!(matches!(availability_announcement(&[]), Announcement::HaveAll));
    assert!(matches!(availability_announcement(&[false, false]), Announcement::HaveNone));
    match availability_announcement(&[false, true, false]) {
        Announcement::HaveBitmap(b) => assert_eq!(b, vec![0b0100_0000]),
        other => panic!("expected a bitmap, got {other:?}"),
    }
}

#[test]
fn peer_link_recounts_availability() {
    let mut table = SchedulerTable::new(vec![BlockScheduler::new(0, 3, BLOCK_SIZE, BLOCK_SIZE)]);
    let mut link = PeerLink::new(1);
    link.on_have_all(&mut table, 0, 3);
    assert_eq!(table.schedulers[0].availability, vec![1, 1, 1]);
    link.on_have_bitmap(&mut table, 0, 3, &[0b0100_0000]);
    assert_eq!(table.schedulers[0].availability, vec![0, 1, 0]);
    link.on_have_piece(&mut table, 0, 2, 3);
    assert_eq!(table.schedulers[0].availability, vec![0, 1, 1]);
    match &link.peer_avail[0] {
        PeerAvail::Bitmap(b) => assert_eq!(b, &vec![false, true, true]),
        other => panic!("expected a bitmap, got {other:?}"),
    }
    link.on_have_none(&mut table, 0, 3);
    assert_eq!(table.schedulers[0].availability, vec![0, 0, 0]);
    // After "none", one announced piece makes a bitmap of that piece alone.
    link.on_have_piece(&mut table, 0, 0, 3);
    assert_eq!(table.schedulers[0].availability, vec![1, 0, 0]);
    match &link.peer_avail[0] {
        PeerAvail::Bitmap(b) => assert_eq!(b, &vec![true, false, false]),
        other => panic!("expected a bitmap, got {other:?}"),
    }
    link.on_have_none(&mut table, 0, 3);
    // An unknown file changes nothing.
    link.on_have_all(&mut table, 5, 3);
    assert_eq!(table.schedulers[0].availability, vec![0, 0, 0]);
}

#[test]
fn worker_decisions() {
    assert_eq!(serve_decision(true, true), ServeAction::Reject);
    assert_eq!(serve_decision(false, false), ServeAction::Reject);
    assert_eq!(serve_decision(false, true), ServeAction::ReadBlock);
    assert!(has_piece_bit(&[false, true], 1));
    assert!(!has_piece_bit(&[false, true], 0));
    assert!(!has_piece_bit(&[true], 5));
    let announced = vec![[1u8; 32], [2u8; 32]];
    assert!(block_acceptable(&[2u8; 32], &announced, 1));
    assert!(!block_acceptable(&[3u8; 32], &announced, 1));
    assert!(block_acceptable(&[3u8; 32], &announced, 7));
}

#[test]
fn hash_response_is_kept_only_when_it_matches() {
    let a = [1u8; 32];
    let b = [2u8; 32];
    let root = merkle_parent(&a, &b);
    assert_eq!(check_hash_response(vec![a, b], Some(&root)), vec![a, b]);
    assert!(check_hash_response(vec![a, b], Some(&[0u8; 32])).is_empty());
    assert!(check_hash_response(vec![a, b], None).is_empty());
    assert!(check_hash_response(vec![], Some(&root)).is_empty());
}

#[test]
fn block_ranges_cover_the_piece() {
    assert_eq!(block_ranges(2 * BLOCK_SIZE + 10), vec![(0, BLOCK_SIZE), (BLOCK_SIZE, BLOCK_SIZE), (2 * BLOCK_SIZE, 10)]);
    assert_eq!(block_ranges(BLOCK_SIZE), vec![(0, BLOCK_SIZE)]);
    assert!(block_ranges(0).is_empty());
}

#[test]
fn announce_helpers() {
    let mut tier = vec!["a".to_string(), "b".to_string(), "c".to_string()];
    promote(&mut tier, 2);
    assert_eq!(tier, vec!["c", "a", "b"]);
    promote(&mut tier, 0);
    assert_eq!(tier, vec!["c", "a", "b"]);
    assert_eq!(bytes_left(100, 30), 70);
    assert_eq!(bytes_left(10, 30), 0);
    assert_eq!(next_event(true), AnnounceEvent::Completed);
    assert_eq!(next_event(false), AnnounceEvent::Update);
}

#[test]
fn known_peers_take_new() {
    let mut k = KnownPeers::new();
    assert!(k.insert(&"x:1".to_string()));
    assert!(!k.insert(&"x:1".to_string()));
    let peers = vec![
        PeerInfo { peer_id: "p".into(), addr: "x:1".into() },
        PeerInfo { peer_id: "q".into(), addr: "y:2".into() },
        PeerInfo { peer_id: "r".into(), addr: "y:2".into() },
    ];
    assert_eq!(k.take_new(&peers), vec!["y:2".to_string()]);
    assert!(k.take_new(&peers).is_empty());
    assert_eq!(k.addrs.len(), 2);
}

#[test]
fn truncate_cuts_with_ellipsis() {
    assert_eq!(truncate("short", 10), "short");
    assert_eq!(truncate("exactly10!", 10), "exactly10!");
    assert_eq!(truncate("a longer name", 5), "a lo…");
}

#[test]
fn create_builds_entries_and_metainfo() {
    let data: Vec<u8> = (0..(64 * 1024 + 3)).map(|i| (i % 13) as u8).collect();
    let e = build_file_entry(vec!["d".into(), "f.bin".into()], &data, Priority::High);
    assert_eq!(e.size, data.len() as u64);
    assert_eq!(e.piece_hashes.len(), 2);
    assert_eq!(e.piece_hashes[0], piece_root(&data[..64 * 1024]));
    assert_eq!(e.piece_hashes[1], piece_root(&data[64 * 1024..]));
    let m = build_metainfo("flow".into(), vec![e.clone()], vec!["t1".into(), "t2".into()], Some("c".into()));
    assert_eq!(m.tracker_tiers, vec![vec!["t1".to_string()], vec!["t2".to_string()]]);
    assert_eq!(m.info_hash, m.compute_info_hash());
    let m2 = build_metainfo("flow".into(), vec![e], vec![], None);
    assert_eq!(m.info_hash, m2.info_hash, "the info hash depends on the files only");
}

#[test]
fn empty_file_has_no_pieces() {
    let e = build_file_entry(vec!["e".into()], &[], Priority::Normal);
    assert!(e.piece_hashes.is_empty());
    assert_eq!(e.size, 0);
}

fn entry(id: &str, hash: &str, state: DownloadState) -> FlowEntry {
    FlowEntry {
        id: id.into(),
        info_hash: hash.into(),
        name: format!("flow-{id}"),
        save_path: "/tmp/x".into(),
        metainfo_path: "/tmp/x.bitflow".into(),
        state,
        downloaded: 0,
        total_size: 100,
        peers: 0,
    }
}

#[test]
fn client_state_lookup_and_updates() {
    let mut s = ClientState::new();
    s.add(entry("abcd1234", "abcd1234ffff", DownloadState::Queued));
    s.add(entry("00112233", "00112233eeee", DownloadState::Paused));
    assert_eq!(s.position("00112233"), Some(1));
    assert_eq!(s.position("abcd1234ff"), Some(0), "a prefix of the info hash names the flow");
    assert_eq!(s.position("zz"), None);
    assert_eq!(s.set_state("abcd", DownloadState::Downloading), Ok(()));
    assert_eq!(s.get("abcd1234").unwrap().state, DownloadState::Downloading);
    assert_eq!(s.set_state("nope", DownloadState::Paused), Err(ClientError::FlowNotFound("nope".into())));
    assert_eq!(s.start_flow("abcd1234"), Ok(StartOutcome::AlreadyDownloading));
    assert_eq!(s.start_flow("00112233"), Ok(StartOutcome::Started));
    assert_eq!(s.flows_to_start(), vec![(0, false), (1, false)]);
    assert!(s.mark_seeding("0011", 100));
    assert_eq!(s.get("00112233").unwrap().state, DownloadState::Seeding);
    assert_eq!(s.start_flow("00112233"), Ok(StartOutcome::AlreadySeeding));
    assert_eq!(s.remove_flow("abcd1234"), Ok(()));
    assert!(s.get("abcd1234").is_none());
    assert_eq!(s.remove_flow("abcd1234"), Err(ClientError::FlowNotFound("abcd1234".into())));
    assert_eq!(s.flows.len(), 1);
}

#[test]
fn re_adding_replaces_the_entry() {
    let mut s = ClientState::new();
    s.add(entry("aa", "aa00", DownloadState::Queued));
    s.add(entry("aa", "aa00", DownloadState::Seeding));
    assert_eq!(s.flows.len(), 1);
    assert_eq!(s.flows[0].state, DownloadState::Seeding);
}

#[test]
fn sync_progress_records_downloads() {
    let mut s = ClientState::new();
    s.add(entry("aa", "aa00", DownloadState::Downloading));
    s.sync_progress("aa", 50, 3, false);
    let e = s.get("aa").unwrap();
    assert_eq!((e.downloaded, e.peers), (50, 3));
    assert_eq!(e.state, DownloadState::Downloading);
    s.sync_progress("aa", 100, 2, true);
    assert_eq!(s.get("aa").unwrap().state, DownloadState::Seeding);
}

#[test]
fn new_flow_entry_uses_the_info_hash() {
    let mut meta = minimal_meta();
    meta.info_hash = [0xAB; 32];
    let e = new_flow_entry(&meta, "/save".into(), "/m.bitflow".into());
    assert_eq!(e.id, "abababab");
    assert_eq!(e.info_hash, "ab".repeat(32));
    assert_eq!(e.state, DownloadState::Queued);
    assert_eq!(e.total_size, BLOCK_SIZE as u64);
    assert_eq!(e.downloaded, 0);
}

fn snapshot(id: &str, complete: bool, peers: usize) -> FlowSnapshot {
    FlowSnapshot { id: id.into(), name: format!("n-{id}"), complete, downloaded: 5, total_size: 10, peers }
}

#[test]
fn ipc_ping_pong() {
    let mut state = ClientState::new();
    assert!(matches!(dispatch(&IpcRequest::Ping, &[], &mut state), IpcResponse::Pong));
    assert!(matches!(dispatch(&IpcRequest::Shutdown, &[], &mut state), IpcResponse::Success));
}

#[test]
fn status_empty_when_no_flows() {
    let mut state = ClientState::new();
    match dispatch(&IpcRequest::Status, &[], &mut state) {
        IpcResponse::Status { flows } => assert!(flows.is_empty()),
        other => panic!("expected Status, got {other:?}"),
    }
}

#[test]
fn flow_peers_unknown_id_returns_error() {
    let mut state = ClientState::new();
    match dispatch(&IpcRequest::FlowPeers { id: "notexist".into() }, &[], &mut state) {
        IpcResponse::Error { message } => assert_eq!(message, "flow 'notexist' not active in daemon"),
        other => panic!("expected Error, got {other:?}"),
    }
}

#[test]
fn ipc_status_and_flow_commands() {
    let mut state = ClientState::new();
    state.add(entry("aa", "aa00", DownloadState::Queued));
    let flows = vec![snapshot("aa", true, 4), snapshot("bb", false, 1)];
    match dispatch(&IpcRequest::Status, &flows, &mut state) {
        IpcResponse::Status { flows: infos } => {
            assert_eq!(infos.len(), 2);
            assert_eq!(infos[0].state, "seeding");
            assert_eq!(infos[1].state, "downloading");
            assert_eq!(infos[1].name, "n-bb");
        }
        other => panic!("expected Status, got {other:?}"),
    }
    assert!(matches!(
        dispatch(&IpcRequest::FlowPeers { id: "aa".into() }, &flows, &mut state),
        IpcResponse::Peers { count: 4 }
    ));
    assert!(matches!(dispatch(&IpcRequest::FlowPause { id: "aa".into() }, &flows, &mut state), IpcResponse::Success));
    assert_eq!(state.flows[0].state, DownloadState::Paused);
    assert!(matches!(dispatch(&IpcRequest::FlowStart { id: "aa".into() }, &flows, &mut state), IpcResponse::Success));
    assert_eq!(state.flows[0].state, DownloadState::Downloading);
    match dispatch(&IpcRequest::FlowStop { id: "zz".into() }, &flows, &mut state) {
        IpcResponse::Error { message } => assert_eq!(message, "flow 'zz' not found"),
        other => panic!("expected Error, got {other:?}"),
    }
    assert!(matches!(dispatch(&IpcRequest::FlowStop { id: "aa".into() }, &flows, &mut state), IpcResponse::Success));
    assert!(state.flows.is_empty());
}

#[test]
fn get_mut_changes_the_named_flow() {
    let mut s = ClientState::new();
    s.add(entry("aa", "aa00", DownloadState::Queued));
    s.add(entry("bb", "bb00", DownloadState::Queued));
    if let Some(e) = s.get_mut("bb0") {
        e.state = DownloadState::Paused;
    }
    assert_eq!(s.flows[1].state, DownloadState::Paused);
    assert_eq!(s.flows[0].state, DownloadState::Queued);
    assert!(s.get_mut("zz").is_none());
}

#[test]
fn link_streams_take_blocks_and_report_back() {
    let data = vec![0x11u8; BLOCK_SIZE as usize];
    let mut meta = minimal_meta();
    meta.files[0].piece_hashes[0] = piece_root(&data);
    let mut flow = FlowState::new(&meta, &[1], false, None);
    let mut link = PeerLink::new(1);
    link.on_have_all(&mut flow.table, 0, 1);
    let a = link.open_stream(None);
    let b = link.open_stream(None);
    assert_eq!((a, b, link.next_stream), (0, 1, 2));

    // One block, two idle streams: the first stream gets it.
    let tasks = link.assign_idle(&mut flow.table, false);
    assert_eq!(tasks.len(), 1);
    assert_eq!(tasks[0].0, a);
    assert_eq!((tasks[0].1.fi, tasks[0].1.pi, tasks[0].1.bi), (0, 0, 0));
    assert_eq!(link.streams[0].active, Some((0, 0, 0)));
    assert_eq!(link.streams[1].active, None);

    // Outside endgame there is no room for a third stream.
    assert!(link.scale_up(&mut flow.table, false).is_none());

    // A failure puts the block back and counts against the link.
    link.on_block_fail(&mut flow.table, a, 0, 0, 0);
    assert_eq!(link.streams[0].active, None);
    assert_eq!(link.health.recent_fails, 1);

    let tasks = link.assign_idle(&mut flow.table, false);
    assert_eq!(tasks.len(), 1);

    // The block arrives: the piece is complete and verified.
    let r = link.on_block_ok(&mut flow, &meta, a, 0, 0, 0, hash_block(&data));
    assert_eq!(r, Some(true));
    assert!(flow.complete);
    assert_eq!(link.health.blocks_ok, 1);
    assert_eq!(link.streams[0].active, None);
}

#[test]
fn dead_stream_returns_its_block() {
    let mut table = make_table(2);
    let mut link = PeerLink::new(1);
    link.on_have_all(&mut table, 0, 2);
    let a = link.open_stream(None);
    let tasks = link.assign_idle(&mut table, false);
    assert_eq!(tasks.len(), 1);
    assert_eq!(table.total_pending(), 1);
    assert!(!link.on_stream_dead(&mut table, a), "no stream is left");
    assert_eq!(table.total_pending(), 2);
    assert_eq!(link.health.recent_fails, 1);
    assert!(link.streams.is_empty());
    // An unknown stream changes nothing.
    let b = link.open_stream(Some((0, 1, 0)));
    assert!(link.on_stream_dead(&mut table, 99));
    assert_eq!(link.streams[0].id, b);
    assert_eq!(link.health.recent_fails, 1);
}

#[test]
fn scale_up_in_endgame_hands_out_a_block() {
    let mut table = make_table(1);
    let mut link = PeerLink::new(1);
    link.on_have_all(&mut table, 0, 1);
    link.open_stream(None);
    link.open_stream(None);
    let t = link.scale_up(&mut table, true).unwrap();
    assert_eq!((t.fi, t.pi, t.bi), (0, 0, 0));
    let id = link.open_stream(Some((t.fi, t.pi, t.bi)));
    assert_eq!(id, 2);
    assert_eq!(link.streams.len(), 3);
}

#[test]
fn shuffled_tier_keeps_the_trackers() {
    let tier: Vec<String> = (0..20).map(|i| format!("t{i}")).collect();
    let mut out = shuffled_tier(tier.clone());
    assert_eq!(out.len(), tier.len());
    out.sort();
    let mut sorted = tier;
    sorted.sort();
    assert_eq!(out, sorted);
}

#[test]
fn built_entry_pieces_verify() {
    let data = vec![0xABu8; 32 * 1024];
    let e = build_file_entry(vec!["data.bin".into()], &data, Priority::Normal);
    let pl = piece_length_for_size(data.len() as u64) as usize;
    for (pi, chunk) in data.chunks(pl).enumerate() {
        assert!(verify_piece(chunk, &e.piece_hashes[pi]), "piece {pi} verifies against its hash");
    }
}

#[test]
fn built_metainfo_is_deterministic() {
    let data = vec![0x42u8; 64 * 1024];
    let m1 = build_metainfo("d".into(), vec![build_file_entry(vec!["data.bin".into()], &data, Priority::Normal)], vec![], None);
    let m2 = build_metainfo("d".into(), vec![build_file_entry(vec!["data.bin".into()], &data, Priority::Normal)], vec![], None);
    assert_eq!(m1.info_hash, m2.info_hash, "same contents, same info hash");
    assert_ne!(m1.info_hash, [0u8; 32]);
}

#[test]
fn hash_cache_follows_the_piece() {
    let a = [1u8; 32];
    let b = [2u8; 32];
    let root = merkle_parent(&a, &b);
    let mut c = HashCache::new();
    assert!(c.needs_hashes(0, 3));
    c.store(0, 3, vec![a, b], Some(&root));
    assert!(!c.needs_hashes(0, 3));
    assert!(c.needs_hashes(0, 4));
    assert!(c.needs_hashes(1, 3));
    assert!(c.accepts(1, &b));
    assert!(!c.accepts(1, &a));
    assert!(c.accepts(5, &a), "a block past the announced hashes is not checked");
    // A lying filler: nothing is kept, so blocks go unchecked until the piece check.
    c.store(0, 4, vec![a, b], Some(&[9u8; 32]));
    assert!(c.hashes.is_empty());
    assert!(c.accepts(0, &b));
}

#[test]
fn written_result_reports_the_block() {
    assert_eq!(written_result(3, 1, 2, 0, [7; 32], true), StreamResult::BlockOk { stream_id: 3, fi: 1, pi: 2, bi: 0, hash: [7; 32] });
    assert_eq!(written_result(3, 1, 2, 0, [7; 32], false), StreamResult::BlockFail { stream_id: 3, fi: 1, pi: 2, bi: 0 });
}

#[test]
fn filler_replies() {
    assert_eq!(reply_after_read(true, false), ServeReply::Piece);
    assert_eq!(reply_after_read(true, true), ServeReply::Reject);
    assert_eq!(reply_after_read(false, false), ServeReply::Reject);
    assert_eq!(hash_answer(true, vec![[1; 32]], true), vec![[1u8; 32]]);
    assert!(hash_answer(true, vec![[1; 32]], false).is_empty());
    assert!(hash_answer(false, vec![], true).is_empty());
}
