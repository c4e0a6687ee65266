use bitturbulence::tracker::server::{check_auth, compose_error, describe_error, handle_message, ServerConfig};
use bitturbulence::tracker::table::{parse_hex32, HexError, PeerTable, StoredPeer, TrackerError};
use bitturbulence::tracker::types::{AnnounceEvent, AnnounceRequest, TrackerMessage, TrackerResponse};

fn make_req(peer_id: &str, event: AnnounceEvent, left: u64) -> AnnounceRequest {
    AnnounceRequest {
        info_hash: "ab".repeat(32),
        peer_id: peer_id.to_string(),
        addr: "127.0.0.1:6881".into(),
        event,
        uploaded: 0,
        downloaded: 0,
        left,
        num_want: 50,
    }
}

#[test]
fn announce_and_scrape() {
    let mut store = PeerTable::new();
    let ih = parse_hex32(&"ab".repeat(32)).unwrap();

    store.announce(&make_req(&"aa".repeat(32), AnnounceEvent::Started, 1000)).unwrap();
    store.announce(&make_req(&"bb".repeat(32), AnnounceEvent::Started, 0)).unwrap();

    let (fillers, drainers, _) = store.scrape(&ih);
    assert_eq!(fillers, 1);
    assert_eq!(drainers, 1);
}

#[test]
fn stopped_removes_peer() {
    let mut store = PeerTable::new();
    let ih = parse_hex32(&"ab".repeat(32)).unwrap();

    store.announce(&make_req(&"aa".repeat(32), AnnounceEvent::Started, 100)).unwrap();
    store.announce(&make_req(&"aa".repeat(32), AnnounceEvent::Stopped, 100)).unwrap();

    let (s, l, _) = store.scrape(&ih);
    assert_eq!(s + l, 0);
}

#[test]
fn peers_exclude_self() {
    let mut store = PeerTable::new();
    let pid = "aa".repeat(32);

    store.announce(&make_req(&pid, AnnounceEvent::Started, 100)).unwrap();
    store.announce(&make_req(&"bb".repeat(32), AnnounceEvent::Started, 100)).unwrap();

    let peers = store.announce(&make_req(&pid, AnnounceEvent::Update, 100)).unwrap();
    assert!(peers.iter().all(|p| p.peer_id != parse_hex32(&pid).unwrap()));
    assert_eq!(peers.len(), 1);
}

#[test]
fn parse_hex32_errors() {
    assert_eq!(parse_hex32("ab"), Err(HexError::WrongLength(2)));
    assert_eq!(parse_hex32(&"zz".repeat(32)), Err(HexError::InvalidChar { c: 'z', index: 0 }));
    assert_eq!(parse_hex32(&format!("{}g{}", "0".repeat(40), "0".repeat(23))), Err(HexError::InvalidChar { c: 'g', index: 40 }));
    assert_eq!(parse_hex32(&"0f".repeat(32)), Ok([0x0fu8; 32]));
}

#[test]
fn announce_rejects_bad_hashes() {
    let mut store = PeerTable::new();
    let mut req = make_req("short", AnnounceEvent::Started, 1);
    assert_eq!(store.announce_at(&req, 10).unwrap_err(), TrackerError::InvalidInfoHash(HexError::WrongLength(5)));
    req.peer_id = "cd".repeat(32);
    req.info_hash = "xy".repeat(32);
    assert_eq!(
        store.announce_at(&req, 10).unwrap_err(),
        TrackerError::InvalidInfoHash(HexError::InvalidChar { c: 'x', index: 0 })
    );
    assert!(store.records.is_empty());
}

#[test]
fn records_expire_after_ttl() {
    let mut store = PeerTable::new();
    let ih = parse_hex32(&"ab".repeat(32)).unwrap();
    store.announce_at(&make_req(&"aa".repeat(32), AnnounceEvent::Started, 5), 1000).unwrap();
    assert_eq!(store.scrape_at(&ih, 1000 + 3599), (0, 1, 0));
    assert_eq!(store.scrape_at(&ih, 1000 + 3600), (0, 0, 0));
    // A later announce purges the expired record.
    store.announce_at(&make_req(&"bb".repeat(32), AnnounceEvent::Completed, 5), 5000).unwrap();
    assert_eq!(store.records.len(), 1);
    assert_eq!(store.scrape_at(&ih, 5000), (1, 0, 1));
}

#[test]
fn num_want_limits_the_answer() {
    let mut store = PeerTable::new();
    for p in ["11", "22", "33"] {
        store.announce_at(&make_req(&p.repeat(32), AnnounceEvent::Started, 1), 100).unwrap();
    }
    let mut req = make_req(&"44".repeat(32), AnnounceEvent::Started, 1);
    req.num_want = 2;
    let peers = store.announce_at(&req, 100).unwrap();
    assert_eq!(peers.len(), 2);
    assert_eq!(peers[0].peer_id, [0x11u8; 32]);
    assert_eq!(peers[1].peer_id, [0x22u8; 32]);
}

#[test]
fn reannounce_updates_record_in_place() {
    let mut store = PeerTable::new();
    store.announce_at(&make_req(&"aa".repeat(32), AnnounceEvent::Started, 10), 100).unwrap();
    store.announce_at(&make_req(&"aa".repeat(32), AnnounceEvent::Update, 0), 200).unwrap();
    assert_eq!(store.records.len(), 1);
    assert_eq!(store.records[0].left, 0);
    assert_eq!(store.records[0].last_seen, 200);
    assert!(store.records[0].completed);
}

#[test]
fn auth_checks_token_when_required() {
    let mut cfg = ServerConfig::default();
    assert!(check_auth(None, &cfg));
    cfg.require_auth = true;
    cfg.auth_token = Some("secret".into());
    assert!(!check_auth(None, &cfg));
    assert!(!check_auth(Some("wrong"), &cfg));
    assert!(check_auth(Some("secret"), &cfg));
}

#[test]
fn handle_message_announce_and_scrape() {
    let mut table = PeerTable::new();
    let cfg = ServerConfig::default();
    let msg = TrackerMessage::Announce { auth_token: None, req: make_req(&"aa".repeat(32), AnnounceEvent::Started, 0) };
    match handle_message(&mut table, &cfg, &msg, 100) {
        TrackerResponse::Announce(a) => {
            assert_eq!(a.interval, 1800);
            assert_eq!(a.min_interval, Some(60));
            assert!(a.peers.is_empty());
            assert_eq!(a.complete, 1);
            assert_eq!(a.incomplete, 0);
        }
        other => panic!("expected an announce response, got {other:?}"),
    }
    let scrape = TrackerMessage::Scrape { auth_token: None, info_hash: "ab".repeat(32) };
    match handle_message(&mut table, &cfg, &scrape, 100) {
        TrackerResponse::Scrape(s) => {
            assert_eq!((s.complete, s.incomplete, s.downloaded), (1, 0, 1));
        }
        other => panic!("expected a scrape response, got {other:?}"),
    }
}

#[test]
fn handle_message_refuses_without_token() {
    let mut table = PeerTable::new();
    let mut cfg = ServerConfig::default();
    cfg.require_auth = true;
    cfg.auth_token = Some("t".into());
    let msg = TrackerMessage::Announce { auth_token: None, req: make_req(&"aa".repeat(32), AnnounceEvent::Started, 0) };
    assert!(matches!(handle_message(&mut table, &cfg, &msg, 100), TrackerResponse::Error { .. }));
    assert!(table.records.is_empty());
    let bad = TrackerMessage::Scrape { auth_token: Some("t".into()), info_hash: "00".into() };
    assert!(matches!(handle_message(&mut table, &cfg, &bad, 100), TrackerResponse::Error { .. }));
}

#[test]
fn announce_request_new_writes_hex() {
    let req = AnnounceRequest::new(&[0xABu8; 32], &[0x01u8; 32], "h:1".into(), AnnounceEvent::Started, 1, 2, 3);
    assert_eq!(req.info_hash, "ab".repeat(32));
    assert_eq!(req.peer_id, "01".repeat(32));
    assert_eq!(req.num_want, 50);
    assert_eq!(req.with_num_want(7).num_want, 7);
    assert_eq!(AnnounceEvent::default(), AnnounceEvent::Update);
}

#[test]
fn error_texts() {
    assert_eq!(
        describe_error(TrackerError::InvalidInfoHash(HexError::InvalidChar { c: '\n', index: 3 })),
        "invalid info hash: Invalid character '\\n' at position 3"
    );
    assert_eq!(
        compose_error(TrackerError::InvalidInfoHash(HexError::InvalidChar { c: 'x', index: 70 }), "<x>"),
        "invalid info hash: Invalid character <x> at position 70"
    );
    assert_eq!(
        describe_error(TrackerError::InvalidInfoHash(HexError::WrongLength(5))),
        "invalid info hash: expected 64 hex chars, got 5"
    );
    assert_eq!(
        describe_error(TrackerError::InvalidInfoHash(HexError::WrongLength(130))),
        "invalid info hash: expected 64 hex chars, got 130"
    );
    assert_eq!(
        describe_error(TrackerError::InvalidInfoHash(HexError::InvalidChar { c: 'g', index: 12 })),
        "invalid info hash: Invalid character 'g' at position 12"
    );
    let mut table = PeerTable::new();
    let cfg = ServerConfig::default();
    let msg = TrackerMessage::Announce { auth_token: None, req: make_req("short", AnnounceEvent::Started, 0) };
    match handle_message(&mut table, &cfg, &msg, 100) {
        TrackerResponse::Error { message } => assert_eq!(message, "invalid info hash: expected 64 hex chars, got 5"),
        other => panic!("expected an error, got {other:?}"),
    }
}

fn row(ih: Vec<u8>, pid: Vec<u8>, last_seen: i64, left: u64) -> StoredPeer {
    StoredPeer {
        info_hash: ih,
        peer_id: pid,
        addr: "1.1.1.1:1".into(),
        uploaded: 0,
        downloaded: 0,
        left,
        last_seen,
        completed: false,
    }
}

#[test]
fn restore_keeps_live_rows_with_valid_hashes() {
    let rows = vec![
        row(vec![1; 32], vec![2; 32], 5000, 10),
        row(vec![1; 32], vec![3; 32], 1000, 10),
        row(vec![1; 31], vec![4; 32], 5000, 10),
        row(vec![1; 32], vec![2; 32], 5001, 0),
    ];
    let t = PeerTable::restore(&rows, 5000 + 3599);
    assert_eq!(t.records.len(), 1);
    assert_eq!(t.records[0].peer_id, [2u8; 32]);
    assert_eq!(t.records[0].left, 0);
    assert_eq!(t.records[0].last_seen, 5001);
    assert_eq!(t.scrape_at(&[1u8; 32], 5001), (1, 0, 0));
}

#[test]
fn completions_outlive_stop_and_expiry() {
    let mut store = PeerTable::new();
    let ih = parse_hex32(&"ab".repeat(32)).unwrap();
    store.announce_at(&make_req(&"aa".repeat(32), AnnounceEvent::Completed, 0), 100).unwrap();
    store.announce_at(&make_req(&"bb".repeat(32), AnnounceEvent::Started, 0), 100).unwrap();
    assert_eq!(store.scrape_at(&ih, 100), (2, 0, 2));
    // The first peer stops: it is no longer live but still completed once.
    store.announce_at(&make_req(&"aa".repeat(32), AnnounceEvent::Stopped, 0), 200).unwrap();
    assert_eq!(store.scrape_at(&ih, 200), (1, 0, 2));
    // Long after, both records expired; the completions stay.
    assert_eq!(store.scrape_at(&ih, 100 + 3600), (0, 0, 2));
    // Completing again does not count the same peer twice.
    store.announce_at(&make_req(&"bb".repeat(32), AnnounceEvent::Completed, 0), 300).unwrap();
    assert_eq!(store.completions.len(), 2);
    // Another flow has none.
    assert_eq!(store.scrape_at(&[0u8; 32], 300), (0, 0, 0));
}

#[test]
fn restore_counts_completed_rows_once() {
    let mut done = row(vec![1; 32], vec![2; 32], 5000, 0);
    done.completed = true;
    let rows = vec![done.clone(), done, row(vec![1; 32], vec![3; 32], 5000, 7)];
    let t = PeerTable::restore(&rows, 5000);
    assert_eq!(t.records.len(), 2);
    assert_eq!(t.completions.len(), 1);
    assert_eq!(t.scrape_at(&[1u8; 32], 5000), (1, 1, 1));
}
