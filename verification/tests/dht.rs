use bitturbulence::dht::error::DhtError;
use bitturbulence::dht::message::DhtMessage;
use bitturbulence::dht::node::{DhtConfig, DhtNode, TokenTable, K};
use bitturbulence::dht::table::{NodeInfo, RoutingTable};
use bitturbulence::dht::node_id::{Distance, NodeId};
use bitturbulence::dht::store::ValueStore;

#[test]
fn distance_to_self_is_zero() {
    let id = NodeId::random();
    let d = id.distance(&id);
    assert_eq!(d, Distance([0u8; 32]));
    assert_eq!(d.leading_zeros(), 256);
}

#[test]
fn distance_is_symmetric() {
    let a = NodeId::random();
    let b = NodeId::random();
    assert_eq!(a.distance(&b), b.distance(&a));
}

#[test]
fn bucket_index_range() {
    let a = NodeId::random();
    let b = NodeId::random();
    let idx = a.bucket_index(&b);
    assert!(idx <= 256);
}

#[test]
fn from_seed_deterministic() {
    let a = NodeId::from_seed(b"test");
    let b = NodeId::from_seed(b"test");
    assert_eq!(a, b);
}

#[test]
fn from_seed_is_sha256_of_seed() {
    let id = NodeId::from_seed(b"abc");
    assert_eq!(id.as_bytes()[0], 0xba);
    assert_eq!(id.as_bytes()[31], 0xad);
}

#[test]
fn node_id_from_bytes_checks_length() {
    assert_eq!(NodeId::from_bytes(&[1u8; 31]), Err(DhtError::InvalidNodeId(31)));
    assert_eq!(NodeId::from_bytes(&[1u8; 32]), Ok(NodeId([1u8; 32])));
}

#[test]
fn distance_and_bucket_of_known_ids() {
    let a = NodeId([0u8; 32]);
    let mut bytes = [0u8; 32];
    bytes[1] = 0x10;
    let b = NodeId(bytes);
    let d = a.distance(&b);
    assert_eq!(d.0[1], 0x10);
    assert_eq!(d.leading_zeros(), 11);
    assert_eq!(a.bucket_index(&b), 11);
    assert_eq!(a.bucket_index(&a), 256);
    let mut top = [0u8; 32];
    top[0] = 0x80;
    assert_eq!(a.bucket_index(&NodeId(top)), 0);
}

#[test]
fn put_and_get() {
    let mut s = ValueStore::new();
    let key = [0u8; 32];
    s.put(key, b"hello".to_vec());
    let vals = s.get(&key);
    assert_eq!(vals.len(), 1);
    assert_eq!(vals[0], b"hello".to_vec());
}

#[test]
fn announce_and_get_peers() {
    let mut s = ValueStore::new();
    let ih = [0xABu8; 32];
    s.announce_peer(ih, "1.2.3.4:6881".into());
    s.announce_peer(ih, "5.6.7.8:6882".into());
    let peers = s.get_peers(&ih);
    assert_eq!(peers.len(), 2);
}

#[test]
fn duplicate_peer_not_duplicated() {
    let mut s = ValueStore::new();
    let ih = [0xCDu8; 32];
    s.announce_peer(ih, "1.2.3.4:6881".into());
    s.announce_peer(ih, "1.2.3.4:6881".into());
    assert_eq!(s.get_peers(&ih).len(), 1);
}

#[test]
fn values_expire_after_their_ttl() {
    let mut s = ValueStore::new();
    let key = [3u8; 32];
    s.put_at(key, vec![1], 1000);
    s.put_at(key, vec![2], 2000);
    assert_eq!(s.get_at(&key, 1000 + 86399), vec![vec![1], vec![2]]);
    assert_eq!(s.get_at(&key, 1000 + 86400), vec![vec![2]]);
    assert!(s.get_at(&key, 2000 + 86400).is_empty());
    assert!(s.get_at(&[4u8; 32], 0).is_empty());
}

#[test]
fn peers_expire_and_reannounce_refreshes() {
    let mut s = ValueStore::new();
    let ih = [5u8; 32];
    s.announce_peer_at(ih, "a".into(), 0);
    s.announce_peer_at(ih, "b".into(), 100);
    s.announce_peer_at(ih, "a".into(), 1000);
    assert_eq!(s.get_peers_at(&ih, 1850), vec!["a".to_string(), "b".to_string()]);
    assert_eq!(s.get_peers_at(&ih, 1900), vec!["a".to_string()]);
    assert!(s.get_peers_at(&ih, 2800).is_empty());
    assert!(s.get_peers_at(&[6u8; 32], 0).is_empty());
}

#[test]
fn tokens_verify_only_when_issued() {
    let mut t = TokenTable::new();
    let a = NodeId([1u8; 32]);
    let b = NodeId([2u8; 32]);
    let ta = t.issue_token(&a);
    assert!(t.verify_token(&a, &ta));
    assert!(!t.verify_token(&b, &ta));
    let tb = t.issue_token(&b);
    assert!(t.verify_token(&b, &tb));
    assert!(t.verify_token(&a, &ta));
    let ta2 = t.issue_token(&a);
    assert!(t.verify_token(&a, &ta2));
    assert_eq!(t.entries.len(), 2);
}

#[test]
fn dht_config_default() {
    let c = DhtConfig::default();
    assert_eq!(c.bind_addr, "0.0.0.0:6881");
    assert!(c.bootstrap_nodes.is_empty());
    assert!(c.routing_table_path.is_none());
}

fn make_config() -> DhtConfig {
    DhtConfig { bind_addr: "127.0.0.1:0".into(), bootstrap_nodes: vec![], routing_table_path: None }
}

#[test]
fn node_ping_pong() {
    let mut node = DhtNode::new(make_config());
    let msg = DhtMessage::Ping { sender: NodeId::random() };
    let resp = node.handle_message(msg, "127.0.0.1:9000").unwrap();
    assert!(matches!(resp, DhtMessage::Pong { .. }));
}

#[test]
fn find_node_returns_nodes() {
    let mut node = DhtNode::new(make_config());
    for i in 0..5u8 {
        node.add_node(NodeId::from_seed(&[i; 32]), format!("127.0.0.1:{}", 7000 + i as u16));
    }
    let msg = DhtMessage::FindNode { sender: NodeId::random(), target: NodeId::random() };
    let resp = node.handle_message(msg, "127.0.0.1:9001").unwrap();
    assert!(matches!(resp, DhtMessage::Nodes { .. }));
}

#[test]
fn announce_with_valid_token() {
    let mut node = DhtNode::new(make_config());
    let sender = NodeId::random();
    let info_hash = [0xABu8; 32];

    let get = DhtMessage::GetPeers { sender, info_hash };
    let resp = node.handle_message(get, "127.0.0.1:9002").unwrap();
    let token = match resp {
        DhtMessage::GotPeers { token, .. } => token,
        _ => panic!("expected GotPeers"),
    };

    let ann = DhtMessage::AnnouncePeer { sender, info_hash, token, addr: "127.0.0.1:6881".into() };
    let ack = node.handle_message(ann, "127.0.0.1:9002").unwrap();
    assert!(matches!(ack, DhtMessage::AnnounceAck { .. }));
}

#[test]
fn announce_with_invalid_token_rejected() {
    let mut node = DhtNode::new(make_config());
    let ann = DhtMessage::AnnouncePeer {
        sender: NodeId::random(),
        info_hash: [0u8; 32],
        token: [0xFF; 8],
        addr: "127.0.0.1:6881".into(),
    };
    assert!(node.handle_message(ann, "127.0.0.1:9003").is_none());
}

#[test]
fn get_peers_lists_announced_peer_and_no_nodes() {
    let mut node = DhtNode::new(make_config());
    let other = NodeId([9u8; 32]);
    node.add_node(other, "10.0.0.9:1".into());
    let s = NodeId([1u8; 32]);
    let ih = [0x42u8; 32];
    let token = match node.handle_message_at(DhtMessage::GetPeers { sender: s, info_hash: ih }, "a:1", 100).unwrap() {
        DhtMessage::GotPeers { token, peers, nodes, .. } => {
            assert!(peers.is_empty());
            assert_eq!(nodes.len(), 2, "with no peers the closest nodes come back");
            token
        }
        _ => panic!("expected GotPeers"),
    };
    node.handle_message_at(DhtMessage::AnnouncePeer { sender: s, info_hash: ih, token, addr: "p:1".into() }, "a:1", 100)
        .unwrap();
    match node.handle_message_at(DhtMessage::GetPeers { sender: other, info_hash: ih }, "b:2", 200).unwrap() {
        DhtMessage::GotPeers { peers, nodes, .. } => {
            assert_eq!(peers, vec!["p:1".to_string()]);
            assert!(nodes.is_empty());
        }
        _ => panic!("expected GotPeers"),
    }
    // Past its time to live the peer is gone.
    match node.handle_message_at(DhtMessage::GetPeers { sender: other, info_hash: ih }, "b:2", 100 + 1800).unwrap() {
        DhtMessage::GotPeers { peers, .. } => assert!(peers.is_empty()),
        _ => panic!("expected GotPeers"),
    }
}

#[test]
fn store_needs_the_token() {
    let mut node = DhtNode::new(make_config());
    let s = NodeId([3u8; 32]);
    let key = [7u8; 32];
    let bad = DhtMessage::Store { sender: s, key, value: vec![1], token: [0; 8] };
    assert!(node.handle_message_at(bad, "x:1", 10).is_none());
    assert!(node.store.get_at(&key, 10).is_empty());
    let token = match node.handle_message_at(DhtMessage::GetPeers { sender: s, info_hash: key }, "x:1", 10).unwrap() {
        DhtMessage::GotPeers { token, .. } => token,
        _ => panic!("expected GotPeers"),
    };
    let good = DhtMessage::Store { sender: s, key, value: vec![1], token };
    assert!(matches!(node.handle_message_at(good, "x:1", 10), Some(DhtMessage::StoreAck { .. })));
    assert_eq!(node.store.get_at(&key, 10), vec![vec![1u8]]);
}

#[test]
fn senders_and_passed_nodes_are_recorded() {
    let mut node = DhtNode::new(make_config());
    let a = NodeId([1u8; 32]);
    node.handle_message(DhtMessage::Pong { sender: a }, "a:1");
    assert_eq!(node.routing_table_size(), 1);
    node.handle_message(DhtMessage::Ping { sender: a }, "a:2");
    assert_eq!(node.routing_table_size(), 1);
    assert_eq!(node.table.nodes[0].addr, "a:2");
    let passed = vec![NodeInfo::new(NodeId([2u8; 32]), "b:1".into()), NodeInfo::new(NodeId([3u8; 32]), "c:1".into())];
    assert!(node.handle_message(DhtMessage::Nodes { sender: a, nodes: passed }, "a:2").is_none());
    assert_eq!(node.routing_table_size(), 3);
    let near = node.closest_nodes(&NodeId([3u8; 32]));
    assert_eq!(near.len(), 3);
    assert_eq!(near[0].id, NodeId([3u8; 32]));
    assert_eq!(node.config().bind_addr, "127.0.0.1:0");
}

#[test]
fn closest_orders_by_xor_distance() {
    let mut t = RoutingTable::new(NodeId([0u8; 32]));
    for b in [0x80u8, 0x01, 0x40, 0x03] {
        let mut id = [0u8; 32];
        id[0] = b;
        t.upsert(NodeInfo::new(NodeId(id), format!("n{b}")));
    }
    let target = NodeId([0u8; 32]);
    let c = t.closest(&target, 3);
    let firsts: Vec<u8> = c.iter().map(|n| n.id.0[0]).collect();
    assert_eq!(firsts, vec![0x01, 0x03, 0x40]);
    assert_eq!(t.closest(&target, 10).len(), 4);
    assert!(t.closest(&target, 0).is_empty());
    assert_eq!(t.all_nodes().len(), 4);
    assert_eq!(K, 20);
}

#[test]
fn save_and_load_routing_table() {
    let config = DhtConfig {
        bind_addr: "127.0.0.1:0".into(),
        bootstrap_nodes: vec![],
        routing_table_path: Some("routing.json".into()),
    };
    let mut node = DhtNode::new(config.clone());
    node.add_node(NodeId::from_seed(b"peer1"), "1.2.3.4:6881".into());
    node.add_node(NodeId::from_seed(b"peer2"), "5.6.7.8:6882".into());
    let saved = node.saved_nodes();

    let node2 = DhtNode::with_saved_nodes(config, &saved);
    assert_eq!(node2.routing_table_size(), 2);
    let again = node2.saved_nodes();
    assert_eq!(again.len(), 2);
    assert_eq!(again[0].id, NodeId::from_seed(b"peer1"));
    assert_eq!(again[1].addr, "5.6.7.8:6882");
}
