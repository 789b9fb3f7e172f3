use vpncloud::addr::{Addr, AddrRange, NodeId, SockAddr};
use vpncloud::codec::Message;
use vpncloud::engine::{contains_sockaddr, CloudEngine, Config, ForwardPlan};

fn en_config() -> Config {
    Config {
        port: 3210,
        magic: 0x76706e01,
        peer_timeout: 300,
        switch_timeout: 300,
        keepalive: 60,
        beacon_interval: 3600,
        learning: true,
        broadcast: true,
        has_beacon_store: false,
        has_beacon_load: false,
        has_stats_file: false,
    }
}

fn en_v4(ip: u32, port: u16) -> SockAddr {
    SockAddr::V4 { ip, port }
}

fn en_nid(n: u64) -> NodeId {
    NodeId { hi: n, lo: n }
}

fn en_addr(bytes: &[u8]) -> Addr {
    Addr { bytes: bytes.to_vec() }
}

#[test]
fn handshake_two_nodes() {
    let now = 100u64;
    let na = en_nid(1);
    let nb = en_nid(2);
    let addr_a = en_v4(0x0a000001, 1000);
    let addr_b = en_v4(0x0a000002, 1000);
    let mut a = CloudEngine::new_with_node_id(en_config(), Vec::new(), na, now);
    let mut b = CloudEngine::new_with_node_id(en_config(), Vec::new(), nb, now);
    // A dials B with Init(0, NA, [])
    let dial = a.connect_sock(addr_b).expect("dial message");
    match &dial {
        Message::Init { stage, node_id, ranges } => {
            assert_eq!(*stage, 0);
            assert_eq!(*node_id, na);
            assert!(ranges.is_empty());
        },
        _ => panic!("wrong kind"),
    }
    // B replies with Init(1, NB, []) then Peers
    let fx = b.handle_net_message(addr_a, dial, None, 0, now);
    assert_eq!(fx.sends.len(), 2);
    assert_eq!(b.peer_count(), 1);
    let mut sends = fx.sends;
    let (dst1, reply1) = sends.remove(0);
    let (dst2, reply2) = sends.remove(0);
    assert_eq!(dst1, addr_a);
    assert_eq!(dst2, addr_a);
    match &reply1 {
        Message::Init { stage, node_id, ranges } => {
            assert_eq!(*stage, 1);
            assert_eq!(*node_id, nb);
            assert!(ranges.is_empty());
        },
        _ => panic!("wrong kind"),
    }
    match &reply2 {
        Message::Peers { peers } => assert_eq!(peers.len(), 1),
        _ => panic!("wrong kind"),
    }
    // A processes both and ends up with one peer: B
    a.handle_net_message(addr_b, reply1, None, 0, now);
    a.handle_net_message(addr_b, reply2, None, 0, now);
    assert_eq!(a.peer_count(), 1);
    assert!(a.peers.contains_addr(addr_b));
    assert!(b.peers.contains_addr(addr_a));
}

#[test]
fn self_suppression() {
    let now = 100u64;
    let na = en_nid(1);
    let loopback = en_v4(0x7f000001, 3210);
    let mut a = CloudEngine::new_with_node_id(en_config(), Vec::new(), na, now);
    let msg = Message::Init { stage: 0, node_id: na, ranges: Vec::new() };
    let fx = a.handle_net_message(loopback, msg, None, 0, now);
    assert!(fx.sends.is_empty());
    assert_eq!(a.peer_count(), 0);
    assert!(contains_sockaddr(&a.own_addresses, loopback));
    // further dials to that address are suppressed
    assert!(a.connect_sock(loopback).is_none());
}

#[test]
fn gossip_fan_out_cap() {
    let now = 100u64;
    let mut e = CloudEngine::new_with_node_id(en_config(), Vec::new(), en_nid(999), now);
    for i in 0..100u64 {
        e.handle_init(en_v4(0x0a000100 + i as u32, 1000), 1, en_nid(i + 1), Vec::new(), now);
    }
    assert_eq!(e.peer_count(), 100);
    // next_peerlist was due at construction time
    let plan = e.housekeep(now + 1, Vec::new());
    let gossip = plan.gossip.expect("gossip due");
    assert_eq!(gossip.len(), 20);
    for i in 0..gossip.len() {
        for j in (i + 1)..gossip.len() {
            assert_ne!(gossip[i], gossip[j]);
        }
        assert!(e.peers.contains_addr(gossip[i]));
    }
}

#[test]
fn timeout_purge_drops_peer_and_claims() {
    let now = 100u64;
    let mut cfg = en_config();
    cfg.peer_timeout = 5;
    let mut e = CloudEngine::new_with_node_id(cfg, Vec::new(), en_nid(999), now);
    let peer = en_v4(0x0a000009, 1000);
    let ranges = vec![AddrRange { base: en_addr(&[10, 0, 0, 0]), prefix_len: 8 }];
    e.handle_init(peer, 1, en_nid(1), ranges, now);
    assert_eq!(e.peer_count(), 1);
    assert_eq!(e.table.claim_len(), 1);
    // no traffic for six seconds: the next housekeep removes B and its claims
    let plan = e.housekeep(now + 6, Vec::new());
    assert_eq!(e.peer_count(), 0);
    assert_eq!(e.table.claim_len(), 0);
    assert_eq!(e.table.cache_len(), 0);
    assert!(!plan.load_beacon);
}

#[test]
fn data_fast_path_learns_and_never_refreshes() {
    let now = 100u64;
    let peer = en_v4(0x0a000009, 1000);
    let mut e = CloudEngine::new_with_node_id(en_config(), Vec::new(), en_nid(999), now);
    e.handle_init(peer, 1, en_nid(1), Vec::new(), now);
    let expiry_before = e.peers.records[0].expiry;
    let payload = vec![1u8, 2, 3];
    let fx = e.handle_net_message(
        peer,
        Message::Data { payload },
        Some((en_addr(&[10, 0, 0, 7]), en_addr(&[10, 0, 0, 1]))),
        3,
        now + 50,
    );
    assert!(fx.write_device);
    assert!(fx.sends.is_empty());
    // the source inner address was learned against the sender
    assert_eq!(e.table.cache_len(), 1);
    assert_eq!(e.table.lookup(&en_addr(&[10, 0, 0, 7]), now + 50), Some(peer));
    // the peer expiry is untouched
    assert_eq!(e.peers.records[0].expiry, expiry_before);
}

#[test]
fn data_fast_path_without_learning() {
    let now = 100u64;
    let peer = en_v4(0x0a000009, 1000);
    let mut cfg = en_config();
    cfg.learning = false;
    let mut e = CloudEngine::new_with_node_id(cfg, Vec::new(), en_nid(999), now);
    e.handle_init(peer, 1, en_nid(1), Vec::new(), now);
    let fx = e.handle_net_message(
        peer,
        Message::Data { payload: vec![1u8] },
        Some((en_addr(&[10, 0, 0, 7]), en_addr(&[10, 0, 0, 1]))),
        1,
        now,
    );
    assert!(fx.write_device);
    assert_eq!(e.table.cache_len(), 0);
}

#[test]
fn close_removes_peer_and_claims() {
    let now = 100u64;
    let peer = en_v4(0x0a000009, 1000);
    let mut e = CloudEngine::new_with_node_id(en_config(), Vec::new(), en_nid(999), now);
    let ranges = vec![AddrRange { base: en_addr(&[10, 0, 0, 0]), prefix_len: 8 }];
    e.handle_init(peer, 1, en_nid(1), ranges, now);
    e.handle_net_message(peer, Message::Close, None, 0, now);
    assert_eq!(e.peer_count(), 0);
    assert_eq!(e.table.claim_len(), 0);
}

#[test]
fn peers_message_migrates_primary_and_dials() {
    let now = 100u64;
    let old_addr = en_v4(0x0a000001, 1000);
    let new_addr = en_v4(0x0a000002, 1000);
    let third = en_v4(0x0a000003, 1000);
    let mut e = CloudEngine::new_with_node_id(en_config(), Vec::new(), en_nid(999), now);
    e.handle_init(old_addr, 1, en_nid(1), Vec::new(), now);
    // gossip arrives from a new address of the same node, listing a stranger
    let dial = e.connect_sock(new_addr);
    assert!(dial.is_some());
    let fx = e.handle_net_message(new_addr, Message::Peers { peers: vec![third, old_addr] }, None, 0, now);
    // the unknown sender and the stranger were dialled; the known address was not
    assert_eq!(fx.sends.len(), 2);
    assert_eq!(fx.sends[0].0, new_addr);
    assert_eq!(fx.sends[1].0, third);
    assert_eq!(e.peer_count(), 1);
}

#[test]
fn interface_data_forwards_by_table() {
    let now = 100u64;
    let peer = en_v4(0x0a000009, 1000);
    let mut e = CloudEngine::new_with_node_id(en_config(), Vec::new(), en_nid(999), now);
    let ranges = vec![AddrRange { base: en_addr(&[10, 0, 0, 0]), prefix_len: 8 }];
    e.handle_init(peer, 1, en_nid(1), ranges, now);
    match e.handle_interface_data(&en_addr(&[10, 0, 0, 1]), &en_addr(&[10, 0, 0, 7]), 42, now) {
        ForwardPlan::Unicast { dst, redial } => {
            assert_eq!(dst, peer);
            assert!(redial.is_none());
        },
        _ => panic!("expected unicast"),
    }
    // an unknown destination in broadcast mode fans out
    match e.handle_interface_data(&en_addr(&[10, 0, 0, 1]), &en_addr(&[99, 0, 0, 7]), 42, now) {
        ForwardPlan::Broadcast => {},
        _ => panic!("expected broadcast"),
    }
}

#[test]
fn stale_claim_is_dropped_and_redialled() {
    let now = 100u64;
    let peer = en_v4(0x0a000009, 1000);
    let mut e = CloudEngine::new_with_node_id(en_config(), Vec::new(), en_nid(999), now);
    e.handle_init(peer, 1, en_nid(1), Vec::new(), now);
    // learn a host from data, then lose the peer behind it
    e.handle_data(peer, &en_addr(&[10, 0, 0, 7]), &en_addr(&[10, 0, 0, 1]), 3, now);
    e.peers.remove(peer);
    match e.handle_interface_data(&en_addr(&[10, 0, 0, 1]), &en_addr(&[10, 0, 0, 7]), 3, now) {
        ForwardPlan::Unicast { dst, redial } => {
            assert_eq!(dst, peer);
            assert!(redial.is_some());
        },
        _ => panic!("expected unicast"),
    }
    // the stale cache entry is gone
    assert_eq!(e.table.cache_len(), 0);
}

#[test]
fn wait_error_latch() {
    let now = 100u64;
    let mut e = CloudEngine::new_with_node_id(en_config(), Vec::new(), en_nid(1), now);
    assert!(!e.note_wait_error());
    assert!(e.note_wait_error());
    e.housekeep(now + 1, Vec::new());
    assert!(!e.note_wait_error());
}

#[test]
fn housekeep_schedules_and_reports() {
    let now = 1000u64;
    let mut cfg = en_config();
    cfg.has_stats_file = true;
    cfg.has_beacon_store = true;
    cfg.has_beacon_load = true;
    let mut e = CloudEngine::new_with_node_id(cfg, Vec::new(), en_nid(1), 100);
    e.add_own_address(en_v4(0x7f000001, 3210));
    e.traffic.count_out_traffic(en_v4(1, 1), 500);
    let plan = e.housekeep(now, Vec::new());
    assert!(plan.stats_due);
    assert!(plan.write_stats);
    assert!(plan.load_beacon);
    let stored = plan.store_beacon.expect("beacon store configured");
    assert_eq!(stored.len(), 1);
    assert_eq!(stored[0], en_v4(0x7f000001, 3210));
    assert!(e.due_housekeep(now + 1));
    assert!(!e.due_housekeep(now));
    // the report of this tick still sees the period's counters ...
    assert_eq!(e.traffic.total_peer_traffic().out_bytes, 500);
    // ... and the caller closes the period after writing it
    e.close_stats_period();
    assert_eq!(e.traffic.total_peer_traffic().out_bytes, 0);
}

#[test]
fn reconnect_entries_drive_dials() {
    let now = 100u64;
    let target = en_v4(0x0a000042, 1000);
    let mut e = CloudEngine::new_with_node_id(en_config(), Vec::new(), en_nid(1), now);
    e.add_reconnect_peer(String::from("peer.example"), now);
    // the entry is due for resolution; hand in a resolution and let it dial
    let due = e.due_resolves(now);
    assert_eq!(due, vec![0]);
    assert_eq!(e.reconnect_address(0), "peer.example");
    let plan = e.housekeep(now + 1, vec![(0, vec![target])]);
    // the first run applied the resolution after the dial attempt
    assert!(plan.dials.is_empty());
    let plan2 = e.housekeep(now + 3, Vec::new());
    assert_eq!(plan2.dials.len(), 1);
    assert_eq!(plan2.dials[0].0, target);
}

#[test]
fn fresh_engine_starts_empty() {
    let e = CloudEngine::new(en_config(), Vec::new(), 100);
    assert_eq!(e.peer_count(), 0);
    assert_eq!(e.table.claim_len(), 0);
    assert_eq!(e.table.cache_len(), 0);
    assert!(e.connect_sock(en_v4(1, 1)).is_some());
}
