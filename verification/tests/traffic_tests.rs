use vpncloud::addr::{Addr, SockAddr};
use vpncloud::traffic::TrafficStats;

fn tr_peer(ip: u32) -> SockAddr {
    SockAddr::V4 { ip, port: 1000 }
}

fn tr_addr(bytes: &[u8]) -> Addr {
    Addr { bytes: bytes.to_vec() }
}

#[test]
fn peer_counters_accumulate() {
    let mut t = TrafficStats::new();
    t.count_out_traffic(tr_peer(1), 100);
    t.count_out_traffic(tr_peer(1), 50);
    t.count_in_traffic(tr_peer(1), 7);
    t.count_out_traffic(tr_peer(2), 9);
    assert_eq!(t.peer_rows(), 2);
    assert_eq!(t.peers[0].entry.out_bytes, 150);
    assert_eq!(t.peers[0].entry.out_packets, 2);
    assert_eq!(t.peers[0].entry.in_bytes, 7);
    assert_eq!(t.peers[0].entry.in_packets, 1);
    assert_eq!(t.peers[1].entry.out_bytes, 9);
}

#[test]
fn payload_counters_key_by_address_pair() {
    let mut t = TrafficStats::new();
    let r = tr_addr(&[10, 0, 0, 7]);
    let l = tr_addr(&[10, 0, 0, 1]);
    t.count_in_payload(&r, &l, 42);
    t.count_in_payload(&r, &l, 8);
    t.count_out_payload(&r, &l, 5);
    t.count_in_payload(&l, &r, 1);
    assert_eq!(t.payload_rows(), 2);
    assert_eq!(t.payload[0].entry.in_bytes, 50);
    assert_eq!(t.payload[0].entry.in_packets, 2);
    assert_eq!(t.payload[0].entry.out_bytes, 5);
}

#[test]
fn dropped_and_invalid_counters() {
    let mut t = TrafficStats::new();
    t.count_dropped_payload(10);
    t.count_dropped_payload(5);
    t.count_invalid_protocol(3);
    assert_eq!(t.dropped.in_bytes, 15);
    assert_eq!(t.dropped.in_packets, 2);
    assert_eq!(t.invalid.in_bytes, 3);
}

#[test]
fn period_resets_and_evicts_idle_rows() {
    let mut t = TrafficStats::new();
    t.count_out_traffic(tr_peer(1), 100);
    t.period(None);
    assert_eq!(t.peer_rows(), 1);
    assert_eq!(t.peers[0].entry.out_bytes, 0);
    assert_eq!(t.peers[0].entry.idle, 0);
    // one idle period, then eviction at the bound
    t.period(None);
    assert_eq!(t.peers[0].entry.idle, 1);
    t.period(Some(2));
    assert_eq!(t.peer_rows(), 0);
}

#[test]
fn saturating_counters_stop_at_the_ceiling() {
    let mut t = TrafficStats::new();
    t.count_out_traffic(tr_peer(1), u64::MAX - 1);
    t.count_out_traffic(tr_peer(1), 1000);
    assert_eq!(t.peers[0].entry.out_bytes, u64::MAX);
    assert_eq!(t.peers[0].entry.out_packets, 2);
}

#[test]
fn totals_sum_over_rows() {
    let mut t = TrafficStats::new();
    t.count_out_traffic(tr_peer(1), 100);
    t.count_out_traffic(tr_peer(2), 50);
    t.count_in_traffic(tr_peer(2), 7);
    let total = t.total_peer_traffic();
    assert_eq!(total.out_bytes, 150);
    assert_eq!(total.out_packets, 2);
    assert_eq!(total.in_bytes, 7);
    assert_eq!(total.in_packets, 1);
    t.count_in_payload(&tr_addr(&[1, 2, 3, 4]), &tr_addr(&[5, 6, 7, 8]), 11);
    assert_eq!(t.total_payload_traffic().in_bytes, 11);
}
