use vpncloud::addr::{NodeId, SockAddr};
use vpncloud::peer_list::PeerList;

fn pl_v4(ip: u32, port: u16) -> SockAddr {
    SockAddr::V4 { ip, port }
}

fn pl_nid(n: u64) -> NodeId {
    NodeId { hi: n, lo: n }
}

#[test]
fn add_and_contains() {
    let mut pl = PeerList::new(300);
    assert!(pl.is_empty());
    pl.add(pl_nid(1), pl_v4(1, 1), 100);
    assert_eq!(pl.len(), 1);
    assert!(pl.contains_addr(pl_v4(1, 1)));
    assert!(pl.contains_node(pl_nid(1)));
    assert!(!pl.contains_addr(pl_v4(2, 2)));
    // a second add for the same node is a no-op
    pl.add(pl_nid(1), pl_v4(9, 9), 100);
    assert_eq!(pl.len(), 1);
    assert!(!pl.contains_addr(pl_v4(9, 9)));
    // a second add for the same address is a no-op too
    pl.add(pl_nid(7), pl_v4(1, 1), 100);
    assert_eq!(pl.len(), 1);
    assert!(!pl.contains_node(pl_nid(7)));
}

#[test]
fn make_primary_demotes_old_primary() {
    let mut pl = PeerList::new(300);
    pl.add(pl_nid(1), pl_v4(1, 1), 100);
    pl.make_primary(pl_nid(1), pl_v4(2, 2));
    assert!(pl.contains_addr(pl_v4(1, 1)));
    assert!(pl.contains_addr(pl_v4(2, 2)));
    assert_eq!(pl.records[0].primary, pl_v4(2, 2));
    assert_eq!(pl.records[0].alternates.len(), 1);
    assert_eq!(pl.records[0].alternates[0], pl_v4(1, 1));
    assert_eq!(pl.get_node_id(pl_v4(1, 1)), Some(pl_nid(1)));
    assert_eq!(pl.get_node_id(pl_v4(2, 2)), Some(pl_nid(1)));
}

#[test]
fn make_primary_twice_equals_once() {
    let mut pl = PeerList::new(300);
    pl.add(pl_nid(1), pl_v4(1, 1), 100);
    pl.make_primary(pl_nid(1), pl_v4(2, 2));
    let primary_once = pl.records[0].primary;
    let alts_once = pl.records[0].alternates.clone();
    let expiry_once = pl.records[0].expiry;
    pl.make_primary(pl_nid(1), pl_v4(2, 2));
    assert_eq!(pl.records.len(), 1);
    assert_eq!(pl.records[0].primary, primary_once);
    assert_eq!(pl.records[0].alternates, alts_once);
    assert_eq!(pl.records[0].expiry, expiry_once);
}

#[test]
fn remove_unreaches_alternates() {
    let mut pl = PeerList::new(300);
    pl.add(pl_nid(1), pl_v4(1, 1), 100);
    pl.make_primary(pl_nid(1), pl_v4(2, 2));
    pl.remove(pl_v4(2, 2));
    assert_eq!(pl.len(), 0);
    assert!(!pl.contains_addr(pl_v4(1, 1)));
    assert!(!pl.contains_addr(pl_v4(2, 2)));
}

#[test]
fn remove_by_alternate_is_noop() {
    let mut pl = PeerList::new(300);
    pl.add(pl_nid(1), pl_v4(1, 1), 100);
    pl.make_primary(pl_nid(1), pl_v4(2, 2));
    pl.remove(pl_v4(1, 1));
    assert_eq!(pl.len(), 1);
}

#[test]
fn timeout_returns_expired_primaries() {
    let mut pl = PeerList::new(10);
    pl.add(pl_nid(1), pl_v4(1, 1), 100); // expires at 110
    pl.add(pl_nid(2), pl_v4(2, 2), 200); // expires at 210
    let gone = pl.timeout(150);
    assert_eq!(gone, vec![pl_v4(1, 1)]);
    assert_eq!(pl.len(), 1);
    assert!(pl.contains_addr(pl_v4(2, 2)));
}

#[test]
fn refresh_extends_expiry() {
    let mut pl = PeerList::new(10);
    pl.add(pl_nid(1), pl_v4(1, 1), 100);
    pl.refresh(pl_v4(1, 1), 150);
    assert_eq!(pl.records[0].expiry, 160);
    let gone = pl.timeout(155);
    assert!(gone.is_empty());
}

#[test]
fn subset_is_capped_and_distinct() {
    let mut pl = PeerList::new(300);
    for i in 0..50u32 {
        pl.add(pl_nid(i as u64 + 1), pl_v4(i + 1, 1), 100);
    }
    let s = pl.subset(20);
    assert_eq!(s.len(), 20);
    for i in 0..s.len() {
        for j in (i + 1)..s.len() {
            assert_ne!(s[i], s[j]);
        }
        assert!(pl.contains_addr(s[i]));
    }
    let all = pl.subset(100);
    assert_eq!(all.len(), 50);
}

#[test]
fn as_vec_holds_every_known_address() {
    let mut pl = PeerList::new(300);
    pl.add(pl_nid(1), pl_v4(1, 1), 100);
    pl.make_primary(pl_nid(1), pl_v4(2, 2));
    pl.add(pl_nid(3), pl_v4(3, 3), 100);
    let v = pl.as_vec();
    assert_eq!(v.len(), 3);
    assert!(v.contains(&pl_v4(1, 1)));
    assert!(v.contains(&pl_v4(2, 2)));
    assert!(v.contains(&pl_v4(3, 3)));
}

#[test]
fn is_connected_checks_any_resolution() {
    let mut pl = PeerList::new(300);
    pl.add(pl_nid(1), pl_v4(1, 1), 100);
    assert!(pl.is_connected(&vec![pl_v4(9, 9), pl_v4(1, 1)]));
    assert!(!pl.is_connected(&vec![pl_v4(9, 9)]));
    assert!(!pl.is_connected(&vec![]));
}
