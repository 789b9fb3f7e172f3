use vpncloud::addr::{Addr, AddrRange, SockAddr};
use vpncloud::claim_table::ClaimTable;

fn ct_addr(bytes: &[u8]) -> Addr {
    Addr { bytes: bytes.to_vec() }
}

fn ct_range(base: &[u8], prefix_len: u8) -> AddrRange {
    AddrRange { base: ct_addr(base), prefix_len }
}

fn ct_peer(ip: u32) -> SockAddr {
    SockAddr::V4 { ip, port: 1000 }
}

#[test]
fn lookup_prefers_longest_prefix() {
    let mut t = ClaimTable::new(300, 300);
    t.set_claims(ct_peer(1), vec![ct_range(&[10, 0, 0, 0], 8)], 100);
    t.set_claims(ct_peer(2), vec![ct_range(&[10, 1, 0, 0], 16)], 100);
    assert_eq!(t.lookup(&ct_addr(&[10, 1, 2, 3]), 100), Some(ct_peer(2)));
    assert_eq!(t.lookup(&ct_addr(&[10, 2, 2, 3]), 100), Some(ct_peer(1)));
    assert_eq!(t.lookup(&ct_addr(&[11, 0, 0, 1]), 100), None);
}

#[test]
fn lookup_tie_breaks_by_freshness() {
    let mut t = ClaimTable::new(300, 300);
    t.set_claims(ct_peer(1), vec![ct_range(&[10, 0, 0, 0], 8)], 100);
    t.set_claims(ct_peer(2), vec![ct_range(&[10, 0, 0, 0], 8)], 150);
    // equal prefix length: the more recently refreshed claim wins
    assert_eq!(t.lookup(&ct_addr(&[10, 9, 9, 9]), 100), Some(ct_peer(2)));
}

#[test]
fn lookup_prefers_unexpired_cache_hit() {
    let mut t = ClaimTable::new(50, 300);
    t.set_claims(ct_peer(1), vec![ct_range(&[10, 0, 0, 0], 8)], 100);
    t.cache(&ct_addr(&[10, 0, 0, 7]), ct_peer(2), 100); // expires at 150
    assert_eq!(t.lookup(&ct_addr(&[10, 0, 0, 7]), 120), Some(ct_peer(2)));
    // after the cache entry expires the claim answers again
    assert_eq!(t.lookup(&ct_addr(&[10, 0, 0, 7]), 200), Some(ct_peer(1)));
}

#[test]
fn remove_claims_undoes_set_claims() {
    let mut t = ClaimTable::new(300, 300);
    t.set_claims(ct_peer(1), vec![ct_range(&[10, 0, 0, 0], 8)], 100);
    let before = t.claim_len();
    t.set_claims(ct_peer(2), vec![ct_range(&[12, 0, 0, 0], 8), ct_range(&[13, 0, 0, 0], 8)], 110);
    t.remove_claims(ct_peer(2));
    assert_eq!(t.claim_len(), before);
    assert_eq!(t.lookup(&ct_addr(&[12, 1, 1, 1]), 120), None);
    assert_eq!(t.lookup(&ct_addr(&[10, 1, 1, 1]), 120), Some(ct_peer(1)));
}

#[test]
fn set_claims_replaces_own_claims_only() {
    let mut t = ClaimTable::new(300, 300);
    t.set_claims(ct_peer(1), vec![ct_range(&[10, 0, 0, 0], 8)], 100);
    t.set_claims(ct_peer(1), vec![ct_range(&[11, 0, 0, 0], 8)], 120);
    assert_eq!(t.claim_len(), 1);
    assert_eq!(t.lookup(&ct_addr(&[10, 1, 1, 1]), 120), None);
    assert_eq!(t.lookup(&ct_addr(&[11, 1, 1, 1]), 120), Some(ct_peer(1)));
}

#[test]
fn remove_all_drops_claims_and_cache() {
    let mut t = ClaimTable::new(300, 300);
    t.set_claims(ct_peer(1), vec![ct_range(&[10, 0, 0, 0], 8)], 100);
    t.cache(&ct_addr(&[10, 0, 0, 9]), ct_peer(1), 100);
    t.cache(&ct_addr(&[11, 0, 0, 9]), ct_peer(2), 100);
    t.remove_all(ct_peer(1));
    assert_eq!(t.claim_len(), 0);
    assert_eq!(t.cache_len(), 1);
    assert_eq!(t.lookup(&ct_addr(&[11, 0, 0, 9]), 110), Some(ct_peer(2)));
}

#[test]
fn housekeep_evicts_expired_entries() {
    let mut t = ClaimTable::new(10, 20);
    t.set_claims(ct_peer(1), vec![ct_range(&[10, 0, 0, 0], 8)], 100); // claim expires 120
    t.cache(&ct_addr(&[10, 0, 0, 9]), ct_peer(1), 100); // cache expires 110
    t.housekeep(115);
    assert_eq!(t.cache_len(), 0);
    assert_eq!(t.claim_len(), 1);
    t.housekeep(125);
    assert_eq!(t.claim_len(), 0);
}

#[test]
fn cache_refreshes_existing_entry() {
    let mut t = ClaimTable::new(50, 300);
    t.cache(&ct_addr(&[10, 0, 0, 7]), ct_peer(1), 100);
    t.cache(&ct_addr(&[10, 0, 0, 7]), ct_peer(2), 120);
    assert_eq!(t.cache_len(), 1);
    assert_eq!(t.lookup(&ct_addr(&[10, 0, 0, 7]), 130), Some(ct_peer(2)));
}

#[test]
fn zero_prefix_claims_whole_width() {
    let mut t = ClaimTable::new(300, 300);
    t.set_claims(ct_peer(1), vec![ct_range(&[0, 0, 0, 0], 0)], 100);
    assert_eq!(t.lookup(&ct_addr(&[203, 9, 1, 2]), 100), Some(ct_peer(1)));
    // a different width never matches
    assert_eq!(t.lookup(&ct_addr(&[1, 2, 3, 4, 5, 6]), 100), None);
}
