use vpncloud::addr::{addr_eq, range_contains, Addr, AddrRange};

fn ad_addr(bytes: &[u8]) -> Addr {
    Addr { bytes: bytes.to_vec() }
}

#[test]
fn equality_is_by_bytes() {
    assert!(addr_eq(&ad_addr(&[1, 2, 3, 4]), &ad_addr(&[1, 2, 3, 4])));
    assert!(!addr_eq(&ad_addr(&[1, 2, 3, 4]), &ad_addr(&[1, 2, 3, 5])));
    assert!(!addr_eq(&ad_addr(&[1, 2, 3, 4]), &ad_addr(&[1, 2, 3])));
}

#[test]
fn containment_checks_whole_bytes() {
    let r = AddrRange { base: ad_addr(&[10, 1, 0, 0]), prefix_len: 16 };
    assert!(range_contains(&r, &ad_addr(&[10, 1, 200, 3])));
    assert!(!range_contains(&r, &ad_addr(&[10, 2, 200, 3])));
    assert!(!range_contains(&r, &ad_addr(&[10, 1, 0, 0, 0, 0])));
}

#[test]
fn containment_checks_partial_byte_bits() {
    // 10.1.128.0/16 with prefix 18 covers 10.1.128.0 .. 10.1.191.255
    let r = AddrRange { base: ad_addr(&[10, 1, 128, 0]), prefix_len: 18 };
    assert!(range_contains(&r, &ad_addr(&[10, 1, 128, 1])));
    assert!(range_contains(&r, &ad_addr(&[10, 1, 191, 255])));
    assert!(!range_contains(&r, &ad_addr(&[10, 1, 192, 0])));
    assert!(!range_contains(&r, &ad_addr(&[10, 1, 64, 0])));
}

#[test]
fn zero_prefix_covers_everything_of_same_width() {
    let r = AddrRange { base: ad_addr(&[0, 0, 0, 0]), prefix_len: 0 };
    assert!(range_contains(&r, &ad_addr(&[255, 255, 255, 255])));
    assert!(!range_contains(&r, &ad_addr(&[1, 2])));
}
