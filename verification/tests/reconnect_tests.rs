use vpncloud::reconnect::ReconnectEntry;

#[test]
fn backoff_sequence_over_21_failures() {
    let mut e = ReconnectEntry::new(String::from("x"), 100);
    let now = 100u64;
    let mut applied: Vec<u64> = Vec::new();
    for _ in 0..21 {
        e.fail_step(now);
        applied.push(e.next - now);
    }
    let mut expected: Vec<u64> = Vec::new();
    for _ in 0..10 {
        expected.push(1);
    }
    for _ in 0..10 {
        expected.push(2);
    }
    expected.push(4);
    assert_eq!(applied, expected);
    // a success on the next attempt resets the backoff to one second
    e.success_step(now);
    assert_eq!(e.backoff, 1);
    assert_eq!(e.tries, 0);
    assert_eq!(e.next, now + 1);
}

#[test]
fn backoff_caps_at_one_hour() {
    let mut e = ReconnectEntry::new(String::from("far"), 0);
    let now = 0u64;
    let mut seen: Vec<u16> = Vec::new();
    for _ in 0..200 {
        e.fail_step(now);
        if seen.last() != Some(&e.backoff) {
            seen.push(e.backoff);
        }
    }
    assert_eq!(seen, vec![1, 2, 4, 8, 16, 32, 64, 128, 256, 512, 1024, 2048, 3600]);
    assert_eq!(e.backoff, 3600);
}

#[test]
fn resolution_updates_addresses_only() {
    let mut e = ReconnectEntry::new(String::from("x"), 100);
    e.fail_step(100);
    let tries = e.tries;
    let backoff = e.backoff;
    let next = e.next;
    e.apply_resolution(vec![vpncloud::addr::SockAddr::V4 { ip: 7, port: 7 }], 150);
    assert_eq!(e.resolved.len(), 1);
    assert_eq!(e.next_resolve, 150 + 300);
    assert_eq!(e.tries, tries);
    assert_eq!(e.backoff, backoff);
    assert_eq!(e.next, next);
}
