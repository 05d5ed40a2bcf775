use tcp_balancer::endpoint::Endpoint;
use tcp_balancer::host_manager::{preferred_address, HostManager};
use tcp_balancer::round_robin::RoundRobin;
use tcp_balancer::TARGET_DOWN_COOLDOWN_MS;

fn host(n: u32) -> Endpoint {
    Endpoint::v4(0x7f000001, 9000 + n as u16)
}

fn selector(n: u32) -> RoundRobin {
    let hosts: Vec<Endpoint> = (0..n).map(host).collect();
    RoundRobin::new(HostManager::new(hosts))
}

#[test]
fn round_robin_cycles_evenly() {
    // Seven selections over three healthy hosts: the rotation in order,
    // each host seen either 7/3 = 2 or 3 times.
    let mut rr = selector(3);
    let mut results = Vec::new();
    for _ in 0..7 {
        results.push(rr.get_next_host(0));
    }
    let expected = vec![
        host(0),
        host(1),
        host(2),
        host(0),
        host(1),
        host(2),
        host(0),
    ];
    assert_eq!(results, expected);
    for n in 0..3 {
        let count = results.iter().filter(|e| **e == host(n)).count();
        assert!(count == 2 || count == 3);
    }
}

#[test]
fn round_robin_exact_multiple() {
    // Six selections over three hosts: exactly two each.
    let mut rr = selector(3);
    let mut results = Vec::new();
    for _ in 0..6 {
        results.push(rr.get_next_host(5));
    }
    for n in 0..3 {
        assert_eq!(results.iter().filter(|e| **e == host(n)).count(), 2);
    }
}

#[test]
fn cooldown_skips_errored_host() {
    // With B errored, the following selections avoid B while alternatives
    // exist and the cooldown has not expired.
    let mut rr = selector(3);
    let b = host(1);
    rr.report_error(b, 1000);
    for _ in 0..4 {
        let got = rr.get_next_host(2000);
        assert_ne!(got, b);
    }
    assert!(rr.is_on_cooldown(b));
}

#[test]
fn cooldown_expires_lazily() {
    // is_on_cooldown stays true during the window; the first selection
    // that reaches the host past expiration returns it and drops the entry.
    let mut rr = selector(2);
    let a = host(0);
    rr.report_error(a, 0);
    assert!(rr.is_on_cooldown(a));
    // Cursor is at A; at exactly the expiration moment A is selectable.
    let got = rr.get_next_host(TARGET_DOWN_COOLDOWN_MS);
    assert_eq!(got, a);
    assert!(!rr.is_on_cooldown(a));
}

#[test]
fn cooldown_not_expired_at_last_moment() {
    let mut rr = selector(2);
    let a = host(0);
    rr.report_error(a, 0);
    // One millisecond before expiration the entry still excludes A.
    let got = rr.get_next_host(TARGET_DOWN_COOLDOWN_MS - 1);
    assert_eq!(got, host(1));
    assert!(rr.is_on_cooldown(a));
}

#[test]
fn expired_entry_removed_on_encounter() {
    // The scan skips a host still cooling, reaches the expired one,
    // returns it, and drops its entry.
    let mut rr = selector(3);
    rr.report_error(host(0), 20_000);
    rr.report_error(host(1), 0);
    let now = TARGET_DOWN_COOLDOWN_MS + 500;
    let got = rr.get_next_host(now);
    assert_eq!(got, host(1));
    assert!(!rr.is_on_cooldown(host(1)));
    assert!(rr.is_on_cooldown(host(0)));
}

#[test]
fn last_resort_returns_some_host() {
    // Every host on cooldown: selection still returns the host at the
    // cursor rather than failing.
    let mut rr = selector(3);
    for n in 0..3 {
        rr.report_error(host(n), 100);
    }
    let got = rr.get_next_host(200);
    assert_eq!(got, host(0));
    // The cursor advanced one step: the next call tries a different slot.
    let got2 = rr.get_next_host(200);
    assert_eq!(got2, host(1));
}

#[test]
fn single_host_always_returned() {
    let mut rr = selector(1);
    let a = host(0);
    rr.report_error(a, 0);
    for _ in 0..5 {
        assert_eq!(rr.get_next_host(10), a);
    }
}

#[test]
fn report_success_clears_cooldown() {
    let mut rr = selector(2);
    let a = host(0);
    rr.report_error(a, 0);
    assert!(rr.is_on_cooldown(a));
    rr.report_success(a);
    assert!(!rr.is_on_cooldown(a));
    // A is selectable again at once.
    assert_eq!(rr.get_next_host(1), a);
}

#[test]
fn report_success_absent_is_noop() {
    let mut rr = selector(2);
    rr.report_success(host(1));
    assert!(!rr.is_on_cooldown(host(1)));
    assert_eq!(rr.get_next_host(0), host(0));
}

#[test]
fn report_error_refreshes_timer() {
    // A second report within the window resets the timer: the host is
    // still excluded when the first window would have ended.
    let mut rr = selector(2);
    let a = host(0);
    rr.report_error(a, 0);
    rr.report_error(a, 10_000);
    let got = rr.get_next_host(TARGET_DOWN_COOLDOWN_MS + 5_000);
    assert_eq!(got, host(1));
    assert!(rr.is_on_cooldown(a));
    // After the refreshed window it is selectable again.
    let got2 = rr.get_next_host(10_000 + TARGET_DOWN_COOLDOWN_MS);
    assert_eq!(got2, a);
}

#[test]
fn has_host_membership() {
    let rr = selector(2);
    assert!(rr.has_host(host(0)));
    assert!(rr.has_host(host(1)));
    assert!(!rr.has_host(host(7)));
}

#[test]
fn preferred_address_empty() {
    assert_eq!(preferred_address(&Vec::new()), None);
}

#[test]
fn preferred_address_picks_first_v4() {
    let v6a = Endpoint::v6(0xfe80_0000_0000_0000_0000_0000_0000_0001, 80);
    let v4a = Endpoint::v4(0x0a000001, 80);
    let v4b = Endpoint::v4(0x0a000002, 80);
    let addrs = vec![v6a, v4a, v4b];
    assert_eq!(preferred_address(&addrs), Some(v4a));
}

#[test]
fn preferred_address_falls_back_to_first() {
    let v6a = Endpoint::v6(1, 80);
    let v6b = Endpoint::v6(2, 80);
    let addrs = vec![v6a, v6b];
    assert_eq!(preferred_address(&addrs), Some(v6a));
}

#[test]
fn endpoint_equality_is_by_full_address() {
    assert_eq!(Endpoint::v4(1, 80), Endpoint::v4(1, 80));
    assert_ne!(Endpoint::v4(1, 80), Endpoint::v4(1, 81));
    assert_ne!(Endpoint::v4(1, 80), Endpoint::v4(2, 80));
    assert_ne!(Endpoint::v4(1, 80), Endpoint::v6(1, 80));
}
