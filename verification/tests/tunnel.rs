use tcp_balancer::client::{ProbeOutcome, ReadOutcome, TcpClient, WriteOutcome};
use tcp_balancer::endpoint::Endpoint;

fn client_addr() -> Endpoint {
    Endpoint::v4(0x7f000001, 50000)
}

fn upstream() -> Endpoint {
    Endpoint::v4(0x7f000001, 9001)
}

#[test]
fn fresh_tunnel_state() {
    let c = TcpClient::new(client_addr(), 42);
    assert!(c.is_client_connected());
    assert!(!c.is_connected());
    assert!(!c.is_connecting());
    assert_eq!(c.get_target_addr(), None);
    assert_eq!(c.get_last_target_addr(), None);
    assert!(!c.last_target_errored());
    assert_eq!(c.last_connection_loss, 42);
    assert_eq!(c.started_connecting, 42);
}

#[test]
fn connect_then_confirm_establishes() {
    let mut c = TcpClient::new(client_addr(), 0);
    assert!(c.connect_to_target(upstream(), true, 5));
    assert!(c.is_connecting());
    assert!(!c.is_connected());
    assert_eq!(c.get_target_addr(), Some(upstream()));
    assert_eq!(c.started_connecting, 5);

    // "Would block" and "not connected" leave the attempt in flight.
    assert!(!c.check_target_connected(ProbeOutcome::WouldBlock, 6));
    assert!(c.is_connecting());
    assert!(!c.check_target_connected(ProbeOutcome::NotConnected, 7));
    assert!(c.is_connecting());

    assert!(c.check_target_connected(ProbeOutcome::Ready, 8));
    assert!(c.is_connected());
    assert!(!c.is_connecting());
}

#[test]
fn connect_failure_records_errored_attempt() {
    let mut c = TcpClient::new(client_addr(), 0);
    assert!(!c.connect_to_target(upstream(), false, 3));
    assert!(!c.is_connecting());
    assert!(!c.is_connected());
    assert_eq!(c.get_target_addr(), None);
    assert_eq!(c.get_last_target_addr(), Some(upstream()));
    assert!(c.last_target_errored());
}

#[test]
fn probe_error_fails_the_attempt() {
    let mut c = TcpClient::new(client_addr(), 0);
    c.connect_to_target(upstream(), true, 1);
    assert!(!c.check_target_connected(ProbeOutcome::Failed, 2));
    assert!(!c.is_connecting());
    assert!(!c.is_connected());
    assert_eq!(c.get_last_target_addr(), Some(upstream()));
    assert!(c.last_target_errored());
}

fn established(now: u64) -> TcpClient {
    let mut c = TcpClient::new(client_addr(), now);
    c.connect_to_target(upstream(), true, now);
    c.check_target_connected(ProbeOutcome::Ready, now);
    c
}

#[test]
fn relay_forwards_bytes_both_ways() {
    // The happy path at the state-machine level: five bytes each way.
    let mut c = established(0);
    assert!(c.forward_to_target(ReadOutcome::Data(5), WriteOutcome::Wrote(5), 1));
    assert!(c.is_connected());
    assert!(c.forward_from_target(ReadOutcome::Data(5), WriteOutcome::Wrote(5), 1));
    assert!(c.is_connected());
    assert!(c.is_client_connected());
}

#[test]
fn relay_would_block_is_noop() {
    let mut c = established(0);
    assert!(c.forward_to_target(ReadOutcome::WouldBlock, WriteOutcome::NotAttempted, 1));
    assert!(c.forward_from_target(ReadOutcome::WouldBlock, WriteOutcome::NotAttempted, 1));
    assert!(c.is_connected());
}

#[test]
fn client_eof_tears_down_tunnel() {
    let mut c = established(0);
    assert!(!c.forward_to_target(ReadOutcome::Closed, WriteOutcome::NotAttempted, 9));
    assert!(!c.is_client_connected());
    assert!(!c.is_connected());
    assert!(!c.is_connecting());
    assert_eq!(c.get_target_addr(), None);
    assert!(!c.last_target_errored());
    assert_eq!(c.last_connection_loss, 9);
}

#[test]
fn upstream_eof_closes_only_upstream() {
    let mut c = established(0);
    assert!(!c.forward_from_target(ReadOutcome::Closed, WriteOutcome::NotAttempted, 9));
    assert!(c.is_client_connected());
    assert!(!c.is_connected());
    assert_eq!(c.get_target_addr(), None);
    // A clean EOF blames nobody.
    assert!(!c.last_target_errored());
    assert_eq!(c.last_connection_loss, 9);
}

#[test]
fn upstream_read_error_is_blamed() {
    let mut c = established(0);
    assert!(!c.forward_from_target(ReadOutcome::Failed, WriteOutcome::NotAttempted, 4));
    assert!(c.is_client_connected());
    assert!(!c.is_connected());
    assert_eq!(c.get_last_target_addr(), Some(upstream()));
    assert!(c.last_target_errored());
}

#[test]
fn short_write_to_upstream_is_failure() {
    let mut c = established(0);
    assert!(!c.forward_to_target(ReadOutcome::Data(5), WriteOutcome::Wrote(3), 4));
    assert!(!c.is_connected());
    assert!(c.last_target_errored());
    assert_eq!(c.get_last_target_addr(), Some(upstream()));
}

#[test]
fn client_write_error_tears_down_tunnel() {
    let mut c = established(0);
    assert!(!c.forward_from_target(ReadOutcome::Data(5), WriteOutcome::Failed, 4));
    assert!(!c.is_client_connected());
    assert!(!c.is_connected());
}

#[test]
fn process_runs_both_directions() {
    let mut c = established(0);
    assert!(c.process(
        ReadOutcome::Data(2),
        WriteOutcome::Wrote(2),
        ReadOutcome::WouldBlock,
        WriteOutcome::NotAttempted,
        1,
    ));
    assert!(c.is_connected());
    assert!(!c.process(
        ReadOutcome::Closed,
        WriteOutcome::NotAttempted,
        ReadOutcome::WouldBlock,
        WriteOutcome::NotAttempted,
        2,
    ));
    assert!(!c.is_client_connected());
}

#[test]
fn close_client_is_idempotent() {
    let mut c = established(0);
    c.close_connection(7);
    assert!(!c.is_client_connected());
    assert_eq!(c.last_connection_loss, 7);
    let snapshot = (
        c.is_client_connected(),
        c.is_connected(),
        c.is_connecting(),
        c.get_target_addr(),
        c.get_last_target_addr(),
        c.last_target_errored(),
        c.last_connection_loss,
        c.started_connecting,
    );
    // The second call is a no-op: nothing changes, not even timestamps.
    c.close_connection(1000);
    let after = (
        c.is_client_connected(),
        c.is_connected(),
        c.is_connecting(),
        c.get_target_addr(),
        c.get_last_target_addr(),
        c.last_target_errored(),
        c.last_connection_loss,
        c.started_connecting,
    );
    assert_eq!(snapshot, after);
}

#[test]
fn close_client_releases_everything() {
    let mut c = established(0);
    c.close_connection(3);
    assert!(!c.is_client_connected());
    assert!(!c.is_connected());
    assert!(!c.is_connecting());
    assert_eq!(c.get_target_addr(), None);
}

#[test]
fn upstream_flags_never_both_set() {
    let mut c = TcpClient::new(client_addr(), 0);
    assert!(!(c.is_connecting() && c.is_connected()));
    c.connect_to_target(upstream(), true, 1);
    assert!(!(c.is_connecting() && c.is_connected()));
    c.check_target_connected(ProbeOutcome::Ready, 2);
    assert!(!(c.is_connecting() && c.is_connected()));
    c.close_connection_to_target(true, 3);
    assert!(!(c.is_connecting() && c.is_connected()));
}

#[test]
fn reconnect_keeps_loss_clock() {
    // The overall-deadline clock runs from the loss of service: starting a
    // new attempt does not reset it.
    let mut c = established(0);
    c.forward_from_target(ReadOutcome::Failed, WriteOutcome::NotAttempted, 100);
    assert_eq!(c.last_connection_loss, 100);
    c.connect_to_target(upstream(), true, 150);
    assert_eq!(c.last_connection_loss, 100);
    assert_eq!(c.started_connecting, 150);
}
