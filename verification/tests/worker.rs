use tcp_balancer::balancer::{
    dispatch_first,
    dispatch_then,
    fail_over,
    pick_worker,
    process_client,
    report_target_error,
    sweep_action,
    try_confirm_connection,
    DispatchFirst,
    DispatchThen,
    SweepAction,
    Worker,
};
use tcp_balancer::client::{ProbeOutcome, ReadOutcome, TcpClient, WriteOutcome};
use tcp_balancer::endpoint::Endpoint;
use tcp_balancer::host_manager::HostManager;
use tcp_balancer::round_robin::RoundRobin;
use tcp_balancer::{CONNECTION_TIMEOUT_MS, TOTAL_CONNECTION_TIMEOUT_MS};

fn host(n: u32) -> Endpoint {
    Endpoint::v4(0x7f000001, 9000 + n as u16)
}

fn selector(n: u32) -> RoundRobin {
    let hosts: Vec<Endpoint> = (0..n).map(host).collect();
    RoundRobin::new(HostManager::new(hosts))
}

fn fresh_client(now: u64) -> TcpClient {
    TcpClient::new(Endpoint::v4(0x7f000001, 50000), now)
}

#[test]
fn tokens_are_unique_and_nonzero() {
    let mut w = Worker::new();
    let t1 = w.register_client(fresh_client(0));
    let t2 = w.register_client(fresh_client(0));
    let t3 = w.register_client(fresh_client(0));
    assert_eq!((t1, t2, t3), (1, 2, 3));
    let tokens = w.tokens_snapshot();
    assert_eq!(tokens, vec![1, 2, 3]);
    assert!(tokens.iter().all(|t| *t != 0));
    assert_eq!(w.len(), 3);

    // Removal frees the slot but tokens keep increasing monotonically.
    assert!(w.remove_client(t2).is_some());
    assert_eq!(w.len(), 2);
    let t4 = w.register_client(fresh_client(0));
    assert_eq!(t4, 4);
    let tokens = w.tokens_snapshot();
    for i in 0..tokens.len() {
        for j in (i + 1)..tokens.len() {
            assert_ne!(tokens[i], tokens[j]);
        }
    }
}

#[test]
fn registry_lookup_update_remove() {
    let mut w = Worker::new();
    let t = w.register_client(fresh_client(7));
    let got = w.get_client(t).expect("registered tunnel");
    assert_eq!(got.last_connection_loss, 7);
    assert!(w.get_client(99).is_none());

    let mut changed = got;
    changed.close_connection(8);
    assert!(w.update_client(t, changed));
    assert!(!w.get_client(t).unwrap().is_client_connected());
    assert!(!w.update_client(99, changed));

    assert!(w.remove_client(t).is_some());
    assert!(w.remove_client(t).is_none());
    assert_eq!(w.len(), 0);
}

#[test]
fn sweep_decides_removal_first() {
    let mut c = fresh_client(0);
    c.close_connection(1);
    assert_eq!(sweep_action(&c, 10), SweepAction::Remove);
}

#[test]
fn sweep_connect_timeout_boundary() {
    let mut c = fresh_client(0);
    c.connect_to_target(host(0), true, 100);
    // At exactly the deadline the attempt is still allowed.
    assert_eq!(sweep_action(&c, 100 + CONNECTION_TIMEOUT_MS), SweepAction::Keep);
    // One millisecond past it, the worker fails over.
    assert_eq!(
        sweep_action(&c, 100 + CONNECTION_TIMEOUT_MS + 1),
        SweepAction::FailOver
    );
}

#[test]
fn sweep_total_timeout_closes_client() {
    let c = fresh_client(0);
    assert_eq!(sweep_action(&c, TOTAL_CONNECTION_TIMEOUT_MS), SweepAction::Keep);
    assert_eq!(
        sweep_action(&c, TOTAL_CONNECTION_TIMEOUT_MS + 1),
        SweepAction::CloseClient
    );
}

#[test]
fn sweep_keeps_established_tunnels() {
    let mut c = fresh_client(0);
    c.connect_to_target(host(0), true, 0);
    c.check_target_connected(ProbeOutcome::Ready, 1);
    // Established tunnels outlive every deadline.
    assert_eq!(
        sweep_action(&c, 10 * TOTAL_CONNECTION_TIMEOUT_MS),
        SweepAction::Keep
    );
}

#[test]
fn dispatch_order_matches_states() {
    let mut c = fresh_client(0);
    assert_eq!(dispatch_first(&c), DispatchFirst::Proceed);
    assert_eq!(dispatch_then(&c), DispatchThen::StartConnection);

    c.connect_to_target(host(0), true, 1);
    assert_eq!(dispatch_first(&c), DispatchFirst::Confirm);
    assert_eq!(dispatch_then(&c), DispatchThen::Wait);

    c.check_target_connected(ProbeOutcome::Ready, 2);
    assert_eq!(dispatch_first(&c), DispatchFirst::Proceed);
    assert_eq!(dispatch_then(&c), DispatchThen::Process);

    c.close_connection(3);
    assert_eq!(dispatch_first(&c), DispatchFirst::Skip);
}

#[test]
fn failover_on_refusal_reaches_next_host() {
    // Host A refuses (no socket); the attempt is recorded, reported, and
    // the selector serves B, which then echoes.
    let mut rr = selector(2);
    let mut c = fresh_client(0);

    let t = rr.get_next_host(0);
    assert_eq!(t, host(0));
    assert!(!c.connect_to_target(t, false, 0));
    report_target_error(&c, &mut rr, 0);
    assert!(rr.is_on_cooldown(host(0)));

    let t2 = rr.get_next_host(1);
    assert_eq!(t2, host(1));
    assert!(c.connect_to_target(t2, true, 1));
    assert!(try_confirm_connection(&mut c, &mut rr, ProbeOutcome::Ready, 2));
    assert!(c.is_connected());
    assert!(!rr.is_on_cooldown(host(1)));

    assert!(c.forward_to_target(ReadOutcome::Data(5), WriteOutcome::Wrote(5), 3));
    assert!(c.forward_from_target(ReadOutcome::Data(5), WriteOutcome::Wrote(5), 3));
}

#[test]
fn failover_on_connect_timeout() {
    // The first host never answers; past the per-attempt deadline the
    // worker fails over to the next host and the client is served.
    let mut rr = selector(2);
    let mut c = fresh_client(0);
    let t = rr.get_next_host(0);
    assert!(c.connect_to_target(t, true, 0));

    let now = CONNECTION_TIMEOUT_MS + 1;
    assert_eq!(sweep_action(&c, now), SweepAction::FailOver);
    let t2 = fail_over(&mut c, &mut rr, now);
    assert!(rr.is_on_cooldown(host(0)));
    assert_eq!(t2, host(1));

    assert!(c.connect_to_target(t2, true, now));
    assert!(try_confirm_connection(&mut c, &mut rr, ProbeOutcome::Ready, now + 5));
    assert!(c.is_connected());
    assert!(!rr.is_on_cooldown(host(1)));
}

#[test]
fn total_timeout_closes_client_with_all_hosts_cooling() {
    // Two unreachable hosts: each attempt times out and is reported; past
    // the overall deadline the client is closed with nothing delivered.
    let mut rr = selector(2);
    let mut c = fresh_client(0);
    let mut now = 0;
    let t = rr.get_next_host(now);
    assert!(c.connect_to_target(t, true, now));
    for _ in 0..2 {
        now += CONNECTION_TIMEOUT_MS + 1;
        assert_eq!(sweep_action(&c, now), SweepAction::FailOver);
        let next = fail_over(&mut c, &mut rr, now);
        assert!(c.connect_to_target(next, true, now));
    }
    assert!(rr.is_on_cooldown(host(0)));
    assert!(rr.is_on_cooldown(host(1)));

    now = TOTAL_CONNECTION_TIMEOUT_MS + 1;
    c.close_connection_to_target(false, now);
    assert_eq!(sweep_action(&c, now), SweepAction::CloseClient);
    c.close_connection(now);
    assert!(!c.is_client_connected());
    assert_eq!(sweep_action(&c, now), SweepAction::Remove);
}

#[test]
fn confirm_success_clears_cooldown() {
    // A host marked errored is restored: the next confirmed connection
    // to it clears its cooldown.
    let mut rr = selector(2);
    let a = host(0);
    rr.report_error(a, 0);
    assert!(rr.is_on_cooldown(a));

    let mut c = fresh_client(0);
    assert!(c.connect_to_target(a, true, 1));
    assert!(try_confirm_connection(&mut c, &mut rr, ProbeOutcome::Ready, 2));
    assert!(!rr.is_on_cooldown(a));
}

#[test]
fn confirm_would_block_changes_nothing() {
    let mut rr = selector(2);
    rr.report_error(host(0), 0);
    let mut c = fresh_client(0);
    c.connect_to_target(host(0), true, 1);
    assert!(!try_confirm_connection(&mut c, &mut rr, ProbeOutcome::WouldBlock, 2));
    assert!(c.is_connecting());
    assert!(rr.is_on_cooldown(host(0)));
}

#[test]
fn process_client_reports_relay_error() {
    let mut rr = selector(2);
    let mut c = fresh_client(0);
    let t = rr.get_next_host(0);
    c.connect_to_target(t, true, 0);
    c.check_target_connected(ProbeOutcome::Ready, 1);

    // An upstream read error mid-relay puts the host on cooldown.
    assert!(!process_client(
        &mut c,
        &mut rr,
        ReadOutcome::WouldBlock,
        WriteOutcome::NotAttempted,
        ReadOutcome::Failed,
        WriteOutcome::NotAttempted,
        2,
    ));
    assert!(rr.is_on_cooldown(t));
    assert!(c.is_client_connected());
    assert!(!c.is_connected());
}

#[test]
fn process_client_clean_eof_reports_nothing() {
    let mut rr = selector(2);
    let mut c = fresh_client(0);
    let t = rr.get_next_host(0);
    c.connect_to_target(t, true, 0);
    c.check_target_connected(ProbeOutcome::Ready, 1);

    assert!(!process_client(
        &mut c,
        &mut rr,
        ReadOutcome::Closed,
        WriteOutcome::NotAttempted,
        ReadOutcome::WouldBlock,
        WriteOutcome::NotAttempted,
        2,
    ));
    assert!(!rr.is_on_cooldown(t));
    assert!(!c.is_client_connected());
}

#[test]
fn happy_path_single_host_echo() {
    // One healthy host; a client connects, five bytes are relayed each
    // way, the client closes. The tunnel is reaped and the host is not on
    // cooldown.
    let mut rr = selector(1);
    let mut w = Worker::new();
    let token = w.register_client(fresh_client(0));

    let mut c = w.get_client(token).unwrap();
    assert_eq!(dispatch_then(&c), DispatchThen::StartConnection);
    let t = rr.get_next_host(0);
    assert_eq!(t, host(0));
    assert!(c.connect_to_target(t, true, 0));
    assert!(try_confirm_connection(&mut c, &mut rr, ProbeOutcome::Ready, 1));
    assert!(w.update_client(token, c));

    let mut c = w.get_client(token).unwrap();
    assert!(process_client(
        &mut c,
        &mut rr,
        ReadOutcome::Data(5),
        WriteOutcome::Wrote(5),
        ReadOutcome::Data(5),
        WriteOutcome::Wrote(5),
        2,
    ));
    // Client closes: the next pump sees the EOF and tears the tunnel down.
    assert!(!process_client(
        &mut c,
        &mut rr,
        ReadOutcome::Closed,
        WriteOutcome::NotAttempted,
        ReadOutcome::WouldBlock,
        WriteOutcome::NotAttempted,
        3,
    ));
    assert!(w.update_client(token, c));

    let c = w.get_client(token).unwrap();
    assert_eq!(sweep_action(&c, 4), SweepAction::Remove);
    assert!(w.remove_client(token).is_some());
    assert_eq!(w.len(), 0);
    assert!(!rr.is_on_cooldown(host(0)));
}

#[test]
fn pick_worker_prefers_least_loaded_then_lowest_id() {
    assert_eq!(pick_worker(&vec![2, 1, 1, 3]), 1);
    assert_eq!(pick_worker(&vec![0, 0, 0, 0]), 0);
    assert_eq!(pick_worker(&vec![5]), 0);
    assert_eq!(pick_worker(&vec![3, 2, 0, 1]), 2);
}

#[test]
fn sequential_admissions_stay_balanced() {
    // Ten admissions onto four idle workers: the spread never exceeds one.
    let mut counts = vec![0usize, 0, 0, 0];
    for _ in 0..10 {
        let w = pick_worker(&counts);
        counts[w] += 1;
        let max = *counts.iter().max().unwrap();
        let min = *counts.iter().min().unwrap();
        assert!(max - min <= 1);
    }
    assert_eq!(counts.iter().sum::<usize>(), 10);
}
