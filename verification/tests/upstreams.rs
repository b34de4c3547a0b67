use balancebeam::config::CmdOptions;
use balancebeam::keyed::Keyed;
use balancebeam::state::{HealthUpdate, ProxyState, IO_TIMEOUT};
use balancebeam::upstream::{
    build_probe, choose_upstream_power_of_two, connect_to_upstream, continue_connecting,
    get_candidate_upstreams, pick_of_two, resolve_upstream, run_active_health_checks,
    start_health_checks, try_run_active_health_checks, use_upstream, ConnectAttempt, ConnectStep,
    DialOutcome, HealthCheck, HealthEvent, HealthStep,
};

fn options_for(upstreams: &[&str], path: &str) -> CmdOptions {
    CmdOptions {
        bind: "0.0.0.0:1100".to_string(),
        upstream: upstreams.iter().map(|u| u.to_string()).collect(),
        active_health_check_interval: 10,
        active_health_check_path: path.to_string(),
        max_requests_per_minute: 0,
        max_cache_entries: 256,
    }
}

fn state_for(upstreams: &[&str]) -> ProxyState<u32> {
    ProxyState::new(options_for(upstreams, "/health"))
}

fn updates_of(state: &mut ProxyState<u32>) -> Vec<String> {
    state
        .take_health_updates()
        .into_iter()
        .map(|update| match update {
            HealthUpdate::MarkDead(upstream) => format!("dead {}", upstream),
            HealthUpdate::MarkAlive(upstream) => format!("alive {}", upstream),
        })
        .collect()
}

fn kill(state: &mut ProxyState<u32>, upstream: &str) {
    state.apply_health_update(HealthUpdate::MarkDead(upstream.to_string()));
}

fn dialed(step: ConnectStep<u32>) -> ConnectAttempt {
    match step {
        ConnectStep::Dial(attempt) => attempt,
        _ => panic!("no dial"),
    }
}

#[test]
fn fresh_state_holds_the_options() {
    let state = state_for(&["a", "b"]);
    assert_eq!(state.upstream_addresses, vec!["a".to_string(), "b".to_string()]);
    assert_eq!(state.active_requests, vec![0, 0]);
    assert_eq!(state.active_health_check_interval, 10);
    assert_eq!(state.active_health_check_path, "/health");
    assert_eq!(state.max_requests_per_minute, 0);
    assert_eq!(IO_TIMEOUT, 1);
}

#[test]
fn requests_are_counted_in_and_out() {
    let mut state = state_for(&["a", "b"]);
    state.increment_active_requests(1);
    state.increment_active_requests(1);
    state.decrement_active_requests(1);
    assert_eq!(state.active_requests, vec![0, 1]);
    state.decrement_active_requests(0);
    assert_eq!(state.active_requests, vec![0, 1]);
}

#[test]
fn last_returned_connection_is_taken_first() {
    let mut state = state_for(&["a", "b"]);
    assert_eq!(state.take_pooled_connection("a"), None);
    state.return_connection_to_pool("a", 1);
    state.return_connection_to_pool("a", 2);
    state.return_connection_to_pool("b", 3);
    assert_eq!(state.take_pooled_connection("a"), Some(2));
    assert_eq!(state.take_pooled_connection("a"), Some(1));
    assert_eq!(state.take_pooled_connection("a"), None);
    assert_eq!(state.take_pooled_connection("b"), Some(3));
}

#[test]
fn health_updates_are_kept_in_order_and_applied() {
    let mut state = state_for(&["a", "b"]);
    state.mark_upstream_dead("a");
    state.mark_upstream_alive("b");
    assert_eq!(updates_of(&mut state), vec!["dead a", "alive b"]);
    assert!(updates_of(&mut state).is_empty());
    assert!(!state.dead_upstreams.contains("a"));
    kill(&mut state, "a");
    assert!(state.dead_upstreams.contains("a"));
    state.apply_health_update(HealthUpdate::MarkAlive("a".to_string()));
    assert!(!state.dead_upstreams.contains("a"));
}

#[test]
fn keyed_values_change_in_place() {
    let mut table: Keyed<Vec<u8>> = Keyed::new();
    assert!(table.get_mut("a").is_none());
    table.entry_or("a", vec![1]).push(2);
    table.entry_or("a", vec![9]).push(3);
    table.entry_or("b", vec![7]);
    assert_eq!(table.get_mut("a"), Some(&mut vec![1, 2, 3]));
    table.get_mut("b").unwrap().clear();
    assert_eq!(table.get_mut("b"), Some(&mut vec![]));
}

#[test]
fn candidates_are_healthy_and_untried() {
    let mut state = state_for(&["a", "b", "c", "d"]);
    assert_eq!(get_candidate_upstreams(&state, &[false; 4]), vec![0, 1, 2, 3]);
    kill(&mut state, "b");
    assert_eq!(get_candidate_upstreams(&state, &[true, false, false, false]), vec![2, 3]);
    assert_eq!(get_candidate_upstreams(&state, &[true, false, true, true]), vec![1]);
    assert!(get_candidate_upstreams(&state, &[true; 4]).is_empty());
    state.apply_health_update(HealthUpdate::MarkAlive("b".to_string()));
    assert_eq!(get_candidate_upstreams(&state, &[true, false, false, true]), vec![1, 2]);
}

#[test]
fn less_loaded_of_two_is_picked() {
    let active = [5, 1, 9, 1];
    let candidates = [0, 1, 2, 3];
    assert_eq!(pick_of_two(&active, &candidates, 0, 0), 1);
    assert_eq!(pick_of_two(&active, &candidates, 0, 1), 0);
    assert_eq!(pick_of_two(&active, &candidates, 3, 1), 3);
    assert_eq!(pick_of_two(&active, &candidates, 1, 2), 1);
    assert_eq!(pick_of_two(&active, &[2, 0], 0, 0), 0);
}

#[test]
fn choice_is_never_the_most_loaded() {
    let mut state = state_for(&["a", "b", "c"]);
    state.increment_active_requests(1);
    assert_eq!(choose_upstream_power_of_two(&state, &[1]), 1);
    for _ in 0..50 {
        assert_eq!(choose_upstream_power_of_two(&state, &[0, 1]), 0);
        assert!(choose_upstream_power_of_two(&state, &[0, 1, 2]) != 1);
    }
}

#[test]
fn choice_varies_with_the_draws() {
    let state = state_for(&["a", "b", "c"]);
    let mut seen = [false; 3];
    for _ in 0..200 {
        seen[choose_upstream_power_of_two(&state, &[0, 1, 2])] = true;
    }
    assert_eq!(seen, [true; 3]);
}

#[test]
fn first_address_is_used() {
    assert_eq!(resolve_upstream("u", Ok(Some(7))), Ok(7));
    assert_eq!(
        resolve_upstream::<u8>("u:80", Ok(None)),
        Err("upstream u:80 did not resolve to any addresses".to_string())
    );
    assert_eq!(resolve_upstream::<u8>("u", Err("no host".to_string())), Err("no host".to_string()));
}

#[test]
fn idle_connection_is_used() {
    let mut state = state_for(&["a", "b"]);
    state.return_connection_to_pool("b", 8);
    match connect_to_upstream(&mut state, &[true, false]) {
        ConnectStep::Connected(connection, idx) => assert_eq!((connection, idx), (8, 1)),
        _ => panic!("not connected"),
    }
    assert_eq!(state.active_requests, vec![0, 1]);
    assert_eq!(state.take_pooled_connection("b"), None);
}

#[test]
fn chosen_upstream_is_dialed() {
    let mut state = state_for(&["a", "b"]);
    let attempt = dialed(use_upstream(&mut state, vec![false, false], 1));
    assert_eq!(attempt.attempted, vec![false, true]);
    assert_eq!(attempt.upstream_idx, 1);
    match continue_connecting(&mut state, attempt, DialOutcome::Connected(4)) {
        ConnectStep::Connected(connection, idx) => assert_eq!((connection, idx), (4, 1)),
        _ => panic!("not connected"),
    }
    assert_eq!(state.active_requests, vec![0, 1]);
    assert!(updates_of(&mut state).is_empty());
}

#[test]
fn failed_connections_lead_to_the_next_upstream() {
    let mut state = state_for(&["a", "b", "c"]);
    let first = dialed(connect_to_upstream(&mut state, &[false; 3]));
    let a = state.upstream_addresses[first.upstream_idx].clone();
    let second = dialed(continue_connecting(
        &mut state,
        first,
        DialOutcome::Failed("refused".to_string()),
    ));
    let b = state.upstream_addresses[second.upstream_idx].clone();
    let third = dialed(continue_connecting(&mut state, second, DialOutcome::TimedOut));
    let c = state.upstream_addresses[third.upstream_idx].clone();
    assert_eq!(third.attempted, vec![true; 3]);
    let mut all = vec![a.clone(), b.clone(), c];
    all.sort();
    assert_eq!(all, vec!["a", "b", "c"]);
    assert_eq!(updates_of(&mut state), vec![format!("dead {}", a), format!("dead {}", b)]);
    let unresolved = DialOutcome::Unresolved("no such host".to_string());
    match continue_connecting(&mut state, third, unresolved) {
        ConnectStep::Failed(message) => assert_eq!(message, "no such host"),
        _ => panic!("not failed"),
    }
    assert!(updates_of(&mut state).is_empty());
    assert_eq!(state.active_requests, vec![0, 0, 0]);
}

#[test]
fn slow_upstream_is_named() {
    let mut state = state_for(&["a:1"]);
    let attempt = dialed(connect_to_upstream(&mut state, &[false]));
    match continue_connecting(&mut state, attempt, DialOutcome::TimedOut) {
        ConnectStep::Failed(message) => {
            assert_eq!(message, "Timed out connecting to upstream a:1")
        }
        _ => panic!("not failed"),
    }
    assert_eq!(updates_of(&mut state), vec!["dead a:1"]);
}

#[test]
fn dead_upstream_is_tried_where_no_other_is_left() {
    let mut state = state_for(&["a", "b"]);
    kill(&mut state, "a");
    let attempt = dialed(connect_to_upstream(&mut state, &[false, false]));
    assert_eq!(attempt.upstream_idx, 1);
    let attempt = dialed(continue_connecting(&mut state, attempt, DialOutcome::TimedOut));
    assert_eq!(attempt.upstream_idx, 0);
}

#[test]
fn probe_asks_for_the_path() {
    let request = build_probe("/health".to_string(), "a:80");
    let mut out = Vec::new();
    balancebeam::request::write_to_stream(&request, &mut out);
    assert_eq!(out, b"GET /health HTTP/1.1\r\nhost: a:80\r\ncontent-length: 0\r\n\r\n".to_vec());
}

#[test]
fn round_of_health_checks_reports_on_every_upstream() {
    let mut state = state_for(&["a", "b", "c", "d", "e"]);
    assert!(matches!(start_health_checks(&state), HealthStep::Dial(0)));

    let step = run_active_health_checks(&mut state, HealthCheck::Dialing(0), HealthEvent::NotConnected);
    assert!(matches!(step, HealthStep::Dial(1)));

    match run_active_health_checks(&mut state, HealthCheck::Dialing(1), HealthEvent::Connected) {
        HealthStep::Probe(idx, request) => {
            assert_eq!(idx, 1);
            assert_eq!(request.uri, "/health");
            assert_eq!(request.headers.get("host"), Some(&b"b"[..]));
        }
        _ => panic!("no probe"),
    }
    let step = run_active_health_checks(&mut state, HealthCheck::Probing(1), HealthEvent::Answered(399));
    assert!(matches!(step, HealthStep::Dial(2)));
    let step = run_active_health_checks(&mut state, HealthCheck::Probing(2), HealthEvent::Answered(400));
    assert!(matches!(step, HealthStep::Dial(3)));
    let step = run_active_health_checks(&mut state, HealthCheck::Probing(3), HealthEvent::NotAnswered);
    assert!(matches!(step, HealthStep::Dial(4)));
    let step = run_active_health_checks(&mut state, HealthCheck::Probing(4), HealthEvent::Answered(200));
    assert!(matches!(step, HealthStep::Done));
    assert_eq!(updates_of(&mut state), vec!["dead a", "alive b", "dead c", "dead d", "alive e"]);
}

#[test]
fn no_upstream_needs_no_health_check() {
    assert!(matches!(start_health_checks(&state_for(&[])), HealthStep::Done));
}

#[test]
fn probe_that_cannot_be_made_is_told_apart() {
    let mut state: ProxyState<u32> = ProxyState::new(options_for(&["a", "b\n"], "/<"));
    let check = HealthCheck::Dialing(0);
    assert!(try_run_active_health_checks(&mut state, check, HealthEvent::Connected).is_none());
    assert!(matches!(
        try_run_active_health_checks(&mut state, check, HealthEvent::NotConnected),
        Some(HealthStep::Dial(1))
    ));
    let mut state: ProxyState<u32> = ProxyState::new(options_for(&["a", "b\n"], "/"));
    assert!(matches!(
        try_run_active_health_checks(&mut state, check, HealthEvent::Connected),
        Some(HealthStep::Probe(0, _))
    ));
    let check = HealthCheck::Dialing(1);
    assert!(try_run_active_health_checks(&mut state, check, HealthEvent::Connected).is_none());
}
