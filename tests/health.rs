use tls_balancer::health::{is_pong, ping_bytes, time_bucket, HealthChecker, PingState, ProbeAction, ProbeOutcome};

const NOW: i64 = 1_700_000_000;

fn pong() -> Vec<u8> {
    "PONG".as_bytes().to_vec()
}

/// Drives a fresh prober through connect and PING at `NOW`.
fn ping_sent() -> HealthChecker {
    let mut hc = HealthChecker::new(0, "127.0.0.1:25003".to_string());
    assert_eq!(hc.poll(NOW), ProbeAction::Connect);
    hc.record(NOW, ProbeOutcome::Connected);
    assert_eq!(hc.poll(NOW), ProbeAction::SendPing);
    hc.record(NOW, ProbeOutcome::Sent);
    assert_eq!(hc.ping_state, PingState::PingSent(NOW));
    hc
}

fn not_listening() {
    let mut hc = HealthChecker::new(0, "127.0.0.1:25001".to_string());
    assert_eq!(hc.poll(NOW), ProbeAction::Connect);
    hc.record(NOW, ProbeOutcome::Failed);
    assert!(!hc.is_healthy());
}

fn connect() {
    let mut hc = HealthChecker::new(0, "127.0.0.1:25002".to_string());
    assert_eq!(hc.poll(NOW), ProbeAction::Connect);
    hc.record(NOW, ProbeOutcome::Connected);
    assert!(hc.is_healthy());
    assert!(hc.wants_socket());
}

fn reply_in_time() {
    let mut hc = ping_sent();
    assert!(hc.is_healthy());
    assert_eq!(hc.poll(NOW), ProbeAction::ReadReply);
    hc.record(NOW, ProbeOutcome::Reply(pong()));
    assert!(hc.is_healthy());
    assert_eq!(hc.ping_state, PingState::Idle(NOW));
    assert!(!hc.wants_socket());
}

fn reply_out_of_time() {
    let mut hc = ping_sent();
    assert!(hc.is_healthy());
    // 1.1 s later the reply is past the one-second deadline.
    assert_eq!(hc.poll(NOW + 2), ProbeAction::Close);
    assert!(!hc.is_healthy());
    assert_eq!(hc.ping_state, PingState::Idle(NOW + 2));
}

fn reply_disconnect_from_upstream() {
    let mut hc = ping_sent();
    assert!(hc.is_healthy());
    assert_eq!(hc.poll(NOW), ProbeAction::ReadReply);
    hc.record(NOW, ProbeOutcome::Reply(Vec::new()));
    assert!(!hc.is_healthy());
}

#[test]
fn server_test_server_health_not_listening() {
    not_listening();
}

#[test]
fn lib_test_server_health_not_listening() {
    not_listening();
}

#[test]
fn server_test_server_health_connect() {
    connect();
}

#[test]
fn lib_test_server_health_connect() {
    connect();
}

#[test]
fn server_test_server_health_reply_in_time() {
    reply_in_time();
}

#[test]
fn lib_test_server_health_reply_in_time() {
    reply_in_time();
}

#[test]
fn server_test_server_health_reply_out_of_time() {
    reply_out_of_time();
}

#[test]
fn lib_test_server_health_reply_out_of_time() {
    reply_out_of_time();
}

#[test]
fn server_test_server_health_reply_disconnect_from_upstream() {
    reply_disconnect_from_upstream();
}

#[test]
fn lib_test_server_health_reply_disconnect_from_upstream() {
    reply_disconnect_from_upstream();
}

#[test]
fn pong_at_deadline_is_healthy() {
    let mut hc = ping_sent();
    assert_eq!(hc.poll(NOW + 1), ProbeAction::ReadReply);
    hc.record(NOW + 1, ProbeOutcome::Reply(pong()));
    assert!(hc.is_healthy());
}

#[test]
fn late_pong_is_unhealthy() {
    let mut hc = ping_sent();
    hc.record(NOW + 2, ProbeOutcome::Reply(pong()));
    assert!(!hc.is_healthy());
}

#[test]
fn wrong_reply_is_unhealthy_and_next_pong_restores() {
    let mut hc = ping_sent();
    hc.record(NOW, ProbeOutcome::Reply("PING".as_bytes().to_vec()));
    assert!(!hc.is_healthy());
    // no second probe within the same bucket
    assert_eq!(hc.poll(NOW + 1), ProbeAction::Wait);
    let later = NOW + 30;
    assert_eq!(hc.poll(later), ProbeAction::Connect);
    hc.record(later, ProbeOutcome::Connected);
    hc.record(later, ProbeOutcome::Sent);
    hc.record(later, ProbeOutcome::Reply(pong()));
    assert!(hc.is_healthy());
}

#[test]
fn write_failure_drops_socket() {
    let mut hc = HealthChecker::new(7, "127.0.0.1:2500".to_string());
    hc.record(NOW, ProbeOutcome::Connected);
    hc.record(NOW, ProbeOutcome::WouldBlock);
    assert_eq!(hc.ping_state, PingState::Connected);
    hc.record(NOW, ProbeOutcome::Failed);
    assert!(!hc.is_healthy());
    assert!(!hc.wants_socket());
    assert_eq!(hc.ping_state, PingState::Idle(NOW));
}

#[test]
fn buckets_round_down() {
    assert_eq!(time_bucket(0), 0);
    assert_eq!(time_bucket(29), 0);
    assert_eq!(time_bucket(30), 1);
    assert_eq!(time_bucket(1_700_000_000), 56_666_666);
    assert_eq!(time_bucket(-1), -1);
    assert_eq!(time_bucket(-30), -1);
    assert_eq!(time_bucket(-31), -2);
    assert_eq!(time_bucket(i64::MIN), i64::MIN / 30 - 1);
}

#[test]
fn pong_bytes() {
    assert!(is_pong(&pong()));
    assert!(!is_pong(&"PON".as_bytes().to_vec()));
    assert!(!is_pong(&"PONGS".as_bytes().to_vec()));
    assert!(!is_pong(&"pong".as_bytes().to_vec()));
}

#[test]
fn probe_sends_ping() {
    assert_eq!(ping_bytes(), "PING".as_bytes().to_vec());
}
