use tls_balancer::client::{ConnState, Transfer};
use tls_balancer::config::load_configuration;
use tls_balancer::handshake::{HandshakeEvent, PartialConnState, PartialConnection};
use tls_balancer::health::{ProbeAction, ProbeOutcome};
use tls_balancer::{Disposition, LoadBalancer, PromotionError};

const NOW: i64 = 1_700_000_010;

fn tlv(tag: u8, body: &[u8]) -> Vec<u8> {
    let mut out = vec![tag];
    let n = body.len();
    if n < 0x80 {
        out.push(n as u8);
    } else if n < 0x100 {
        out.push(0x81);
        out.push(n as u8);
    } else {
        out.push(0x82);
        out.push((n >> 8) as u8);
        out.push(n as u8);
    }
    out.extend_from_slice(body);
    out
}

fn seq(parts: &[Vec<u8>]) -> Vec<u8> {
    tlv(0x30, &parts.concat())
}

fn name(attrs: &[(&[u8], u8, &str)]) -> Vec<u8> {
    let rdns: Vec<Vec<u8>> = attrs
        .iter()
        .map(|(oid, tag, v)| tlv(0x31, &seq(&[tlv(0x06, oid), tlv(*tag, v.as_bytes())])))
        .collect();
    seq(&rdns)
}

const OID_CN: &[u8] = &[0x55, 0x04, 0x03];
const OID_EMAIL: &[u8] = &[0x2a, 0x86, 0x48, 0x86, 0xf7, 0x0d, 0x01, 0x09, 0x01];
const OID_SHA256_RSA: &[u8] = &[0x2a, 0x86, 0x48, 0x86, 0xf7, 0x0d, 0x01, 0x01, 0x0b];
const OID_RSA: &[u8] = &[0x2a, 0x86, 0x48, 0x86, 0xf7, 0x0d, 0x01, 0x01, 0x01];

/// A structurally valid DER certificate whose subject holds these attributes.
fn cert_with_subject(subject: &[(&[u8], u8, &str)]) -> Vec<u8> {
    let alg = seq(&[tlv(0x06, OID_SHA256_RSA), tlv(0x05, &[])]);
    let tbs = seq(&[
        tlv(0xa0, &tlv(0x02, &[2])),
        tlv(0x02, &[1]),
        alg.clone(),
        name(&[(OID_CN, 0x0c, "Test CA")]),
        seq(&[tlv(0x17, b"230101000000Z"), tlv(0x17, b"330101000000Z")]),
        name(subject),
        seq(&[seq(&[tlv(0x06, OID_RSA), tlv(0x05, &[])]), tlv(0x03, &[0, 1, 2, 3])]),
    ]);
    seq(&[tbs, alg, tlv(0x03, &[0, 9, 9, 9])])
}

fn cert_for(email: &str) -> Vec<u8> {
    cert_with_subject(&[(OID_CN, 0x0c, "client"), (OID_EMAIL, 0x16, email)])
}

/// Accepts one downstream connection and completes its handshake with a
/// certificate for `email`; returns the disposition the engine decides.
fn handshake(lb: &mut LoadBalancer, token: u64, email: &str) -> (PartialConnection, Disposition) {
    lb.accept(token);
    let events: Vec<HandshakeEvent> = lb
        .pending_tokens()
        .iter()
        .map(|t| if *t == token { HandshakeEvent::Finished(Some(cert_for(email))) } else { HandshakeEvent::Progress })
        .collect();
    lb.handle_handshakes(events);
    let mut done = lb.handle_partial_connections();
    assert_eq!(done.len(), 1);
    let session = done.pop().unwrap();
    let d = lb.plan(&session);
    (session, d)
}

/// A full promotion whose upstream connect succeeds.
fn open(lb: &mut LoadBalancer, token: u64, email: &str, now: i64) -> (u32, Result<(), PromotionError>) {
    let (session, d) = handshake(lb, token, email);
    match d {
        Disposition::Connect { server_id, .. } => (server_id, lb.promote(session, server_id, now)),
        other => panic!("unexpected disposition {:?}", other),
    }
}

fn quiet_observations(lb: &LoadBalancer) -> Vec<Vec<(Transfer, Transfer)>> {
    lb.connection_tokens()
        .iter()
        .map(|cs| cs.iter().map(|_| (Transfer::Forwarded, Transfer::Forwarded)).collect())
        .collect()
}

#[test]
fn identity_is_read_from_subject_email() {
    let mut s = PartialConnection::new(5);
    s.poll(HandshakeEvent::Finished(Some(cert_for("first@first.com"))));
    assert!(s.is_completed());
    assert_eq!(s.client_id().as_deref(), Some("first@first.com"));
    assert_eq!(s.token, 5);
}

#[test]
fn first_email_attribute_wins() {
    let der = cert_with_subject(&[(OID_EMAIL, 0x16, "a@a.a"), (OID_EMAIL, 0x16, "b@b.b")]);
    let mut s = PartialConnection::new(1);
    s.poll(HandshakeEvent::Finished(Some(der)));
    assert_eq!(s.client_id().as_deref(), Some("a@a.a"));
}

#[test]
fn certificate_without_email_fails() {
    let der = cert_with_subject(&[(OID_CN, 0x0c, "first@first.com")]);
    let mut s = PartialConnection::new(1);
    s.poll(HandshakeEvent::Finished(Some(der)));
    assert_eq!(s.state, PartialConnState::FAILED);
    assert_eq!(s.client_id(), None);
}

#[test]
fn garbage_certificate_fails() {
    let mut s = PartialConnection::new(1);
    s.poll(HandshakeEvent::Finished(Some(vec![0x30, 0x03, 0x01, 0x02])));
    assert_eq!(s.state, PartialConnState::FAILED);
}

#[test]
fn handshake_without_certificate_or_closed_fails() {
    let mut s = PartialConnection::new(1);
    s.poll(HandshakeEvent::Progress);
    assert_eq!(s.state, PartialConnState::INIT);
    s.poll(HandshakeEvent::Finished(None));
    assert_eq!(s.state, PartialConnState::FAILED);
    let mut t = PartialConnection::new(2);
    t.poll(HandshakeEvent::Closed);
    assert_eq!(t.state, PartialConnState::FAILED);
    // a finished session does not change
    t.poll(HandshakeEvent::Finished(Some(cert_for("first@first.com"))));
    assert_eq!(t.state, PartialConnState::FAILED);
}

#[test]
fn echo_round_trip_counts_one_connection() {
    let mut lb = load_configuration();
    let (server, r) = open(&mut lb, 1, "first@first.com", NOW);
    assert_eq!(r, Ok(()));
    assert!(server <= 2);
    for s in 0..3 {
        let want = if s == server { Some(1) } else { None };
        assert_eq!(lb.active_count(0, s), want);
    }
    let obs = quiet_observations(&lb);
    assert_eq!(lb.connection_tokens()[0], vec![1]);
    let reaped = lb.handle_clients(&obs);
    assert!(reaped.is_empty());
    assert_eq!(lb.active_count(0, server), Some(1));
}

#[test]
fn least_connections_spread() {
    let mut lb = LoadBalancer::new();
    let ids = ["a@x.io", "b@x.io", "c@x.io", "d@x.io", "e@x.io"];
    for id in ids {
        assert!(lb.add_client(id.to_string(), 7));
    }
    for s in 0..5 {
        lb.add_server(7, s, format!("127.0.0.1:{}", 2600 + s));
    }
    for k in 0..10u64 {
        let (_, r) = open(&mut lb, k, ids[(k % 5) as usize], NOW);
        assert_eq!(r, Ok(()));
    }
    for s in 0..5 {
        assert_eq!(lb.active_count(7, s), Some(2));
    }
}

#[test]
fn unhealthy_endpoints_are_skipped() {
    let mut lb = LoadBalancer::new();
    lb.add_client("first@first.com".to_string(), 0);
    for s in 0..10 {
        lb.add_server(0, s, format!("127.0.0.1:{}", 2500 + s));
    }
    let (now, reqs) = lb.handle_server_groups();
    assert_eq!(reqs.len(), 10);
    for rq in reqs {
        assert_eq!(rq.action, ProbeAction::Connect);
        if rq.server_id % 2 == 1 {
            lb.record_probe(rq.pool_id, rq.server_id, now, ProbeOutcome::Failed);
        } else {
            lb.record_probe(rq.pool_id, rq.server_id, now, ProbeOutcome::Connected);
        }
    }
    for k in 0..10u64 {
        let (server, r) = open(&mut lb, k, "first@first.com", NOW);
        assert_eq!(r, Ok(()));
        assert!(server % 2 == 0);
    }
    for s in 0..10 {
        let want = if s % 2 == 0 { Some(2) } else { None };
        assert_eq!(lb.active_count(0, s), want);
    }
}

#[test]
fn rate_limit_releases_rejected_counts() {
    let mut lb = load_configuration();
    let mut ok = 0;
    let mut limited = 0;
    for k in 0..20u64 {
        match open(&mut lb, k, "second@second.com", NOW).1 {
            Ok(()) => ok += 1,
            Err(PromotionError::RateLimited) => limited += 1,
            Err(e) => panic!("unexpected {:?}", e),
        }
    }
    assert_eq!((ok, limited), (10, 10));
    let total: usize = (3..6).map(|s| lb.active_count(1, s).unwrap_or(0)).sum();
    assert_eq!(total, 10);
    let rec = lb.client(&"second@second.com".to_string()).unwrap();
    assert_eq!(rec.connections().len(), 10);
    assert_eq!(rec.rate_count(NOW), 10);
}

#[test]
fn client_close_reaps_and_releases_once() {
    let mut lb = load_configuration();
    let (server, r) = open(&mut lb, 1, "first@first.com", NOW);
    assert_eq!(r, Ok(()));
    let mut obs = quiet_observations(&lb);
    obs[0][0] = (Transfer::Closed, Transfer::Idle);
    let reaped = lb.handle_clients(&obs);
    assert_eq!(reaped.len(), 1);
    assert_eq!(reaped[0].get_state(), ConnState::DOWN_DISCONNECT);
    assert_eq!(lb.active_count(0, server), Some(0));
    // nothing is released twice
    let obs = quiet_observations(&lb);
    assert!(lb.handle_clients(&obs).is_empty());
    assert_eq!(lb.active_count(0, server), Some(0));
}

#[test]
fn upstream_close_reaps_connection() {
    let mut lb = load_configuration();
    let (a, _) = open(&mut lb, 1, "first@first.com", NOW);
    let (b, _) = open(&mut lb, 2, "first@first.com", NOW);
    let mut obs = quiet_observations(&lb);
    obs[0][1] = (Transfer::Idle, Transfer::Closed);
    let reaped = lb.handle_clients(&obs);
    assert_eq!(reaped.len(), 1);
    assert_eq!(reaped[0].token, 2);
    assert_eq!(reaped[0].get_state(), ConnState::UP_DISCONNECT);
    assert_eq!(lb.active_count(0, b), Some(0));
    assert_eq!(lb.active_count(0, a), Some(1));
    assert_eq!(lb.connection_tokens()[0], vec![1]);
}

#[test]
fn auth_failure_creates_no_connection() {
    let mut lb = load_configuration();
    lb.accept(9);
    lb.handle_handshakes(vec![HandshakeEvent::Failed]);
    let done = lb.handle_partial_connections();
    assert_eq!(done.len(), 1);
    assert_eq!(done[0].state, PartialConnState::FAILED);
    assert_eq!(done[0].client_id(), None);
    assert_eq!(lb.plan(&done[0]), Disposition::Failed);
    assert!(lb.pending_tokens().is_empty());
    assert!(lb.connection_tokens().iter().all(|c| c.is_empty()));
    for s in 0..3 {
        assert_eq!(lb.active_count(0, s), None);
    }
}

#[test]
fn client_test_connection_client_connected_upstream_down() {
    // the upstream connect fails: the session is dropped, nothing is counted
    let mut lb = load_configuration();
    let (_session, d) = handshake(&mut lb, 3, "first@first.com");
    assert!(matches!(d, Disposition::Connect { pool_id: 0, .. }));
    for s in 0..3 {
        assert_eq!(lb.active_count(0, s), None);
    }
    assert!(lb.connection_tokens()[0].is_empty());
}

#[test]
fn lib_test_connection_client_connected_upstream_down() {
    let mut lb = load_configuration();
    let (_session, d) = handshake(&mut lb, 4, "first@first.com");
    if let Disposition::Connect { address, .. } = d {
        assert!(address.starts_with("127.0.0.1:250"));
    } else {
        panic!("expected a connect");
    }
    assert!(lb.connection_tokens().iter().all(|c| c.is_empty()));
}

#[test]
fn rejected_dispositions() {
    let mut lb = load_configuration();
    // unknown identity
    assert_eq!(handshake(&mut lb, 1, "nobody@x.io").1, Disposition::UnknownIdentity);
    // identity whose pool does not exist
    assert_eq!(handshake(&mut lb, 2, "third@third.com").1, Disposition::NoPool);
    // no healthy endpoint
    let (now, reqs) = lb.handle_server_groups();
    for rq in reqs {
        lb.record_probe(rq.pool_id, rq.server_id, now, ProbeOutcome::Failed);
    }
    assert_eq!(handshake(&mut lb, 3, "first@first.com").1, Disposition::NoHealthyUpstream);
}

#[test]
fn promotion_errors() {
    let mut lb = load_configuration();
    let anon = PartialConnection { token: 1, state: PartialConnState::COMPLETED, email_address: None };
    assert_eq!(lb.promote(anon, 0, NOW), Err(PromotionError::UnknownIdentity));
    let third = PartialConnection {
        token: 2,
        state: PartialConnState::COMPLETED,
        email_address: Some("third@third.com".to_string()),
    };
    assert_eq!(lb.promote(third, 0, NOW), Err(PromotionError::NoPool));
    let first = PartialConnection {
        token: 3,
        state: PartialConnState::COMPLETED,
        email_address: Some("first@first.com".to_string()),
    };
    assert_eq!(lb.promote(first, 4, NOW), Err(PromotionError::UnknownServer));
}

#[test]
fn sessions_still_handshaking_stay_pending() {
    let mut lb = load_configuration();
    lb.accept(1);
    lb.accept(2);
    lb.accept(3);
    lb.handle_handshakes(vec![
        HandshakeEvent::Progress,
        HandshakeEvent::Finished(Some(cert_for("first@first.com"))),
        HandshakeEvent::Closed,
    ]);
    let done = lb.handle_partial_connections();
    let tokens: Vec<u64> = done.iter().map(|s| s.token).collect();
    // latest accepted first
    assert_eq!(tokens, vec![3, 2]);
    assert_eq!(lb.plan(&done[0]), Disposition::Failed);
    assert!(matches!(lb.plan(&done[1]), Disposition::Connect { pool_id: 0, .. }));
    assert_eq!(lb.pending_tokens(), vec![1]);
}

#[test]
fn configuration_tables() {
    let lb = load_configuration();
    let first = lb.client(&"first@first.com".to_string()).unwrap();
    assert_eq!(first.get_server_group(), 0);
    let fourth = lb.client(&"fourth@fourth.com".to_string()).unwrap();
    assert_eq!(fourth.get_server_group(), 3);
    let sg = lb.server_group(1).unwrap();
    assert_eq!(sg.get_server_address(&4).map(|a| a.as_str()), Some("127.0.0.1:2504"));
    assert!(lb.server_group(2).is_none());
}

#[test]
fn handshakes_finishing_together_spread_over_endpoints() {
    let mut lb = load_configuration();
    for t in 0..3u64 {
        lb.accept(t);
    }
    let events = (0..3).map(|_| HandshakeEvent::Finished(Some(cert_for("first@first.com")))).collect();
    lb.handle_handshakes(events);
    let done = lb.handle_partial_connections();
    assert_eq!(done.len(), 3);
    let mut chosen = Vec::new();
    for session in done {
        match lb.plan(&session) {
            Disposition::Connect { server_id, .. } => {
                assert_eq!(lb.promote(session, server_id, NOW), Ok(()));
                chosen.push(server_id);
            }
            other => panic!("unexpected disposition {:?}", other),
        }
    }
    chosen.sort();
    assert_eq!(chosen, vec![0, 1, 2]);
    for s in 0..3 {
        assert_eq!(lb.active_count(0, s), Some(1));
    }
}

#[test]
fn failed_handshake_drops_identity() {
    let mut s = PartialConnection {
        token: 1,
        state: PartialConnState::INIT,
        email_address: Some("first@first.com".to_string()),
    };
    s.poll(HandshakeEvent::Failed);
    assert_eq!(s.state, PartialConnState::FAILED);
    assert_eq!(s.client_id(), None);
    let mut t = PartialConnection {
        token: 2,
        state: PartialConnState::INIT,
        email_address: Some("first@first.com".to_string()),
    };
    t.poll(HandshakeEvent::Finished(None));
    assert!(!t.is_completed());
    assert_eq!(t.client_id(), None);
}

#[test]
fn configuration_addresses_and_no_counts() {
    let lb = load_configuration();
    for (g, s, port) in [(0u32, 0u32, 2500), (0, 1, 2501), (0, 2, 2502), (1, 3, 2503), (1, 4, 2504), (1, 5, 2505)] {
        let sg = lb.server_group(g).unwrap();
        assert_eq!(sg.get_server_address(&s).cloned(), Some(format!("127.0.0.1:{}", port)));
        assert_eq!(lb.active_count(g, s), None);
    }
}
