use tls_balancer::client::{Client, ConnState, Connection, Transfer, RATE_LIMIT};

const NOW: i64 = 1_700_000_010;

fn conn(token: u64, state: ConnState) -> Connection {
    Connection { token, conn_state: state, upstream_serv_group: 0, upstream_serv_id: 0 }
}

fn client_cleanup() {
    let mut cli = Client::new("".to_string(), 0);
    let states = [
        ConnState::OKAY,
        ConnState::OKAY,
        ConnState::OKAY,
        ConnState::UP_DISCONNECT,
        ConnState::UP_TIMEOUT,
        ConnState::DOWN_DISCONNECT,
        ConnState::DOWN_TIMEOUT,
        ConnState::DOWN_ENC_ERR,
    ];
    for (i, s) in states.iter().enumerate() {
        cli.add_connection(conn(i as u64, *s));
    }
    let bad_connections = cli.cleanup_connections();
    assert!(bad_connections.len() == 5);
    assert!(cli.connections().len() == 3);
    let removed: Vec<u64> = bad_connections.iter().map(|c| c.token).collect();
    assert_eq!(removed, vec![3, 4, 5, 6, 7]);
}

fn data_transfer() {
    let mut cxn = Connection::new(1, 0, 0);
    cxn.poll(Transfer::Forwarded, Transfer::Forwarded);
    assert!(cxn.get_state() == ConnState::OKAY);
    assert!(cxn.is_okay());
}

fn client_drops() {
    let mut cxn = Connection::new(1, 0, 0);
    cxn.poll(Transfer::Forwarded, Transfer::Forwarded);
    cxn.poll(Transfer::Closed, Transfer::Idle);
    assert!(cxn.get_state() == ConnState::DOWN_DISCONNECT);
}

fn upstream_drops() {
    let mut cxn = Connection::new(1, 0, 0);
    cxn.poll(Transfer::Forwarded, Transfer::Forwarded);
    cxn.poll(Transfer::Idle, Transfer::Closed);
    assert!(cxn.get_state() == ConnState::UP_DISCONNECT);
}

#[test]
fn client_test_client_cleanup() {
    client_cleanup();
}

#[test]
fn lib_test_client_cleanup() {
    client_cleanup();
}

#[test]
fn client_test_connection_both_connected_data_transfer() {
    data_transfer();
}

#[test]
fn lib_test_connection_both_connected_data_transfer() {
    data_transfer();
}

#[test]
fn client_test_connection_both_connected_client_drops() {
    client_drops();
}

#[test]
fn lib_test_connection_both_connected_client_drops() {
    client_drops();
}

#[test]
fn client_test_connection_both_connected_upstream_drops() {
    upstream_drops();
}

#[test]
fn lib_test_connection_both_connected_upstream_drops() {
    upstream_drops();
}

#[test]
fn transfer_classification() {
    let cases = [
        (Transfer::Idle, Transfer::Idle, ConnState::OKAY),
        (Transfer::ReadFailed, Transfer::Idle, ConnState::DOWN_DISCONNECT),
        (Transfer::TlsFailed, Transfer::Idle, ConnState::DOWN_ENC_ERR),
        (Transfer::WriteFailed, Transfer::Idle, ConnState::UP_DISCONNECT),
        (Transfer::Idle, Transfer::ReadFailed, ConnState::UP_DISCONNECT),
        (Transfer::Idle, Transfer::WriteFailed, ConnState::DOWN_DISCONNECT),
        (Transfer::Idle, Transfer::TlsFailed, ConnState::DOWN_ENC_ERR),
        // the downstream direction is classified first
        (Transfer::Closed, Transfer::Closed, ConnState::DOWN_DISCONNECT),
    ];
    for (down, up, want) in cases {
        let mut cxn = Connection::new(2, 1, 4);
        cxn.poll(down, up);
        assert_eq!(cxn.get_state(), want);
        assert_eq!(cxn.get_upstream_server_group(), 1);
        assert_eq!(cxn.get_upstream_server_id(), 4);
    }
}

#[test]
fn terminal_state_is_inert() {
    let mut cxn = Connection::new(3, 0, 0);
    cxn.poll(Transfer::Idle, Transfer::Closed);
    cxn.poll(Transfer::Closed, Transfer::Idle);
    assert_eq!(cxn.get_state(), ConnState::UP_DISCONNECT);
    assert!(!cxn.is_okay());
}

#[test]
fn rate_limit_ten_per_bucket() {
    let mut cli = Client::new("first@first.com".to_string(), 0);
    let mut admitted = 0;
    for i in 0..20u64 {
        if cli.admit_connection(Connection::new(i, 0, 0), NOW) {
            admitted += 1;
        }
    }
    assert_eq!(admitted, RATE_LIMIT);
    assert_eq!(cli.connections().len(), 10);
    assert_eq!(cli.rate_count(NOW), 10);
}

#[test]
fn admit_across_bucket_boundary() {
    let mut cli = Client::new("first@first.com".to_string(), 0);
    let start = 1_700_000_010; // bucket 56666667 starts here
    for i in 0..10u64 {
        assert!(cli.admit_connection(Connection::new(i, 0, 0), start + 29));
    }
    assert!(!cli.admit_connection(Connection::new(10, 0, 0), start + 29));
    assert_eq!(cli.rate_count(start + 30), 0);
    assert!(cli.admit_connection(Connection::new(11, 0, 0), start + 30));
    assert_eq!(cli.rate_count(start + 30), 1);
    assert_eq!(cli.connections().len(), 11);
}

#[test]
fn client_poll_steps_each_connection() {
    let mut cli = Client::new("a@b.c".to_string(), 2);
    cli.add_connection(Connection::new(1, 2, 0));
    cli.add_connection(Connection::new(2, 2, 1));
    cli.poll(&vec![(Transfer::Forwarded, Transfer::Idle), (Transfer::Closed, Transfer::Idle)]);
    let states: Vec<ConnState> = cli.connections().iter().map(|c| c.get_state()).collect();
    assert_eq!(states, vec![ConnState::OKAY, ConnState::DOWN_DISCONNECT]);
    let gone = cli.cleanup_connections();
    assert_eq!(gone.len(), 1);
    assert_eq!(gone[0].token, 2);
    assert_eq!(cli.get_server_group(), 2);
    assert_eq!(cli.email().as_str(), "a@b.c");
}
