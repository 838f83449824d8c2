use tls_balancer::health::ProbeOutcome;
use tls_balancer::server::ServerGroup;

fn pool_of(n: u32) -> ServerGroup {
    let mut sg = ServerGroup::new(0);
    for i in 0..n {
        sg.add_server(i, "".to_string());
    }
    sg
}

fn mark_unhealthy(sg: &mut ServerGroup, id: u32) {
    sg.record_probe_at(id, 0, ProbeOutcome::Failed);
    assert!(!sg.is_server_healthy(id));
}

fn find_min() {
    let mut sg = pool_of(5);
    let mut cnt: usize = 0;
    for _ in 0..10 {
        if let Some(id) = sg.find_min() {
            cnt += 1;
            sg.add_connection(&id);
        }
    }
    assert!(cnt == 10);
    for i in 0..5 {
        match sg.active_count(i) {
            Some(c) => assert!(c == 2),
            None => assert!(false),
        }
    }
}

fn add_and_remove_connections() {
    let mut sg = pool_of(5);
    let mut cnt: usize = 0;
    for _ in 0..10 {
        if let Some(id) = sg.find_min() {
            cnt += 1;
            sg.add_connection(&id);
        }
    }
    for i in 0..5 {
        sg.remove_connection(&i);
    }
    assert!(cnt == 10);
    for i in 0..5 {
        match sg.active_count(i) {
            Some(c) => assert!(c == 1),
            None => assert!(false),
        }
    }
}

fn find_min_and_healthy() {
    let mut sg = pool_of(5);
    let mut cnt: usize = 0;
    for _ in 0..10 {
        if let Some(id) = sg.find_min_and_healthy() {
            cnt += 1;
            sg.add_connection(&id);
        }
    }
    assert!(cnt == 10);
    for i in 0..5 {
        match sg.active_count(i) {
            Some(c) => assert!(c == 2),
            None => assert!(false),
        }
    }
}

fn find_min_and_some_unhealthy() {
    let mut sg = pool_of(5);
    for i in 0..5 {
        mark_unhealthy(&mut sg, i);
    }
    let mut cnt: usize = 0;
    for _ in 0..10 {
        if let Some(id) = sg.find_min_and_healthy() {
            cnt += 1;
            sg.add_connection(&id);
        }
    }
    assert!(cnt == 0);
    for i in 0..5 {
        assert!(sg.active_count(i).is_none());
    }
}

fn find_min_and_all_unhealthy() {
    let mut sg = pool_of(10);
    for i in 5..10 {
        mark_unhealthy(&mut sg, i);
    }
    let mut cnt: usize = 0;
    for _ in 0..10 {
        if let Some(id) = sg.find_min_and_healthy() {
            cnt += 1;
            sg.add_connection(&id);
        }
    }
    assert!(cnt == 10);
    for i in 0..5 {
        match sg.active_count(i) {
            Some(c) => assert!(c == 2),
            None => assert!(false),
        }
    }
    for i in 5..10 {
        assert!(sg.active_count(i).is_none());
    }
}

#[test]
fn server_test_server_group_find_min() {
    find_min();
}

#[test]
fn lib_test_server_group_find_min() {
    find_min();
}

#[test]
fn server_test_server_group_add_and_remove_connections() {
    add_and_remove_connections();
}

#[test]
fn lib_test_server_group_add_and_remove_connections() {
    add_and_remove_connections();
}

#[test]
fn server_test_server_group_find_min_and_healthy() {
    find_min_and_healthy();
}

#[test]
fn lib_test_server_group_find_min_and_healthy() {
    find_min_and_healthy();
}

#[test]
fn server_test_server_group_find_min_and_some_unhealthy() {
    find_min_and_some_unhealthy();
}

#[test]
fn lib_test_server_group_find_min_and_some_unhealthy() {
    find_min_and_some_unhealthy();
}

#[test]
fn server_test_server_group_find_min_and_all_unhealthy() {
    find_min_and_all_unhealthy();
}

#[test]
fn lib_test_server_group_find_min_and_all_unhealthy() {
    find_min_and_all_unhealthy();
}

#[test]
fn acquire_on_empty_pool() {
    let sg = ServerGroup::new(3);
    assert_eq!(sg.id(), 3);
    assert_eq!(sg.find_min(), None);
    assert_eq!(sg.find_min_and_healthy(), None);
}

#[test]
fn never_used_endpoint_is_preferred() {
    let mut sg = pool_of(3);
    sg.add_connection(&0);
    sg.add_connection(&1);
    sg.remove_connection(&0);
    sg.remove_connection(&1);
    // endpoints 0 and 1 have recorded zeros; 2 was never used
    assert_eq!(sg.active_count(0), Some(0));
    assert_eq!(sg.find_min(), Some(2));
}

#[test]
fn least_loaded_earliest_wins_ties() {
    let mut sg = pool_of(3);
    for id in [0u32, 0, 1, 2, 2] {
        sg.add_connection(&id);
    }
    assert_eq!(sg.find_min(), Some(1));
    sg.add_connection(&1);
    assert_eq!(sg.find_min(), Some(0));
}

#[test]
fn release_saturates_at_zero() {
    let mut sg = pool_of(2);
    sg.remove_connection(&0);
    assert_eq!(sg.active_count(0), None);
    sg.add_connection(&0);
    sg.remove_connection(&0);
    sg.remove_connection(&0);
    assert_eq!(sg.active_count(0), Some(0));
    // an id that is not an endpoint is ignored
    sg.add_connection(&9);
    sg.remove_connection(&9);
    assert_eq!(sg.active_count(9), None);
}

#[test]
fn re_adding_endpoint_keeps_count() {
    let mut sg = pool_of(2);
    sg.add_connection(&1);
    mark_unhealthy(&mut sg, 1);
    sg.add_server(1, "127.0.0.1:2599".to_string());
    assert_eq!(sg.active_count(1), Some(1));
    assert!(sg.is_server_healthy(1));
    assert_eq!(sg.get_server_address(&1).map(|a| a.as_str()), Some("127.0.0.1:2599"));
    assert!(sg.get_server_address(&4).is_none());
}

#[test]
fn unhealthy_skip_spreads_over_healthy() {
    let mut sg = pool_of(10);
    for i in [1u32, 3, 5, 7, 9] {
        mark_unhealthy(&mut sg, i);
    }
    for _ in 0..10 {
        let id = sg.find_min_and_healthy().unwrap();
        assert!(id % 2 == 0);
        sg.add_connection(&id);
    }
    for i in [0u32, 2, 4, 6, 8] {
        assert_eq!(sg.active_count(i), Some(2));
    }
}

#[test]
fn pool_poll_reports_due_probes() {
    let mut sg = pool_of(2);
    let due = sg.poll(1_700_000_000);
    assert_eq!(due.len(), 2);
    assert_eq!(due[0].0, 0);
    assert_eq!(due[1].0, 1);
    assert!(due.iter().all(|d| d.1 == tls_balancer::health::ProbeAction::Connect));
}
