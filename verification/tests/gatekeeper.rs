use shardworld::gatekeeper::{
    find_available_server, get_zone_for_ip, health_handler, login_handler, welcome, LoginRequest,
    ServerRecord, ServerSearch, UNAUTHORIZED,
};

fn request(username: &str, password: Option<&str>) -> LoginRequest {
    LoginRequest {
        username: username.to_string(),
        password: password.map(|p| p.to_string()),
    }
}

fn record(ip: &str, port: u16, zone: &str, status: Option<&str>) -> ServerRecord {
    ServerRecord {
        ip: Some(ip.to_string()),
        port: Some(port),
        zone: Some(zone.to_string()),
        status: status.map(|s| s.to_string()),
    }
}

#[test]
fn the_gatekeeper_is_up() {
    assert_eq!(health_handler().status, "ok");
}

#[test]
fn zones_by_address() {
    for near in ["192.168.1.1", "10.0.0.1", "127.0.0.1", "10."] {
        assert_eq!(get_zone_for_ip(near), "zone_A");
    }
    for far in ["8.8.8.8", "1.192.0.0", "100.1.1.1", "", "19"] {
        assert_eq!(get_zone_for_ip(far), "zone_B");
    }
}

#[test]
fn known_players_are_let_in() {
    let response = login_handler(&request("ann", Some("1234")), None, None).unwrap();
    assert_eq!(response.broker.ip, "127.0.0.1");
    assert_eq!(response.broker.port, 9000);
    assert_eq!(response.broker.zone, "global");
    assert_eq!(response.player_id.len(), 36);
    let again = login_handler(&request("ann", Some("1234")), None, None).unwrap();
    assert_ne!(again.player_id, response.player_id);
}

#[test]
fn strangers_are_refused() {
    for bad in [
        request("", Some("1234")),
        request("ann", None),
        request("ann", Some("")),
        request("ann", Some("12345")),
        request("ann", Some("4321")),
    ] {
        let refusal = login_handler(&bad, None, None).unwrap_err();
        assert_eq!(refusal.error, "Invalid credentials");
    }
    assert_eq!(UNAUTHORIZED, 401);
}

#[test]
fn the_broker_is_where_the_variables_say() {
    let response = welcome(
        "me".to_string(),
        Some("broker.local".to_string()),
        Some("9100".to_string()),
    );
    assert_eq!(response.player_id, "me");
    assert_eq!((response.broker.ip.as_str(), response.broker.port), ("broker.local", 9100));
    let odd = welcome("me".to_string(), None, Some("99999".to_string()));
    assert_eq!(odd.broker.port, 9000);
}

#[test]
fn a_server_in_the_zone_comes_first() {
    let records = vec![
        record("a", 1, "zone_B", None),
        record("b", 2, "zone_A", Some("full")),
        record("c", 3, "zone_A", Some("available")),
        record("d", 4, "zone_A", None),
    ];
    let info = find_available_server(&records, "zone_A").unwrap();
    assert_eq!((info.ip.as_str(), info.port, info.zone.as_str()), ("c", 3, "zone_A"));
}

#[test]
fn any_server_is_better_than_none() {
    let mut incomplete = record("x", 9, "zone_A", None);
    incomplete.port = None;
    let records = vec![
        incomplete.clone(),
        record("a", 1, "zone_C", Some("full")),
        record("b", 2, "zone_B", None),
        record("c", 3, "zone_C", Some("available")),
    ];
    let info = find_available_server(&records, "zone_A").unwrap();
    assert_eq!((info.ip.as_str(), info.port, info.zone.as_str()), ("b", 2, "zone_B"));
    assert!(find_available_server(&vec![incomplete], "zone_A").is_none());
    assert!(find_available_server(&vec![], "zone_A").is_none());
}

#[test]
fn a_search_goes_record_by_record() {
    let mut search = ServerSearch::new();
    assert!(search.consider(&record("a", 1, "zone_B", None), "zone_A").is_none());
    assert!(search.consider(&record("b", 2, "zone_C", None), "zone_A").is_none());
    assert_eq!(search.fallback.as_ref().unwrap().ip, "a");
    let found = search.consider(&record("c", 3, "zone_A", None), "zone_A").unwrap();
    assert_eq!(found.ip, "c");
}
