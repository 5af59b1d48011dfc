use wakeup::model::Server;
use wakeup::model::ServerConfigError;
use wakeup::model::ServerStatus;
use wakeup::resolve::determine_wakeup_order;

fn server(name: &str, mac: &str, interface: &str, vlan: Option<u16>, depends: &[&str]) -> Server {
    Server {
        name: name.to_string(),
        mac: mac.to_string(),
        interface: interface.to_string(),
        vlan,
        depends: depends.iter().map(|d| d.to_string()).collect(),
        check: Vec::new(),
        status: ServerStatus::Waiting,
    }
}

#[test]
fn test_circular_dependencies() {
    let servers = vec![
        server("server1", "00:11:22:33:44:55", "eth0", Some(100), &["server2"]),
        server("server2", "66:77:88:99:AA:BB", "eth0", Some(100), &["server3"]),
        server("server3", "AA:BB:CC:DD:EE:FF", "eth1", Some(200), &["server4"]),
        server("server4", "FF:EE:DD:CC:BB:AA", "eth1", Some(200), &["server1"]),
    ];

    let result = determine_wakeup_order(&servers);
    match result {
        Err(ServerConfigError::CircularDependency(circular_server)) => {
            assert_eq!(circular_server, "server1".to_string());
        }
        _ => panic!("Expected a circular dependency error"),
    }
}

#[test]
fn test_no_circular_dependencies_with() {
    let servers = vec![
        server("server1", "00:11:22:33:44:55", "eth0", Some(100), &["server2"]),
        server("server2", "66:77:88:99:AA:BB", "eth0", Some(100), &["server3"]),
        server("server3", "AA:BB:CC:DD:EE:FF", "eth1", Some(200), &[]),
    ];

    let result = determine_wakeup_order(&servers);
    assert!(result.is_ok(), "Expected no circular dependencies");
}

#[test]
fn test_determine_wakeup_order() {
    let servers = vec![
        server("server_a", "00:11:22:33:44:55", "eth0", None, &["server_b", "server_c"]),
        server("server_b", "11:22:33:44:55:66", "eth0", None, &["server_c"]),
        server("server_c", "22:33:44:55:66:77", "eth0", None, &[]),
    ];

    let expected_order = vec!["server_c", "server_b", "server_a"];

    let result = determine_wakeup_order(&servers).expect("Failed to determine wakeup order");

    assert_eq!(
        result.into_iter().map(|s| s.name).collect::<Vec<String>>(),
        expected_order
    );
}

#[test]
fn test_no_edges_preserves_input_order() {
    let servers = vec![
        server("a", "00:00:00:00:00:01", "eth0", None, &[]),
        server("b", "00:00:00:00:00:02", "eth0", None, &[]),
        server("c", "00:00:00:00:00:03", "eth0", None, &[]),
    ];
    let result = determine_wakeup_order(&servers).expect("no edges must resolve");
    let names: Vec<String> = result.into_iter().map(|s| s.name).collect();
    assert_eq!(names, vec!["a", "b", "c"]);
}

#[test]
fn test_undefined_dependency() {
    let servers = vec![server("a", "00:00:00:00:00:01", "eth0", None, &["ghost"])];
    match determine_wakeup_order(&servers) {
        Err(ServerConfigError::UndefinedDependency(name)) => assert_eq!(name, "ghost"),
        _ => panic!("Expected an undefined dependency error"),
    }
}

#[test]
fn test_self_dependency_is_circular() {
    let servers = vec![server("loner", "00:00:00:00:00:01", "eth0", None, &["loner"])];
    match determine_wakeup_order(&servers) {
        Err(ServerConfigError::CircularDependency(name)) => assert_eq!(name, "loner"),
        _ => panic!("Expected a circular dependency error"),
    }
}

#[test]
fn test_empty_list_resolves_empty() {
    let servers: Vec<Server> = Vec::new();
    let result = determine_wakeup_order(&servers).expect("empty list must resolve");
    assert!(result.is_empty());
}

#[test]
fn test_diamond_order_is_deterministic() {
    // d has no deps; b and c depend on d; a depends on b and c.
    let servers = vec![
        server("a", "00:00:00:00:00:01", "eth0", None, &["b", "c"]),
        server("b", "00:00:00:00:00:02", "eth0", None, &["d"]),
        server("c", "00:00:00:00:00:03", "eth0", None, &["d"]),
        server("d", "00:00:00:00:00:04", "eth0", None, &[]),
    ];
    let result = determine_wakeup_order(&servers).expect("diamond must resolve");
    let names: Vec<String> = result.into_iter().map(|s| s.name).collect();
    assert_eq!(names, vec!["d", "b", "c", "a"]);
}
