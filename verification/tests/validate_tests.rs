use wakeup::model::CheckStatus;
use wakeup::model::HealthCheck;
use wakeup::model::HealthCheckMethod;
use wakeup::model::Server;
use wakeup::model::ServerConfigError;
use wakeup::model::ServerStatus;
use wakeup::model::default_retry_duration;
use wakeup::model::default_timeout_duration;
use wakeup::validate::parse_server_dependencies;
use wakeup::validate::validate_health_check;

fn check(method: HealthCheckMethod) -> HealthCheck {
    HealthCheck {
        retry: default_retry_duration(),
        timeout: default_timeout_duration(),
        method,
        status: CheckStatus::Waiting,
    }
}

fn server_with_checks(name: &str, checks: Vec<HealthCheck>) -> Server {
    Server {
        name: name.to_string(),
        mac: "00:11:22:33:44:55".to_string(),
        interface: "eth0".to_string(),
        vlan: Some(100),
        depends: Vec::new(),
        check: checks,
        status: ServerStatus::Waiting,
    }
}

#[test]
fn test_invalid_http_check() {
    let method = HealthCheckMethod::Http {
        url: "http://example.com".to_string(),
        status: None,
        regex: None,
    };
    let result = validate_health_check(&method);
    assert!(matches!(
        result,
        Err(ServerConfigError::BadHealthCheckDefinition(_))
    ));
}

#[test]
fn test_invalid_shell_check() {
    let method = HealthCheckMethod::Shell {
        command: "curl something".to_string(),
        status: None,
        regex: None,
    };
    let result = validate_health_check(&method);
    assert!(matches!(
        result,
        Err(ServerConfigError::BadHealthCheckDefinition(_))
    ));
}

#[test]
fn test_invalid_port_check() {
    let method = HealthCheckMethod::Port {
        ip: "invalid_ip".to_string(),
        port: 80,
    };
    let result = validate_health_check(&method);
    assert!(matches!(
        result,
        Err(ServerConfigError::BadHealthCheckDefinition(_))
    ));
}

#[test]
fn test_valid_health_checks() {
    let methods = vec![
        HealthCheckMethod::Http {
            url: "http://example.com".to_string(),
            status: Some(200),
            regex: None,
        },
        HealthCheckMethod::Port {
            ip: "192.168.1.1".to_string(),
            port: 80,
        },
        HealthCheckMethod::Shell {
            command: "echo Hello".to_string(),
            status: None,
            regex: Some("Hello".to_string()),
        },
    ];
    for method in &methods {
        let result = validate_health_check(method);
        assert!(result.is_ok())
    }
}

#[test]
fn test_http_check_single_criterion_passes() {
    let status_only = HealthCheckMethod::Http {
        url: "http://example.com".to_string(),
        status: Some(200),
        regex: None,
    };
    let regex_only = HealthCheckMethod::Http {
        url: "http://example.com".to_string(),
        status: None,
        regex: Some("ready".to_string()),
    };
    let both = HealthCheckMethod::Http {
        url: "http://example.com".to_string(),
        status: Some(200),
        regex: Some("ready".to_string()),
    };
    assert!(validate_health_check(&status_only).is_ok());
    assert!(validate_health_check(&regex_only).is_ok());
    assert!(validate_health_check(&both).is_ok());
}

#[test]
fn test_parse_rejects_duplicate_names() {
    let servers = vec![
        server_with_checks("twin", Vec::new()),
        server_with_checks("twin", Vec::new()),
    ];
    let result = parse_server_dependencies(&servers);
    assert!(matches!(result, Err(ServerConfigError::ParseError(_))));
}

#[test]
fn test_parse_rejects_bad_pattern() {
    let servers = vec![server_with_checks(
        "one",
        vec![check(HealthCheckMethod::Shell {
            command: "echo hi".to_string(),
            status: None,
            regex: Some("(unclosed".to_string()),
        })],
    )];
    let result = parse_server_dependencies(&servers);
    assert!(matches!(result, Err(ServerConfigError::ParseError(_))));
}

#[test]
fn test_parse_rejects_invalid_check() {
    let servers = vec![server_with_checks(
        "one",
        vec![check(HealthCheckMethod::Http {
            url: "http://example.com".to_string(),
            status: None,
            regex: None,
        })],
    )];
    let result = parse_server_dependencies(&servers);
    assert!(matches!(
        result,
        Err(ServerConfigError::BadHealthCheckDefinition(_))
    ));
}

#[test]
fn test_parse_orders_valid_configuration() {
    let mut a = server_with_checks("server_a", Vec::new());
    a.depends = vec!["server_b".to_string()];
    let b = server_with_checks("server_b", Vec::new());
    let result = parse_server_dependencies(&vec![a, b]).expect("valid configuration must load");
    let names: Vec<String> = result.into_iter().map(|s| s.name).collect();
    assert_eq!(names, vec!["server_b", "server_a"]);
}
