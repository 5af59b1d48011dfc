use wakeup::ip::is_valid_ip;
use wakeup::model::default_retry_duration;
use wakeup::model::default_timeout_duration;
use wakeup::model::truncate_command;

#[test]
fn test_default_durations() {
    assert_eq!(default_retry_duration(), 10_000);
    assert_eq!(default_timeout_duration(), 300_000);
}

#[test]
fn test_truncate_long_command() {
    let long = "a-rather-long-command --with --many --flags";
    let shown = truncate_command(long, 30);
    assert_eq!(shown.len(), 30);
    assert_eq!(shown, "a-rather-long-command --wit...");
}

#[test]
fn test_truncate_short_command() {
    let short = "echo hi";
    assert_eq!(truncate_command(short, 30), "echo hi");
}

#[test]
fn test_ipv4_literals() {
    assert!(is_valid_ip("192.168.1.1"));
    assert!(is_valid_ip("0.0.0.0"));
    assert!(is_valid_ip("255.255.255.255"));
    assert!(!is_valid_ip("invalid_ip"));
    assert!(!is_valid_ip("256.1.1.1"));
    assert!(!is_valid_ip("1.2.3"));
    assert!(!is_valid_ip("1.2.3.4.5"));
    assert!(!is_valid_ip("01.2.3.4"));
    assert!(!is_valid_ip("1.2.3."));
    assert!(!is_valid_ip(""));
}

#[test]
fn test_ipv6_literals() {
    assert!(is_valid_ip("::"));
    assert!(is_valid_ip("::1"));
    assert!(is_valid_ip("fe80::1"));
    assert!(is_valid_ip("2001:db8:0:0:0:0:2:1"));
    assert!(is_valid_ip("1:2:3:4:5:6:7:8"));
    assert!(is_valid_ip("1:2:3:4:5:6:7::"));
    assert!(is_valid_ip("::ffff:192.168.0.1"));
    assert!(is_valid_ip("1:2:3:4:5:6:1.2.3.4"));
    assert!(!is_valid_ip(":::"));
    assert!(!is_valid_ip("1:2:3:4:5:6:7:8:9"));
    assert!(!is_valid_ip("1::2::3"));
    assert!(!is_valid_ip("1:2:3:4:5:6:7:8::"));
    assert!(!is_valid_ip("fffff::1"));
    assert!(!is_valid_ip("g::1"));
    assert!(!is_valid_ip("1:"));
    assert!(!is_valid_ip(":1"));
}
