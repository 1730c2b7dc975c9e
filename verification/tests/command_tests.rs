use sulafat_core::command::{build_ssh_command, parse_quick_target, ConnectTarget};

#[test]
fn alias_command_is_just_ssh_and_the_alias() {
    assert_eq!(build_ssh_command(&ConnectTarget::Alias("prod".into())), vec!["ssh", "--", "prod"]);
}

#[test]
fn quick_command_includes_user_and_port_when_present() {
    let target = ConnectTarget::Quick { user: Some("admin".into()), host: "10.0.0.1".into(), port: Some(2222) };
    assert_eq!(build_ssh_command(&target), vec!["ssh", "-p", "2222", "--", "admin@10.0.0.1"]);
}

#[test]
fn quick_command_without_user_or_port() {
    let target = ConnectTarget::Quick { user: None, host: "10.0.0.1".into(), port: None };
    assert_eq!(build_ssh_command(&target), vec!["ssh", "--", "10.0.0.1"]);
}

#[test]
fn parses_user_host_port() {
    let target = parse_quick_target("admin@10.0.0.1:2222").unwrap();
    assert_eq!(
        target,
        ConnectTarget::Quick { user: Some("admin".into()), host: "10.0.0.1".into(), port: Some(2222) }
    );
}

#[test]
fn parses_bare_host() {
    let target = parse_quick_target("10.0.0.1").unwrap();
    assert_eq!(target, ConnectTarget::Quick { user: None, host: "10.0.0.1".into(), port: None });
}

#[test]
fn parses_ipv6_without_confusing_it_with_a_port() {
    assert_eq!(
        parse_quick_target("::1"),
        Some(ConnectTarget::Quick { user: None, host: "::1".into(), port: None })
    );
    assert_eq!(
        parse_quick_target("admin@[::1]:2222"),
        Some(ConnectTarget::Quick { user: Some("admin".into()), host: "::1".into(), port: Some(2222) })
    );
}

#[test]
fn rejects_options_controls_and_invalid_ports() {
    for value in ["-V", "user@-host", "host:0", "host:65536", "host:abc", "host\nProxyCommand=x"] {
        assert_eq!(parse_quick_target(value), None, "{value}");
    }
}

#[test]
fn empty_input_is_rejected() {
    assert_eq!(parse_quick_target("   "), None);
    assert_eq!(parse_quick_target("user@"), None);
}

#[test]
fn surrounding_whitespace_is_trimmed() {
    assert_eq!(
        parse_quick_target("  admin@example.org:22  "),
        Some(ConnectTarget::Quick { user: Some("admin".into()), host: "example.org".into(), port: Some(22) })
    );
}

#[test]
fn highest_port_is_accepted_and_leading_plus_is_read_as_rust_does() {
    assert_eq!(
        parse_quick_target("host:65535"),
        Some(ConnectTarget::Quick { user: None, host: "host".into(), port: Some(65535) })
    );
    assert_eq!(
        parse_quick_target("host:+22"),
        Some(ConnectTarget::Quick { user: None, host: "host".into(), port: Some(22) })
    );
}

#[test]
fn last_at_sign_separates_the_user() {
    assert_eq!(
        parse_quick_target("a@b@host"),
        Some(ConnectTarget::Quick { user: Some("a@b".into()), host: "host".into(), port: None })
    );
}

#[test]
fn alias_starting_with_dash_is_still_passed_after_the_separator() {
    assert_eq!(build_ssh_command(&ConnectTarget::Alias("-oProxyCommand=x".into())), vec![
        "ssh",
        "--",
        "-oProxyCommand=x"
    ]);
}

#[test]
fn quick_command_with_port_but_no_user() {
    let target = ConnectTarget::Quick { user: None, host: "h".into(), port: Some(1) };
    assert_eq!(build_ssh_command(&target), vec!["ssh", "-p", "1", "--", "h"]);
}

#[test]
fn port_text_parses_as_rust_does() {
    assert_eq!(sulafat_core::num::parse_u16_text("2222"), Some(2222));
    assert_eq!(sulafat_core::num::parse_u16_text("+22"), Some(22));
    assert_eq!(sulafat_core::num::parse_u16_text("65536"), None);
    assert_eq!(sulafat_core::num::parse_u16_text(""), None);
    assert_eq!(sulafat_core::num::parse_u16_text("0"), Some(0));
}
