use std::path::PathBuf;

use sulafat_core::ssh_config::parser::{parse, render};
use sulafat_core::ssh_config::model::Segment;
use sulafat_core::ssh_config::writer::{apply_known_field, remove, upsert, upsert_renaming};
use sulafat_core::ssh_config::KnownDirective;
use sulafat_core::ssh_config::{ReadOutcome, SshConfig, SshHost};

#[test]
fn list_hosts_reports_managed_and_wildcard_entries() {
    let cfg = SshConfig::parse(
        PathBuf::from("config"),
        "Host prod\n    HostName 10.0.0.1\n    User admin\n\nHost *\n    ServerAliveInterval 60\n",
    );
    let hosts = cfg.list_hosts();
    assert_eq!(hosts.len(), 2);
    assert_eq!(hosts[0].alias, "prod");
    assert!(!hosts[0].read_only);
    assert_eq!(hosts[0].user.as_deref(), Some("admin"));
    assert_eq!(hosts[1].alias, "*");
    assert!(hosts[1].read_only);
}

#[test]
fn editing_a_field_preserves_unrelated_lines() {
    let mut segments = parse("# comment\nHost prod\n    HostName 10.0.0.1\n    Compression yes\n\nHost other\n    User x\n");
    let host = SshHost {
        alias: "prod".into(),
        host_name: Some("10.0.0.2".into()),
        extra: "    Compression yes".into(),
        ..Default::default()
    };
    upsert(&mut segments, &host);
    let out = render(&segments);
    assert_eq!(out, "# comment\nHost prod\n    HostName 10.0.0.2\n    Compression yes\n\nHost other\n    User x\n");
}

#[test]
fn clearing_a_field_removes_its_line() {
    let mut segments = parse("Host prod\n    HostName 10.0.0.1\n    User admin\n");
    let host = SshHost { alias: "prod".into(), host_name: Some("10.0.0.1".into()), user: None, ..Default::default() };
    upsert(&mut segments, &host);
    assert_eq!(render(&segments), "Host prod\n    HostName 10.0.0.1\n");
}

#[test]
fn adding_a_new_field_inserts_after_known_lines() {
    let mut segments = parse("Host prod\n    HostName 10.0.0.1\n    # note\n");
    let host = SshHost {
        alias: "prod".into(),
        host_name: Some("10.0.0.1".into()),
        user: Some("admin".into()),
        extra: "    # note".into(),
        ..Default::default()
    };
    upsert(&mut segments, &host);
    assert_eq!(render(&segments), "Host prod\n    HostName 10.0.0.1\n    User admin\n    # note\n");
}

#[test]
fn advanced_options_text_replaces_extra_lines_only() {
    let mut segments = parse("Host prod\n    HostName 10.0.0.1\n    Compression yes\n    # old note\n");
    let host = SshHost {
        alias: "prod".into(),
        host_name: Some("10.0.0.1".into()),
        extra: "ServerAliveInterval 30\n# new note".into(),
        ..Default::default()
    };
    upsert(&mut segments, &host);
    assert_eq!(render(&segments), "Host prod\n    HostName 10.0.0.1\nServerAliveInterval 30\n# new note\n");
}

#[test]
fn new_host_is_appended_with_separator() {
    let mut segments = parse("Host prod\n    HostName 10.0.0.1\n");
    let host = SshHost { alias: "staging".into(), host_name: Some("10.0.0.2".into()), ..Default::default() };
    upsert(&mut segments, &host);
    assert_eq!(render(&segments), "Host prod\n    HostName 10.0.0.1\n\nHost staging\n    HostName 10.0.0.2\n");
}

#[test]
fn new_host_on_file_missing_trailing_newline_still_terminates_previous_block() {
    let mut segments = parse("Host prod\n    HostName 10.0.0.1");
    let host = SshHost { alias: "staging".into(), host_name: Some("10.0.0.2".into()), ..Default::default() };
    upsert(&mut segments, &host);
    assert_eq!(render(&segments), "Host prod\n    HostName 10.0.0.1\n\nHost staging\n    HostName 10.0.0.2\n");
}

#[test]
fn new_host_on_empty_file_has_no_leading_separator() {
    let mut segments = parse("");
    let host = SshHost { alias: "staging".into(), host_name: Some("10.0.0.2".into()), ..Default::default() };
    upsert(&mut segments, &host);
    assert_eq!(render(&segments), "Host staging\n    HostName 10.0.0.2\n");
}

#[test]
fn removing_a_host_deletes_its_whole_block() {
    let mut segments = parse("Host prod\n    HostName 10.0.0.1\n\nHost staging\n    User dev\n");
    assert!(remove(&mut segments, "prod"));
    assert_eq!(render(&segments), "\nHost staging\n    User dev\n");
}

#[test]
fn removing_an_unknown_alias_is_a_no_op_and_reports_false() {
    let mut segments = parse("Host prod\n    HostName 10.0.0.1\n");
    assert!(!remove(&mut segments, "ghost"));
    assert_eq!(render(&segments), "Host prod\n    HostName 10.0.0.1\n");
}

#[test]
fn renaming_alias_updates_header_and_keeps_matching_by_previous_alias() {
    let mut segments = parse("Host prod\n    HostName 10.0.0.1\n");
    let host = SshHost { alias: "prod-db".into(), host_name: Some("10.0.0.1".into()), ..Default::default() };
    upsert_renaming(&mut segments, Some("prod"), &host);
    assert_eq!(render(&segments), "Host prod-db\n    HostName 10.0.0.1\n");
}

// ---------------------------------------------------------------------------------------------

#[test]
fn unchanged_config_renders_byte_for_byte() {
    for text in [
        "",
        "# only a comment",
        "Host prod\n    HostName 10.0.0.1\n",
        "Include conf.d/*\n\nHost a b\n  User x\r\nMatch host y\n  Port 2\nHost *\n",
        "Host prod\n\tHostName 10.0.0.1\n\n\n# trailing",
    ] {
        let cfg = SshConfig::parse(PathBuf::from("config"), text);
        assert_eq!(cfg.contents(), text);
        assert_eq!(render(&parse(text)), text);
    }
}

#[test]
fn upsert_then_list_reads_the_host_back() {
    let mut cfg = SshConfig::parse(PathBuf::from("config"), "Host prod\n    HostName 10.0.0.1\n    Port 22\n");
    let host = SshHost {
        alias: "prod".into(),
        host_name: Some("db.internal".into()),
        user: Some("root".into()),
        port: Some(2222),
        identity_file: Some("~/.ssh/id_ed25519".into()),
        proxy_jump: Some("bastion".into()),
        extra: "Compression yes".into(),
        read_only: false,
    };
    cfg.upsert_host(host.clone());
    let hosts = cfg.list_hosts();
    assert_eq!(hosts.len(), 1);
    assert_eq!(hosts[0], host);
    assert_eq!(
        cfg.contents(),
        "Host prod\n    HostName db.internal\n    Port 2222\n    User root\n    IdentityFile ~/.ssh/id_ed25519\n    ProxyJump bastion\nCompression yes\n"
    );
}

#[test]
fn remove_host_makes_the_alias_disappear() {
    let mut cfg = SshConfig::parse(PathBuf::from("config"), "Host a\n  User x\nHost b\n  User y\n");
    assert!(cfg.remove_host("a"));
    let hosts = cfg.list_hosts();
    assert_eq!(hosts.len(), 1);
    assert_eq!(hosts[0].alias, "b");
    assert!(!cfg.remove_host("a"));
}

#[test]
fn renaming_through_the_config_keeps_one_block() {
    let mut cfg = SshConfig::parse(PathBuf::from("config"), "Host prod\n    HostName 10.0.0.1\n");
    cfg.upsert_host_renaming("prod", SshHost { alias: "prod-db".into(), host_name: Some("10.0.0.1".into()), ..Default::default() });
    let hosts = cfg.list_hosts();
    assert_eq!(hosts.len(), 1);
    assert_eq!(hosts[0].alias, "prod-db");
    assert_eq!(cfg.contents(), "Host prod-db\n    HostName 10.0.0.1\n");
}

#[test]
fn wildcard_blocks_show_the_first_value_of_each_directive() {
    let cfg = SshConfig::parse(
        PathBuf::from("config"),
        "Host web-* db\n  user first\n  User second\n  Port 2200\n  # Port 1\n  ProxyJump j\n",
    );
    let hosts = cfg.list_hosts();
    assert_eq!(hosts.len(), 1);
    assert_eq!(hosts[0].alias, "web-* db");
    assert_eq!(hosts[0].user.as_deref(), Some("first"));
    assert_eq!(hosts[0].port, Some(2200));
    assert_eq!(hosts[0].proxy_jump.as_deref(), Some("j"));
    assert!(hosts[0].read_only);
}

#[test]
fn include_patterns_and_included_hosts_are_read_only() {
    let mut cfg = SshConfig::parse(
        PathBuf::from("config"),
        "Include conf.d/*.conf other\n\nHost prod\n    HostName 10.0.0.1\n",
    );
    assert_eq!(cfg.include_patterns(), vec!["conf.d/*.conf".to_string(), "other".to_string()]);
    cfg.add_included_file("Host included-host\n    HostName 10.0.0.9\n");
    let hosts = cfg.list_hosts();
    assert_eq!(hosts.len(), 2);
    assert_eq!(hosts[1].alias, "included-host");
    assert_eq!(hosts[1].host_name.as_deref(), Some("10.0.0.9"));
    assert!(hosts[1].read_only);
    assert_eq!(cfg.contents(), "Include conf.d/*.conf other\n\nHost prod\n    HostName 10.0.0.1\n");
}

#[test]
fn unparsable_port_reads_as_none() {
    let cfg = SshConfig::parse(PathBuf::from("config"), "Host a\n  Port http\n");
    assert_eq!(cfg.list_hosts()[0].port, None);
}

#[test]
fn new_host_new_constructor_has_only_the_alias() {
    let h = SshHost::new("x");
    assert_eq!(h, SshHost { alias: "x".into(), ..Default::default() });
}

#[test]
fn config_keeps_its_path() {
    let cfg = SshConfig::parse(PathBuf::from("/tmp/some/config"), "");
    assert_eq!(cfg.path(), &PathBuf::from("/tmp/some/config"));
    assert!(cfg.list_hosts().is_empty());
}

#[test]
fn reading_a_missing_file_gives_an_empty_config_and_other_errors_are_reported() {
    let ok = SshConfig::from_read(PathBuf::from("config"), ReadOutcome::Text("Host a\n".to_string())).expect("parsed");
    assert_eq!(ok.list_hosts()[0].alias, "a");
    let missing = SshConfig::from_read(PathBuf::from("config"), ReadOutcome::Missing).expect("empty");
    assert!(missing.list_hosts().is_empty());
    assert_eq!(missing.contents(), "");
    let denied = SshConfig::from_read(
        PathBuf::from("config"),
        ReadOutcome::Failed(std::io::Error::new(std::io::ErrorKind::PermissionDenied, "no")),
    );
    match denied {
        Err(sulafat_core::ssh_config::ConfigError::Io { path, source }) => {
            assert_eq!(path, PathBuf::from("config"));
            assert_eq!(source.kind(), std::io::ErrorKind::PermissionDenied);
        }
        _ => panic!("expected an I/O error"),
    }
}

#[test]
fn appending_to_a_file_without_trailing_newline_adds_it_and_a_blank_line() {
    let mut cfg = SshConfig::parse(PathBuf::from("config"), "# just a comment");
    cfg.upsert_host(SshHost { alias: "new".into(), user: Some("u".into()), ..Default::default() });
    assert_eq!(cfg.contents(), "# just a comment\n\nHost new\n    User u\n");
}

#[test]
fn applying_one_field_touches_only_its_line() {
    let mut segments = parse("Host prod\n\tuser  old\r\n    # note\n    Port 22\n");
    let Segment::Managed(block) = &mut segments[0] else { panic!("expected a block") };
    apply_known_field(block, KnownDirective::User, Some("new".chars().collect()));
    apply_known_field(block, KnownDirective::Port, None);
    apply_known_field(block, KnownDirective::HostName, Some("h".chars().collect()));
    assert_eq!(render(&segments), "Host prod\n\tuser new\r\n    HostName h\n    # note\n");
}

#[test]
fn new_host_on_unterminated_file_is_the_only_editable_entry_and_others_stay() {
    let mut cfg = SshConfig::parse(PathBuf::from("config"), "Host a\n    HostName 1.1.1.1\n    Compression yes");
    cfg.add_included_file("Host inc\n    HostName 10.0.0.9\n");
    let before = cfg.list_hosts();
    let h = SshHost { alias: "b".into(), user: Some("me".into()), ..Default::default() };
    cfg.upsert_host(h.clone());
    let after = cfg.list_hosts();
    assert_eq!(after.len(), before.len() + 1);
    assert_eq!(after[0], before[0]);
    assert_eq!(after[1], h);
    assert_eq!(after[2], before[1]);
    let editable: Vec<&SshHost> = after.iter().filter(|x| !x.read_only && x.alias == "b").collect();
    assert_eq!(editable.len(), 1);
}

#[test]
fn new_host_after_a_last_line_ending_in_carriage_return_drops_that_character() {
    let mut cfg = SshConfig::parse(PathBuf::from("config"), "Host a\n  Foo x\r");
    assert_eq!(cfg.list_hosts()[0].extra, "  Foo x\r");
    cfg.upsert_host(SshHost { alias: "b".into(), ..Default::default() });
    assert_eq!(cfg.list_hosts()[0].extra, "  Foo x");
}

#[test]
fn editing_a_host_replaces_its_entry_in_place() {
    let mut cfg = SshConfig::parse(
        PathBuf::from("config"),
        "Host a\n    User x\n\nHost *\n    User y\n\nHost b\n    User z\n",
    );
    let before = cfg.list_hosts();
    cfg.upsert_host(SshHost { alias: "b".into(), user: Some("  padded ".into()), ..Default::default() });
    let after = cfg.list_hosts();
    assert_eq!(after.len(), before.len());
    assert_eq!(after[0], before[0]);
    assert_eq!(after[1], before[1]);
    assert_eq!(after[2].user.as_deref(), Some("padded"));
    assert_eq!(cfg.contents(), "Host a\n    User x\n\nHost *\n    User y\n\nHost b\n    User   padded \n");
}

#[test]
fn writing_a_padded_value_twice_changes_nothing() {
    let mut segments = parse("Host a\n    HostName 1.1.1.1\n");
    let h = SshHost { alias: "a".into(), host_name: Some(" spaced ".into()), ..Default::default() };
    upsert(&mut segments, &h);
    let once = render(&segments);
    upsert(&mut segments, &h);
    assert_eq!(render(&segments), once);
}

#[test]
fn a_value_ending_in_carriage_return_grows_when_written_again() {
    let mut segments = parse("Host a\n    HostName 1.1.1.1\n");
    let h = SshHost { alias: "a".into(), host_name: Some("x\r".into()), ..Default::default() };
    upsert(&mut segments, &h);
    let once = render(&segments);
    upsert(&mut segments, &h);
    assert_ne!(render(&segments), once);
}

#[test]
fn renaming_keeps_the_list_length_and_other_entries() {
    let mut cfg = SshConfig::parse(PathBuf::from("config"), "Host a\n    User x\n\nHost b\n    User y\n");
    let before = cfg.list_hosts();
    cfg.upsert_host_renaming("a", SshHost { alias: "c".into(), user: Some("w".into()), ..Default::default() });
    let after = cfg.list_hosts();
    assert_eq!(after.len(), before.len());
    assert_eq!(after[0], SshHost { alias: "c".into(), user: Some("w".into()), ..Default::default() });
    assert_eq!(after[1], before[1]);
}

#[test]
fn removing_an_included_alias_is_refused() {
    let mut cfg = SshConfig::parse(PathBuf::from("config"), "Host a\n    User x\n");
    cfg.add_included_file("Host inc\n    User y\n");
    let before = cfg.contents();
    assert!(!cfg.remove_host("inc"));
    assert_eq!(cfg.contents(), before);
    assert_eq!(cfg.list_hosts().len(), 2);
}

#[test]
fn a_value_ending_in_line_break_on_the_unterminated_last_line_grows_when_written_again() {
    let mut segments = parse("Host a\n    HostName 1.1.1.1");
    let h = SshHost { alias: "a".into(), host_name: Some("x\n".into()), ..Default::default() };
    upsert(&mut segments, &h);
    let once = render(&segments);
    assert_eq!(once, "Host a\n    HostName x\n");
    upsert(&mut segments, &h);
    assert_eq!(render(&segments), "Host a\n    HostName x\n\n");
}

#[test]
fn a_value_ending_in_carriage_return_on_a_crlf_line_is_kept() {
    let mut segments = parse("Host a\r\n    HostName 1.1.1.1\r\n");
    let h = SshHost { alias: "a".into(), host_name: Some("x\r".into()), ..Default::default() };
    upsert(&mut segments, &h);
    let once = render(&segments);
    upsert(&mut segments, &h);
    assert_eq!(render(&segments), once);
}
