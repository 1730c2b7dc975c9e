use std::path::PathBuf;

use sulafat_core::command::ConnectTarget;
use sulafat_core::metadata::{HostMeta, Metadata};
use sulafat_core::ssh_config::{SshConfig, SshHost};
use sulafat_core::ui::badge::SessionCounts;
use sulafat_core::ui::color::{parse_hex_color_bytes, parse_hex_rgb, slicing_splits_a_char};
use sulafat_core::ui::host_list::{
    connect_action, header_with, host_matches, lowered_match, row_actions, sorted_rows, subtitle_with, HostAction, RowAction,
};
use sulafat_core::ui::terminal::session_ended_label;
use sulafat_core::ui::prefs::{default_scrollback, font_setting, Settings};
use sulafat_core::ui::window::{
    add_host, delete_host, duplicate_host, known_aliases, save_edit, sftp_uri, tab_title, unique_alias,
};

fn host(alias: &str) -> SshHost {
    SshHost { alias: alias.into(), ..Default::default() }
}

#[test]
fn duplicate_alias_takes_the_first_free_copy_name() {
    assert_eq!(unique_alias("prod", &[]), "prod-copia");
    assert_eq!(unique_alias("prod", &["prod-copia".to_string()]), "prod-copia-2");
    assert_eq!(
        unique_alias("prod", &["prod-copia".to_string(), "prod-copia-2".to_string(), "prod-copia-3".to_string()]),
        "prod-copia-4"
    );
    assert_eq!(unique_alias("prod", &["prod-copia".to_string(), "prod-copia-3".to_string()]), "prod-copia-2");
    assert_eq!(unique_alias("prod", &["prod".to_string()]), "prod-copia");
}

#[test]
fn sftp_uri_uses_host_name_user_and_port() {
    let h = SshHost {
        alias: "prod".into(),
        host_name: Some("10.0.0.1".into()),
        user: Some("admin".into()),
        port: Some(2222),
        ..Default::default()
    };
    assert_eq!(sftp_uri(&h), "sftp://admin@10.0.0.1:2222/");
    assert_eq!(sftp_uri(&host("prod")), "sftp://prod/");
}

#[test]
fn known_aliases_are_the_editable_hosts_only() {
    let mut cfg = SshConfig::parse(PathBuf::from("config"), "Host a\n  User x\nHost *\n  Port 2\nHost b\n");
    cfg.add_included_file("Host c\n");
    assert_eq!(known_aliases(&cfg), vec!["a".to_string(), "b".to_string()]);
}

#[test]
fn tab_titles() {
    assert_eq!(tab_title(&ConnectTarget::Alias("prod".into())), "prod");
    assert_eq!(
        tab_title(&ConnectTarget::Quick { user: Some("admin".into()), host: "h".into(), port: Some(22) }),
        "admin@h"
    );
    assert_eq!(tab_title(&ConnectTarget::Quick { user: None, host: "h".into(), port: None }), "h");
}

#[test]
fn subtitles_join_the_known_parts() {
    let h = SshHost {
        alias: "p".into(),
        host_name: Some("10.0.0.1".into()),
        user: Some("admin".into()),
        port: Some(2222),
        read_only: true,
        ..Default::default()
    };
    assert_eq!(subtitle_with(&h, "read-only"), "admin@10.0.0.1 · :2222 · read-only");
    assert_eq!(subtitle_with(&SshHost { user: Some("u".into()), ..host("p") }, "x"), "u");
    assert_eq!(subtitle_with(&SshHost { port: Some(1), ..host("p") }, "x"), ":1");
    assert_eq!(subtitle_with(&host("p"), "x"), "");
    assert_eq!(subtitle_with(&SshHost { host_name: Some("h".into()), ..host("p") }, ""), "h");
}

#[test]
fn search_is_case_insensitive_on_alias_host_and_user() {
    let h = SshHost { alias: "Prod".into(), host_name: Some("DB.example".into()), user: Some("Root".into()), ..Default::default() };
    assert!(host_matches(&h, "PRO"));
    assert!(host_matches(&h, "db.EX"));
    assert!(host_matches(&h, "oot"));
    assert!(host_matches(&h, ""));
    assert!(!host_matches(&h, "staging"));
    assert!(!host_matches(&host("a"), "b"));
    assert!(lowered_match("abc", "", "", "bc"));
    assert!(!lowered_match("abc", "", "", "cb"));
}

#[test]
fn rows_sort_by_group_then_lowercase_alias_keeping_ties_in_order() {
    let mut meta = Metadata::new();
    meta.set("b-prod", HostMeta { group: Some("Prod".into()), ..Default::default() });
    meta.set("A-prod", HostMeta { group: Some("Prod".into()), ..Default::default() });
    meta.set("z", HostMeta { color: Some("#000000".into()), ..Default::default() });
    let hosts = vec![host("b-prod"), host("z"), host("A-prod"), host("a"), host("B")];
    let rows = sorted_rows(hosts, &meta);
    let order: Vec<&str> = rows.iter().map(|(h, _)| h.alias.as_str()).collect();
    assert_eq!(order, vec!["a", "B", "z", "A-prod", "b-prod"]);
    assert_eq!(rows[2].1.color.as_deref(), Some("#000000"));
    assert_eq!(rows[0].1, HostMeta::default());

    let ties = sorted_rows(vec![host("x"), host("X"), host("x")], &Metadata::new());
    let order: Vec<&str> = ties.iter().map(|(h, _)| h.alias.as_str()).collect();
    assert_eq!(order, vec!["x", "X", "x"]);
}

#[test]
fn group_headers_open_when_the_group_changes() {
    let prod = HostMeta { group: Some("Prod".into()), ..Default::default() };
    let none = HostMeta::default();
    assert_eq!(header_with(None, &prod, "No group"), Some("Prod".to_string()));
    assert_eq!(header_with(Some(&prod), &prod, "No group"), None);
    assert_eq!(header_with(Some(&prod), &none, "No group"), Some("No group".to_string()));
    assert_eq!(header_with(Some(&none), &none, "No group"), None);
}

#[test]
fn read_only_rows_cannot_be_edited_duplicated_or_deleted() {
    assert_eq!(row_actions(true), vec![RowAction::Connect, RowAction::OpenFiles]);
    assert_eq!(
        row_actions(false),
        vec![RowAction::Connect, RowAction::Edit, RowAction::Duplicate, RowAction::OpenFiles, RowAction::Delete]
    );
    assert!(matches!(connect_action(host("a"), true), HostAction::Disconnect(_)));
    assert!(matches!(connect_action(host("a"), false), HostAction::Connect(_)));
}

#[test]
fn hex_colors_read_as_bytes() {
    assert_eq!(parse_hex_color_bytes(Some("#e01b24")), (224, 27, 36));
    assert_eq!(parse_hex_color_bytes(Some("e01b24")), (224, 27, 36));
    assert_eq!(parse_hex_color_bytes(Some("##E01B24")), (224, 27, 36));
    assert_eq!(parse_hex_color_bytes(Some("+f+f+f")), (15, 15, 15));
    assert_eq!(parse_hex_color_bytes(Some("#e01b2")), (140, 140, 140));
    assert_eq!(parse_hex_color_bytes(Some("#zz1b24")), (140, 140, 140));
    assert_eq!(parse_hex_color_bytes(Some("-f0000")), (140, 140, 140));
    assert_eq!(parse_hex_color_bytes(None), (140, 140, 140));
    assert_eq!(parse_hex_rgb("#000000"), Some((0, 0, 0)));
    assert_eq!(parse_hex_rgb("é1234"), None);
    assert!(!slicing_splits_a_char("é1234"));
    assert!(slicing_splits_a_char("aé123"));
    assert!(!slicing_splits_a_char("#e01b24"));
    assert!(!slicing_splits_a_char("ééé"));
}

#[test]
fn session_badge_sums_each_window_once() {
    let mut counts = SessionCounts::new();
    assert_eq!(counts.total(), Some(0));
    assert_eq!(counts.report(1, 2), Some(2));
    assert_eq!(counts.report(2, 3), Some(5));
    assert_eq!(counts.report(1, 0), Some(3));
    assert_eq!(counts.forget(2), Some(0));
    assert_eq!(counts.forget(7), Some(0));
    assert_eq!(counts.report(1, u32::MAX), Some(u32::MAX));
    assert_eq!(counts.report(2, 1), None);
}

#[test]
fn settings_defaults_and_font_choice() {
    let s = Settings::default();
    assert_eq!(s.font, None);
    assert_eq!(s.scrollback_lines, 10_000);
    assert_eq!(default_scrollback(), 10_000);
    assert_eq!(font_setting(String::new()), None);
    assert_eq!(font_setting("Monospace 11".into()), Some("Monospace 11".to_string()));
}

#[test]
fn session_ended_label_shows_a_nonzero_status() {
    assert_eq!(session_ended_label(0), "Sessão encerrada");
    assert_eq!(session_ended_label(255), "Sessão encerrada (código 255)");
    assert_eq!(session_ended_label(-1), "Sessão encerrada (código -1)");
    assert_eq!(session_ended_label(i32::MIN), "Sessão encerrada (código -2147483648)");
}

#[test]
fn host_actions_update_the_config_and_the_metadata() {
    let mut cfg = SshConfig::parse(PathBuf::from("config"), "Host prod\n    HostName 10.0.0.1\n");
    let mut meta = Metadata::new();
    let green = HostMeta { color: Some("#00ff00".into()), ..Default::default() };

    add_host(&mut cfg, &mut meta, SshHost { alias: "db".into(), user: Some("pg".into()), ..Default::default() }, green.clone());
    assert_eq!(cfg.contents(), "Host prod\n    HostName 10.0.0.1\n\nHost db\n    User pg\n");
    assert_eq!(meta.get("db"), Some(&green));

    save_edit(
        &mut cfg,
        &mut meta,
        "prod",
        SshHost { alias: "prod-db".into(), host_name: Some("10.0.0.2".into()), ..Default::default() },
        HostMeta { group: Some("Prod".into()), ..Default::default() },
    );
    assert_eq!(cfg.contents(), "Host prod-db\n    HostName 10.0.0.2\n\nHost db\n    User pg\n");
    assert_eq!(meta.get("prod-db").unwrap().group.as_deref(), Some("Prod"));

    let copy = duplicate_host(&mut cfg, &mut meta, &SshHost { alias: "db".into(), user: Some("pg".into()), ..Default::default() }, green.clone());
    assert_eq!(copy, "db-copia");
    assert_eq!(cfg.list_hosts().last().unwrap().alias, "db-copia");
    assert_eq!(meta.get("db-copia"), Some(&green));

    assert!(delete_host(&mut cfg, &mut meta, "db"));
    assert!(meta.get("db").is_none());
    assert!(!delete_host(&mut cfg, &mut meta, "db"));
    let aliases: Vec<String> = cfg.list_hosts().into_iter().map(|h| h.alias).collect();
    assert_eq!(aliases, vec!["prod-db".to_string(), "db-copia".to_string()]);
}

#[test]
fn a_duplicate_is_listed_once_as_the_host_under_its_new_alias() {
    let mut cfg = SshConfig::parse(PathBuf::from("config"), "Host db\n    User pg\n\nHost db-copia\n    User x\n");
    let mut meta = Metadata::new();
    let before = cfg.list_hosts();
    let h = SshHost { alias: "db".into(), user: Some("pg".into()), ..Default::default() };
    let copy = duplicate_host(&mut cfg, &mut meta, &h, HostMeta::default());
    assert_eq!(copy, "db-copia-2");
    let after = cfg.list_hosts();
    assert_eq!(after.len(), before.len() + 1);
    assert_eq!(after[0], before[0]);
    assert_eq!(after[1], before[1]);
    assert_eq!(after[2], SshHost { alias: "db-copia-2".into(), ..h });
    assert_eq!(after.iter().filter(|x| !x.read_only && x.alias == "db-copia-2").count(), 1);
}
