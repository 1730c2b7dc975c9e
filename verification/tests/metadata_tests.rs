use sulafat_core::metadata::{HostMeta, Metadata};

#[test]
fn setting_empty_meta_removes_the_entry() {
    let mut meta = Metadata::default();
    meta.set("prod", HostMeta { group: Some("X".into()), ..Default::default() });
    assert!(meta.get("prod").is_some());
    meta.set("prod", HostMeta::default());
    assert!(meta.get("prod").is_none());
}

#[test]
fn groups_are_sorted_and_deduplicated() {
    let mut meta = Metadata::default();
    meta.set("a", HostMeta { group: Some("Prod".into()), ..Default::default() });
    meta.set("b", HostMeta { group: Some("Homolog".into()), ..Default::default() });
    meta.set("c", HostMeta { group: Some("Prod".into()), ..Default::default() });
    assert_eq!(meta.groups(), vec!["Homolog".to_string(), "Prod".to_string()]);
}

#[test]
fn prune_removes_aliases_missing_from_known_list() {
    let mut meta = Metadata::default();
    meta.set("kept", HostMeta { group: Some("X".into()), ..Default::default() });
    meta.set("orphan", HostMeta { group: Some("Y".into()), ..Default::default() });
    meta.prune(&["kept".to_string()]);
    assert!(meta.get("orphan").is_none());
    assert!(meta.get("kept").is_some());
}

#[test]
fn set_then_get_reads_back_the_metadata() {
    let mut meta = Metadata::new();
    let value = HostMeta { group: Some("Produção".into()), color: Some("#e01b24".into()), notes: None };
    meta.set("prod", value.clone());
    assert_eq!(meta.get("prod"), Some(&value));
    assert_eq!(meta.get("other"), None);
}

#[test]
fn setting_twice_keeps_the_second_value_and_other_aliases() {
    let mut meta = Metadata::new();
    meta.set("a", HostMeta { color: Some("#111111".into()), ..Default::default() });
    meta.set("b", HostMeta { notes: Some("n".into()), ..Default::default() });
    meta.set("a", HostMeta { color: Some("#222222".into()), ..Default::default() });
    assert_eq!(meta.get("a").unwrap().color.as_deref(), Some("#222222"));
    assert_eq!(meta.get("b").unwrap().notes.as_deref(), Some("n"));
    assert_eq!(meta.entries().len(), 2);
}

#[test]
fn empty_metadata_is_empty_and_any_field_makes_it_non_empty() {
    assert!(HostMeta::default().is_empty());
    assert!(!HostMeta { notes: Some(String::new()), ..Default::default() }.is_empty());
}

#[test]
fn groups_skip_hosts_without_a_group_and_order_by_code_point() {
    let mut meta = Metadata::new();
    meta.set("a", HostMeta { group: Some("beta".into()), ..Default::default() });
    meta.set("b", HostMeta { color: Some("#000000".into()), ..Default::default() });
    meta.set("c", HostMeta { group: Some("Zeta".into()), ..Default::default() });
    meta.set("d", HostMeta { group: Some("alpha".into()), ..Default::default() });
    assert_eq!(meta.groups(), vec!["Zeta".to_string(), "alpha".to_string(), "beta".to_string()]);
}

#[test]
fn prune_with_no_known_aliases_empties_the_metadata() {
    let mut meta = Metadata::new();
    meta.set("a", HostMeta { group: Some("g".into()), ..Default::default() });
    meta.prune(&[]);
    assert!(meta.entries().is_empty());
}

#[test]
fn insert_raw_keeps_even_empty_metadata() {
    let mut meta = Metadata::new();
    meta.insert_raw("a", HostMeta::default());
    assert_eq!(meta.get("a"), Some(&HostMeta::default()));
}
