use std::collections::HashMap;

use sulafat_core::i18n::{fill_placeholders, normalize_locale, posix_locale, session_locale};

#[test]
fn normalizes_supported_posix_locales_and_falls_back() {
    assert_eq!(normalize_locale("en_US.UTF-8"), "en-US");
    assert_eq!(normalize_locale("pt_BR.UTF-8@custom"), "pt-BR");
    assert_eq!(normalize_locale("es_ES.utf8"), "es-ES");
    assert_eq!(normalize_locale("zh_CN.UTF-8"), "zh-CN");
    assert_eq!(normalize_locale("fr_FR.UTF-8"), "en-US");
    assert_eq!(normalize_locale("../../pt_BR"), "en-US");
}

#[test]
fn locale_environment_uses_posix_precedence() {
    let vars = HashMap::from([
        ("LANG", "zh_CN.UTF-8".to_string()),
        ("LC_MESSAGES", "es_ES.UTF-8".to_string()),
        ("LC_ALL", "pt_BR.UTF-8".to_string()),
    ]);
    assert_eq!(session_locale(|name| vars.get(name).cloned()), "pt-BR");
}

#[test]
fn each_required_lang_and_unsupported_fallback_are_selected() {
    for (lang, expected) in [
        ("en_US.UTF-8", "en-US"),
        ("pt_BR.UTF-8", "pt-BR"),
        ("es_ES.UTF-8", "es-ES"),
        ("zh_CN.UTF-8", "zh-CN"),
        ("fr_FR.UTF-8", "en-US"),
    ] {
        assert_eq!(session_locale(|name| if name == "LANG" { Some(lang.to_string()) } else { None }), expected);
    }
}

#[test]
fn empty_variables_are_skipped_and_nothing_set_means_english() {
    let vars = HashMap::from([("LC_ALL", String::new()), ("LC_MESSAGES", "es".to_string())]);
    assert_eq!(session_locale(|name| vars.get(name).cloned()), "es-ES");
    assert_eq!(session_locale(|_| None), "en-US");
}

#[test]
fn locale_base_ignores_case_and_reads_dash_as_underscore() {
    assert_eq!(normalize_locale("PT-br"), "pt-BR");
    assert_eq!(normalize_locale("zh_Hans@x"), "zh-CN");
    assert_eq!(normalize_locale("es"), "es-ES");
    assert_eq!(normalize_locale(""), "en-US");
    assert_eq!(normalize_locale("C"), "en-US");
}

#[test]
fn posix_locale_maps_each_supported_locale() {
    assert_eq!(posix_locale("pt-BR"), "pt_BR.UTF-8");
    assert_eq!(posix_locale("es-ES"), "es_ES.UTF-8");
    assert_eq!(posix_locale("zh-CN"), "zh_CN.UTF-8");
    assert_eq!(posix_locale("en-US"), "en_US.UTF-8");
    assert_eq!(posix_locale("xx"), "en_US.UTF-8");
}

#[test]
fn placeholders_are_filled_in_order() {
    assert_eq!(fill_placeholders("Delete {alias}?", &[("alias", "prod")]), "Delete prod?");
    assert_eq!(fill_placeholders("{a}{a} {b}", &[("a", "x"), ("b", "{a}")]), "xx {a}");
    assert_eq!(fill_placeholders("{b} {a}", &[("a", "{b}"), ("b", "y")]), "y y");
    assert_eq!(fill_placeholders("no placeholders", &[("a", "x")]), "no placeholders");
    assert_eq!(fill_placeholders("{{a}}", &[("a", "x")]), "{x}");
}

