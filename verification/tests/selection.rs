use eplayer::live::LiveSource;
use eplayer::model::Source;
use eplayer::selection::{
    enabled_sources, find_live_source, find_source, merge_live_sources, normalize_live_sources, normalize_source_key, normalize_sources,
    selected_live_source, selected_source, validate_live_sources, validate_sources, SourceListError,
};

fn src(key: &str, name: &str, enabled: bool) -> Source {
    Source {
        key: key.to_string(),
        name: name.to_string(),
        api: format!("https://{key}.example.com/api"),
        detail: None,
        enabled,
    }
}

fn live(key: &str, name: &str, url: &str) -> LiveSource {
    LiveSource {
        key: key.to_string(),
        name: name.to_string(),
        url: url.to_string(),
        ua: None,
        epg: None,
        enabled: true,
    }
}

#[test]
fn normalizes_keys() {
    assert_eq!(normalize_source_key("  my key!_-1 "), "mykey_-1");
    assert_eq!(normalize_source_key("资源"), "");
    let once = normalize_source_key(" a.b ");
    assert_eq!(normalize_source_key(&once), once);
}

#[test]
fn normalizing_sources_trims_and_drops_incomplete_ones() {
    let mut a = src(" a ", " 名 ", true);
    a.api = " https://a.example.com/api// ".to_string();
    a.detail = Some("  ".to_string());
    let b = src("!!", "无键", true);
    let out = normalize_sources(vec![a, b]);
    assert_eq!(out.len(), 1);
    assert_eq!(out[0].key, "a");
    assert_eq!(out[0].name, "名");
    assert_eq!(out[0].api, "https://a.example.com/api");
    assert_eq!(out[0].detail, None);
}

#[test]
fn normalizing_live_sources() {
    let mut a = live(" k ", " 名 ", " https://x.example.com/l.m3u ");
    a.ua = Some(" UA ".to_string());
    a.epg = Some(" ".to_string());
    let out = normalize_live_sources(vec![a, live("k2", "", "u")]);
    assert_eq!(out.len(), 1);
    assert_eq!(out[0].url, "https://x.example.com/l.m3u");
    assert_eq!(out[0].ua.as_deref(), Some("UA"));
    assert_eq!(out[0].epg, None);
}

#[test]
fn validation_errors() {
    assert_eq!(validate_sources(&Vec::new(), "a"), Err(SourceListError::Empty));
    let dup = vec![src("a", "A", true), src("b", "B", true), src("a", "C", true)];
    assert_eq!(validate_sources(&dup, "a"), Err(SourceListError::DuplicateKey("a".to_string())));
    let ok = vec![src("a", "A", true), src("b", "B", true)];
    assert_eq!(validate_sources(&ok, " b "), Ok(()));
    assert_eq!(validate_sources(&ok, "c"), Err(SourceListError::MissingDefault));
    assert_eq!(validate_live_sources(&vec![live("x", "X", "u")], "x"), Ok(()));
}

#[test]
fn chooses_named_then_first_enabled_source() {
    let list = vec![src("a", "A", false), src("b", "B", true), src("c", "C", true)];
    assert_eq!(find_source(&list, Some("c")).unwrap().key, "c");
    assert_eq!(find_source(&list, Some("a")).unwrap().key, "a");
    assert_eq!(find_source(&list, Some("zzz")).unwrap().key, "b");
    assert_eq!(find_source(&list, Some("")).unwrap().key, "b");
    assert_eq!(find_source(&list, None).unwrap().key, "b");
    assert!(find_source(&vec![src("a", "A", false)], None).is_none());
}

#[test]
fn live_source_falls_back_to_first() {
    let mut off = live("a", "A", "u");
    off.enabled = false;
    assert_eq!(find_live_source(&vec![off], None).unwrap().key, "a");
    assert!(find_live_source(&Vec::new(), Some("a")).is_none());
}

#[test]
fn merges_imported_live_sources() {
    let mut existing = vec![live("b", "Beta", "u1"), live("a", "Alpha", "u2")];
    let imported = vec![live("b", "Beta2", "u3"), live("c", "Aardvark", "u4"), live("d", " ", "u5")];
    merge_live_sources(&mut existing, imported);
    let keys: Vec<&str> = existing.iter().map(|s| s.key.as_str()).collect();
    assert_eq!(keys, vec!["c", "a", "b"]);
    assert_eq!(existing[2].name, "Beta2");
    assert_eq!(existing[2].url, "u3");
}

#[test]
fn remembered_selection() {
    let list = vec![src("a", "A", true), src("b", "B", true)];
    assert_eq!(selected_source(&list, Some("b".to_string())), "b");
    assert_eq!(selected_source(&list, Some("gone".to_string())), "a");
    assert_eq!(selected_source(&Vec::new(), None), "");
    let mut off = live("x", "X", "u");
    off.enabled = false;
    let lives = vec![off, live("y", "Y", "u")];
    assert_eq!(selected_live_source(&lives, None), "y");
    assert_eq!(selected_live_source(&lives, Some("x".to_string())), "x");
}

#[test]
fn searches_ask_enabled_sources_only() {
    let list = vec![src("a", "A", false), src("b", "B", true), src("c", "C", true)];
    let keys: Vec<String> = enabled_sources(&list).into_iter().map(|s| s.key).collect();
    assert_eq!(keys, vec!["b".to_string(), "c".to_string()]);
}
