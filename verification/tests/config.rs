use eplayer::config::{load_sources, source_config_file};
use eplayer::model::{default_cache_time, Source, SourceConfigFile, SourceEntry};

fn entry(api: &str, name: &str, detail: Option<&str>, enabled: Option<bool>) -> SourceEntry {
    SourceEntry {
        api: api.to_string(),
        name: name.to_string(),
        detail: detail.map(|d| d.to_string()),
        enabled,
    }
}

#[test]
fn load_sources_keeps_missing_detail_empty_in_memory() {
    let file = SourceConfigFile {
        cache_time: 7200,
        api_site: vec![("zy360".to_string(), entry("https://360zy.com/api.php/provide/vod", "360资源", None, Some(true)))],
    };
    let sources = load_sources(file);
    assert_eq!(sources.len(), 1);
    assert_eq!(sources[0].detail, None);
}

#[test]
fn loading_normalizes_and_sorts_by_name() {
    let file = SourceConfigFile {
        cache_time: 60,
        api_site: vec![
            ("a".to_string(), entry("https://b.example.com/api//", "乙", Some("  https://b.example.com  "), None)),
            ("b".to_string(), entry("https://a.example.com/api", "Alpha", Some("   "), Some(false))),
            ("c".to_string(), entry("https://c.example.com/api", "乙", None, Some(true))),
        ],
    };
    let sources = load_sources(file);
    let keys: Vec<&str> = sources.iter().map(|s| s.key.as_str()).collect();
    assert_eq!(keys, vec!["b", "a", "c"]);
    assert_eq!(sources[0].detail, None);
    assert!(!sources[0].enabled);
    assert_eq!(sources[1].api, "https://b.example.com/api");
    assert_eq!(sources[1].detail.as_deref(), Some("https://b.example.com"));
    assert!(sources[1].enabled);
}

#[test]
fn saving_preserves_explicit_detail_only() {
    let file = source_config_file(
        7200,
        &vec![Source {
            key: "zy360".to_string(),
            name: "360资源".to_string(),
            api: "https://360zy.com/api.php/provide/vod/".to_string(),
            detail: Some("https://360zy.com".to_string()),
            enabled: true,
        }],
    );
    assert_eq!(file.cache_time, 7200);
    assert_eq!(file.api_site.len(), 1);
    assert_eq!(file.api_site[0].0, "zy360");
    assert_eq!(file.api_site[0].1.detail.as_deref(), Some("https://360zy.com"));
    assert_eq!(file.api_site[0].1.api, "https://360zy.com/api.php/provide/vod");
    assert_eq!(file.api_site[0].1.enabled, Some(true));
}

#[test]
fn saved_sources_load_back_unchanged() {
    let file = SourceConfigFile {
        cache_time: 7200,
        api_site: vec![
            ("k1".to_string(), entry("https://x.example.com/", "Zed", Some(" d "), None)),
            ("k2".to_string(), entry("https://y.example.com", "Amy", None, Some(false))),
        ],
    };
    let loaded = load_sources(file);
    let saved = source_config_file(default_cache_time(), &loaded);
    let keys: Vec<&str> = saved.api_site.iter().map(|(k, _)| k.as_str()).collect();
    assert_eq!(keys, vec!["k1", "k2"]);
    let again = load_sources(saved);
    assert_eq!(again.len(), loaded.len());
    for (x, y) in again.iter().zip(loaded.iter()) {
        assert_eq!(x.key, y.key);
        assert_eq!(x.name, y.name);
        assert_eq!(x.api, y.api);
        assert_eq!(x.detail, y.detail);
        assert_eq!(x.enabled, y.enabled);
    }
}

#[test]
fn default_cache_time_is_two_hours() {
    assert_eq!(default_cache_time(), 7200);
}

#[test]
fn any_source_list_with_distinct_keys_saves_and_loads_back() {
    let make = |key: &str, name: &str, api: &str, detail: Option<&str>| Source {
        key: key.to_string(),
        name: name.to_string(),
        api: api.to_string(),
        detail: detail.map(|d| d.to_string()),
        enabled: true,
    };
    let list = vec![
        make("b", "Same", "https://b.example.com/api//", Some("  ")),
        make("z", "Alpha", "https://z.example.com/api", None),
        make("a", "Same", "https://a.example.com/api", Some(" https://a.example.com ")),
    ];
    let loaded = load_sources(source_config_file(7200, &list));
    let keys: Vec<&str> = loaded.iter().map(|s| s.key.as_str()).collect();
    assert_eq!(keys, vec!["z", "a", "b"]);
    assert_eq!(loaded[1].detail.as_deref(), Some("https://a.example.com"));
    assert_eq!(loaded[2].api, "https://b.example.com/api");
    assert_eq!(loaded[2].detail, None);
}
