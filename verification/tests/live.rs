use eplayer::live::{
    decode_text, live_config_file, load_live_sources, parse_live_channels, LiveConfigFile, LiveSource, LiveSourceEntry,
};

fn source() -> LiveSource {
    LiveSource {
        key: "test".to_string(),
        name: "测试直播".to_string(),
        url: "https://example.com/live/list.m3u".to_string(),
        ua: None,
        epg: None,
        enabled: true,
    }
}

#[test]
fn parses_m3u_channels() {
    let content = r#"#EXTM3U x-tvg-url="https://example.com/epg.xml"
#EXTINF:-1 tvg-id="cctv1" tvg-name="CCTV-1" tvg-logo="https://img/logo.png" group-title="央视",CCTV-1 综合
https://stream.example.com/cctv1.m3u8
#EXTINF:-1 group-title="卫视",湖南卫视
/hunan.m3u8
"#;
    let playlist = parse_live_channels(&source(), content);
    assert_eq!(playlist.channels.len(), 2);
    assert_eq!(playlist.epg_url.as_deref(), Some("https://example.com/epg.xml"));
    assert_eq!(playlist.channels[0].name, "CCTV-1 综合");
    assert_eq!(playlist.channels[0].group, "央视");
    assert_eq!(playlist.channels[0].tvg_id, "cctv1");
    assert_eq!(playlist.channels[0].logo, "https://img/logo.png");
    assert_eq!(playlist.channels[1].url, "https://example.com/hunan.m3u8");
}

#[test]
fn parses_gntv_style_m3u_channels() {
    let content = r#"#EXTM3U
#EXTINF:-1 group-title="央视频道",CCTV-1综合
http://207.56.13.146:81/cdnlive/cctv1.m3u8
#EXTINF:-1 group-title="央视频道",CCTV-2财经
http://207.56.13.146:81/cdnlive/cctv2.m3u8
"#;
    let playlist = parse_live_channels(&source(), content);
    assert_eq!(playlist.channels.len(), 2);
    assert_eq!(playlist.channels[0].name, "CCTV-1综合");
    assert_eq!(playlist.channels[0].group, "央视频道");
    assert_eq!(playlist.channels[0].url, "http://207.56.13.146:81/cdnlive/cctv1.m3u8");
}

#[test]
fn parses_txt_channels() {
    let content = "央视,#genre#\nCCTV-1,http://example.com/1.m3u8\nCCTV-2,https://example.com/2.m3u8\n";
    let playlist = parse_live_channels(&source(), content);
    assert_eq!(playlist.channels.len(), 2);
    assert_eq!(playlist.channels[0].name, "CCTV-1");
    assert_eq!(playlist.channels[0].group, "央视");
}

#[test]
fn parses_txt_channel_names_with_commas_and_multiline_titles() {
    let content = "体育,#genre#\n城超 领头羊VS一轮游 2026赛季武汉篮球城市超级联赛淘汰赛\n16进8: 领头羊vs一轮游 17:00,http://192.168.1.8:1905/964991542\n";
    let playlist = parse_live_channels(&source(), content);
    assert_eq!(playlist.channels.len(), 1);
    assert_eq!(
        playlist.channels[0].name,
        "城超 领头羊VS一轮游 2026赛季武汉篮球城市超级联赛淘汰赛 16进8: 领头羊vs一轮游 17:00"
    );
    assert_eq!(playlist.channels[0].url, "http://192.168.1.8:1905/964991542");
}

#[test]
fn decodes_html_entities_in_live_urls() {
    let content = "#EXTM3U\n#EXTINF:-1 group-title=\"Local\",Demo\nhttps://example.com/live.m3u8?txTime=1&amp;txSecret=2\n";
    let playlist = parse_live_channels(&source(), content);
    assert_eq!(playlist.channels[0].url, "https://example.com/live.m3u8?txTime=1&txSecret=2");
}

#[test]
fn channels_are_numbered_per_source() {
    let content = "\u{feff}CCTV-1,http://example.com/1.m3u8\nbad line\nCCTV-2,HTTPS://cdn.example.com/2.m3u8\n";
    let playlist = parse_live_channels(&source(), content);
    assert_eq!(playlist.channels.len(), 2);
    assert_eq!(playlist.channels[0].id, "test-0");
    assert_eq!(playlist.channels[1].id, "test-1");
    assert_eq!(playlist.channels[0].group, "未分组");
    assert_eq!(playlist.channels[0].source, "test");
    assert_eq!(playlist.channels[0].source_name, "测试直播");
    assert_eq!(playlist.channels[1].name, "bad line CCTV-2");
    assert_eq!(playlist.channels[1].url, "HTTPS://cdn.example.com/2.m3u8");
    assert_eq!(playlist.epg_url, None);
}

#[test]
fn m3u_uses_extgrp_and_source_guide() {
    let mut src = source();
    src.epg = Some("https://example.com/guide.xml".to_string());
    let content = "#EXTM3U\n#EXTGRP:新闻\n#EXTINF:-1,新闻台\n#EXTVLCOPT:x\nhttp://a.example.com/n.m3u8\n#EXTINF:-1,无地址\n#EXTINF:-1 tvg-name=\"备用\",\n//a.example.com/b.m3u8\n";
    let playlist = parse_live_channels(&src, content);
    assert_eq!(playlist.epg_url.as_deref(), Some("https://example.com/guide.xml"));
    assert_eq!(playlist.channels.len(), 2);
    assert_eq!(playlist.channels[0].group, "新闻");
    assert_eq!(playlist.channels[0].tvg_id, "新闻台");
    assert_eq!(playlist.channels[1].name, "备用");
    assert_eq!(playlist.channels[1].group, "未分组");
    assert_eq!(playlist.channels[1].id, "test-1");
    assert_eq!(playlist.channels[1].url, "https://a.example.com/b.m3u8");
}

fn entry(name: &str, ua: Option<&str>) -> LiveSourceEntry {
    LiveSourceEntry {
        name: name.to_string(),
        url: format!("https://{name}.example.com/list.m3u"),
        ua: ua.map(|u| u.to_string()),
        epg: Some("  ".to_string()),
        enabled: None,
    }
}

#[test]
fn loading_live_sources_sorts_by_name_and_drops_blank_settings() {
    let file = LiveConfigFile {
        lives: vec![
            ("a".to_string(), entry("zeta", Some("UA/1"))),
            ("b".to_string(), entry("alpha", Some(" "))),
            ("c".to_string(), entry("zeta", None)),
        ],
    };
    let sources = load_live_sources(file);
    let keys: Vec<&str> = sources.iter().map(|s| s.key.as_str()).collect();
    assert_eq!(keys, vec!["b", "a", "c"]);
    assert_eq!(sources[0].ua, None);
    assert_eq!(sources[1].ua.as_deref(), Some("UA/1"));
    assert_eq!(sources[1].epg, None);
    assert!(sources[2].enabled);
}

#[test]
fn saved_live_sources_load_back() {
    let file = LiveConfigFile {
        lives: vec![("a".to_string(), entry("zeta", Some("UA/1"))), ("b".to_string(), entry("alpha", None))],
    };
    let loaded = load_live_sources(file);
    let saved = live_config_file(&loaded);
    let keys: Vec<&str> = saved.lives.iter().map(|(k, _)| k.as_str()).collect();
    assert_eq!(keys, vec!["a", "b"]);
    assert_eq!(saved.lives[0].1.enabled, Some(true));
    let again = load_live_sources(saved);
    assert_eq!(again.len(), loaded.len());
    for (x, y) in again.iter().zip(loaded.iter()) {
        assert_eq!(x.key, y.key);
        assert_eq!(x.name, y.name);
        assert_eq!(x.url, y.url);
        assert_eq!(x.ua, y.ua);
        assert_eq!(x.epg, y.epg);
        assert_eq!(x.enabled, y.enabled);
    }
}

#[test]
fn saving_keeps_the_last_source_of_a_key() {
    let mut first = source();
    first.name = "一".to_string();
    let mut second = source();
    second.name = "二".to_string();
    let saved = live_config_file(&vec![first, second]);
    assert_eq!(saved.lives.len(), 1);
    assert_eq!(saved.lives[0].1.name, "二");
}

#[test]
fn decodes_utf8_then_gbk() {
    assert_eq!(decode_text("频道".as_bytes()), "频道");
    assert_eq!(decode_text(&[0xc6, 0xb5, 0xb5, 0xc0]), "频道");
}

#[test]
fn any_live_list_with_distinct_keys_saves_and_loads_back() {
    let mut b = source();
    b.key = "b".to_string();
    b.name = "Same".to_string();
    b.ua = Some("  ".to_string());
    let mut a = source();
    a.key = "a".to_string();
    a.name = "Same".to_string();
    a.epg = Some("https://e.example.com/g.xml".to_string());
    let mut z = source();
    z.key = "z".to_string();
    z.name = "Alpha".to_string();
    let loaded = load_live_sources(live_config_file(&vec![b, z, a]));
    let keys: Vec<&str> = loaded.iter().map(|s| s.key.as_str()).collect();
    assert_eq!(keys, vec!["z", "a", "b"]);
    assert_eq!(loaded[2].ua, None);
    assert_eq!(loaded[1].epg.as_deref(), Some("https://e.example.com/g.xml"));
}
