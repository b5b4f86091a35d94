use eplayer::proxy::{
    default_user_agent, filter_ads_from_m3u8, rewrite_m3u8, safe_url, segment_content_type_exec, upstream_referer,
    upstream_user_agent, url_encode, ProxyServer, RewriteError, SafeUrlError,
};
use url::Url;

fn base(s: &str) -> String {
    Url::parse(s).unwrap().as_str().to_string()
}

#[test]
fn rewrites_relative_links() {
    let base = base("https://example.com/video/master/index.m3u8");
    let input = "#EXTM3U\n#EXTINF:10,\nseg-1.ts\n#EXT-X-KEY:METHOD=AES-128,URI=\"key.key\"";
    let out = rewrite_m3u8(input, &base, "http://127.0.0.1:1234", None).unwrap();
    assert!(out.contains("/proxy/segment?url=https%3A%2F%2Fexample.com%2Fvideo%2Fmaster%2Fseg-1.ts"));
    assert!(out.contains("URI=\"http://127.0.0.1:1234/proxy/segment?url=https%3A%2F%2Fexample.com%2Fvideo%2Fmaster%2Fkey.key\""));
}

#[test]
fn filters_ad_segments_before_rewrite() {
    let input = "#EXTM3U\n#EXTINF:8,\nseg-1.ts\n#EXT-X-DISCONTINUITY\n#EXTINF:5,\nhttps://cdn.example.com/ads/ad-1.ts\n#EXTINF:9,\nseg-2.ts";
    let out = filter_ads_from_m3u8(input);
    assert!(out.contains("seg-1.ts"));
    assert!(out.contains("seg-2.ts"));
    assert!(!out.contains("ad-1.ts"));
    assert!(!out.contains("#EXT-X-DISCONTINUITY"));
}

#[test]
fn removes_discontinuity_ad_block_before_keyword_segment() {
    let input = "#EXTM3U\n#EXTINF:8,\nmain-1.ts\n#EXT-X-DISCONTINUITY\n#EXTINF:3,\npre-ad.ts\n#EXTINF:5,\nhttps://cdn.example.com/ads/ad-1.ts\n#EXT-X-DISCONTINUITY\n#EXTINF:9,\nmain-2.ts";
    let out = filter_ads_from_m3u8(input);
    assert!(out.contains("main-1.ts"));
    assert!(out.contains("main-2.ts"));
    assert!(!out.contains("pre-ad.ts"));
    assert!(!out.contains("ad-1.ts"));
    assert!(!out.contains("#EXT-X-DISCONTINUITY"));
}

#[test]
fn filters_ad_segment_when_tag_is_between_extinf_and_url() {
    let input = "#EXTM3U\n#EXTINF:8,\nmain-1.ts\n#EXT-X-DISCONTINUITY\n#EXTINF:6,\n#EXT-X-BYTERANGE:1000@0\nhttps://cdn.example.com/googleads/seg.ts\n#EXT-X-DISCONTINUITY\n#EXTINF:8,\nmain-2.ts";
    let out = filter_ads_from_m3u8(input);
    assert!(out.contains("main-1.ts"));
    assert!(out.contains("main-2.ts"));
    assert!(!out.contains("googleads"));
    assert!(!out.contains("BYTERANGE"));
}

#[test]
fn rewrites_ext_x_map_uri() {
    let base = base("https://example.com/video/master/index.m3u8");
    let input = "#EXTM3U\n#EXT-X-MAP:URI=\"init.mp4\"\n#EXTINF:10,\nseg-1.m4s";
    let out = rewrite_m3u8(input, &base, "http://127.0.0.1:1234", None).unwrap();
    assert!(out.contains("URI=\"http://127.0.0.1:1234/proxy/segment?url=https%3A%2F%2Fexample.com%2Fvideo%2Fmaster%2Finit.mp4\""));
    assert!(out.contains("/proxy/segment?url=https%3A%2F%2Fexample.com%2Fvideo%2Fmaster%2Fseg-1.m4s"));
}

#[test]
fn rewrites_links_with_user_agent() {
    let base = base("https://example.com/video/index.m3u8");
    let input = "#EXTM3U\n#EXT-X-STREAM-INF:BANDWIDTH=1000\n01.m3u8\n#EXTINF:10,\nseg-1.ts";
    let out = rewrite_m3u8(input, &base, "http://127.0.0.1:1234", Some("AptvPlayer/1.4.10")).unwrap();
    assert!(out.contains("&ua=AptvPlayer%2F1.4.10"));
    assert!(out.contains("/proxy/m3u8?url="));
    assert!(out.contains("/proxy/segment?url="));
}

#[test]
fn resolves_extensionless_playlist_base_as_directory() {
    let base = base("http://192.168.1.8:1905/608807420");
    let out = rewrite_m3u8(
        "#EXTM3U\n#EXT-X-STREAM-INF:BANDWIDTH=1000\n01.m3u8?x=1",
        &base,
        "http://127.0.0.1:1234",
        Some("AptvPlayer/1.4.10"),
    )
    .unwrap();
    assert!(out.contains("http%3A%2F%2F192.168.1.8%3A1905%2F608807420%2F01.m3u8%3Fx%3D1"));
}

#[test]
fn rewriting_keeps_tags_and_line_count() {
    let base = base("https://example.com/a/index.m3u8");
    let input = "#EXTM3U\n#EXT-X-VERSION:3\n\n#EXTINF:4,\nhttps://other.example.com/s.ts";
    let out = rewrite_m3u8(input, &base, "http://p", None).unwrap();
    let lines: Vec<&str> = out.split('\n').collect();
    assert_eq!(lines.len(), 5);
    assert_eq!(lines[0], "#EXTM3U");
    assert_eq!(lines[1], "#EXT-X-VERSION:3");
    assert_eq!(lines[2], "");
    assert_eq!(lines[4], "http://p/proxy/segment?url=https%3A%2F%2Fother.example.com%2Fs.ts");
}

#[test]
fn rewriting_fails_on_an_unresolvable_address() {
    let out = rewrite_m3u8("seg.ts", "not a url", "http://p", None);
    assert_eq!(out, Err(RewriteError::UnresolvableUrl));
}

#[test]
fn filtering_keeps_plain_playlists_and_empties_blank_ones() {
    assert_eq!(filter_ads_from_m3u8("  \n "), "");
    let plain = "#EXTM3U\n#EXTINF:10,\na.ts\n#EXTINF:10,\nb.ts";
    assert_eq!(filter_ads_from_m3u8(plain), plain);
}

#[test]
fn filtering_drops_short_segments_after_a_discontinuity() {
    let mut input = String::from("#EXTM3U");
    for i in 0..6 {
        input.push_str(&format!("\n#EXTINF:10.0,\nmain-{i}.ts"));
    }
    input.push_str("\n#EXT-X-DISCONTINUITY\n#EXTINF:5.0,\nshort.ts\n#EXTINF:10,\nmain-9.ts");
    let out = filter_ads_from_m3u8(&input);
    assert!(!out.contains("short.ts"));
    assert!(out.contains("main-0.ts"));
    assert!(out.contains("main-9.ts"));
}

#[test]
fn encodes_query_values() {
    let enc: String = url_encode("a b/ü*~").into_iter().collect();
    assert_eq!(enc, "a+b%2F%C3%BC*%7E");
}

#[test]
fn proxied_playlist_address() {
    let proxy = ProxyServer::with_base_url("http://127.0.0.1:9".to_string());
    assert_eq!(proxy.base_url(), "http://127.0.0.1:9");
    assert_eq!(
        proxy.proxied_m3u8_url("https://a.example.com/x.m3u8?t=1"),
        "http://127.0.0.1:9/proxy/m3u8?url=https%3A%2F%2Fa.example.com%2Fx.m3u8%3Ft%3D1"
    );
}

#[test]
fn checks_addresses_before_fetching() {
    assert_eq!(safe_url("https://example.com/a b").unwrap(), "https://example.com/a%20b");
    assert_eq!(safe_url("not a url"), Err(SafeUrlError::Invalid));
    assert_eq!(safe_url("ftp://example.com/x"), Err(SafeUrlError::UnsupportedScheme));
    assert_eq!(safe_url("https://user:pw@example.com/x"), Err(SafeUrlError::Credentials));
}

#[test]
fn upstream_headers() {
    assert_eq!(upstream_user_agent(Some("  VLC/3 ")), "VLC/3");
    assert_eq!(upstream_user_agent(Some(" ")), default_user_agent());
    assert_eq!(upstream_user_agent(None), default_user_agent());
    assert_eq!(upstream_referer("https://cdn.example.com:8443/a/b.ts").as_deref(), Some("https://cdn.example.com/"));
    assert_eq!(upstream_referer("nonsense"), None);
}

#[test]
fn segment_types() {
    assert_eq!(segment_content_type_exec("application/octet-stream"), "video/mp2t");
    assert_eq!(segment_content_type_exec("Video/MP4"), "video/mp2t");
    assert_eq!(segment_content_type_exec("image/png"), "image/png");
}

#[test]
fn durations_in_exponent_form_and_long_fractions() {
    let input = "#EXTM3U\n#EXTINF:10,\nmain-1.ts\n#EXT-X-DISCONTINUITY\n#EXTINF:5e0,\nshort.ts\n#EXTINF:6.0000000001,\nlonger.ts";
    let out = filter_ads_from_m3u8(input);
    assert!(out.contains("main-1.ts"));
    assert!(!out.contains("short.ts"));
    assert!(out.contains("longer.ts"));
}

#[test]
fn filtering_twice_changes_nothing() {
    let input = "#EXTM3U\n#EXTINF:8,\nmain-1.ts\n#EXT-X-DISCONTINUITY\n#EXTINF:3,\nad.ts\n#EXTINF:9,\nhttps://cdn.example.com/ads/x.ts\n#EXTINF:9,\nmain-2.ts";
    let once = filter_ads_from_m3u8(input);
    assert_eq!(filter_ads_from_m3u8(&once), once);
}

#[test]
fn credentials_are_refused_by_user_or_password() {
    assert_eq!(safe_url("https://user@example.com/x"), Err(SafeUrlError::Credentials));
    assert_eq!(safe_url("https://:pw@example.com/x"), Err(SafeUrlError::Credentials));
    assert_eq!(safe_url("https://@example.com/x").unwrap(), "https://example.com/x");
}
