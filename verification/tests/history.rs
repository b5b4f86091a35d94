use eplayer::history::{
    find_history_by_title, is_resumable, normalized_history_title, now_ts, play_url, rows_replaced_by,
    skip_config_from_request, timestamp_of, HistoryRow,
};
use eplayer::model::PlayHistory;
use eplayer::proxy::ProxyServer;

fn entry(source: &str, video_id: &str, title: &str) -> PlayHistory {
    PlayHistory {
        source: source.to_string(),
        video_id: video_id.to_string(),
        episode_index: 0,
        progress_sec: 12,
        duration_sec: 120,
        title: title.to_string(),
        episode_title: "第1集".to_string(),
        poster: String::new(),
        updated_at: 20,
    }
}

fn row(source: &str, video_id: &str, title: &str) -> HistoryRow {
    HistoryRow { source: source.to_string(), video_id: video_id.to_string(), title: title.to_string() }
}

#[test]
fn normalizes_titles() {
    assert_eq!(normalized_history_title("错 付"), "错付");
    assert_eq!(normalized_history_title("《错付》(TV版) 2024"), "错付tv版2024");
    assert_eq!(normalized_history_title("Hello_World!"), "hello_world");
    let once = normalized_history_title("【HD】 Movie ");
    assert_eq!(normalized_history_title(&once), once);
}

#[test]
fn saving_replaces_same_title_from_other_source() {
    let rows = vec![row("s1", "v1", "错付"), row("s2", "v2", "错付"), row("s3", "v3", "别的")];
    let replaced = rows_replaced_by(&rows, &entry("s2", "v2", "错付"));
    assert_eq!(replaced, vec![("s1".to_string(), "v1".to_string())]);
}

#[test]
fn saving_replaces_normalized_same_title() {
    let rows = vec![row("bfzy", "1", "错 付")];
    let replaced = rows_replaced_by(&rows, &entry("dyttzy", "2", "错付"));
    assert_eq!(replaced, vec![("bfzy".to_string(), "1".to_string())]);
}

#[test]
fn finds_history_by_normalized_title() {
    let rows = vec![entry("a", "1", "别的"), entry("b", "2", "【错付】"), entry("c", "3", "错付")];
    assert_eq!(find_history_by_title(&rows, "错 付"), Some(1));
    assert_eq!(find_history_by_title(&rows, "  !! "), None);
    assert_eq!(find_history_by_title(&rows, "没有"), None);
}

#[test]
fn resumable_entries() {
    let mut h = entry("a", "1", "t");
    h.progress_sec = 2;
    assert!(!is_resumable(&h));
    h.episode_index = 1;
    assert!(is_resumable(&h));
    h.episode_index = 0;
    h.progress_sec = 3;
    assert!(is_resumable(&h));
}

#[test]
fn skip_settings_from_requests() {
    let c = skip_config_from_request("s".to_string(), "v".to_string(), -5, 30, None, 99);
    assert_eq!(c.intro_end_sec, 0);
    assert_eq!(c.outro_offset_sec, 30);
    assert!(c.enabled);
    assert_eq!(c.updated_at, 99);
    let d = skip_config_from_request("s".to_string(), "v".to_string(), 10, -1, Some(false), 1);
    assert_eq!(d.intro_end_sec, 10);
    assert_eq!(d.outro_offset_sec, 0);
    assert!(!d.enabled);
}

#[test]
fn playlist_addresses_go_through_the_proxy() {
    let proxy = ProxyServer::with_base_url("http://127.0.0.1:7".to_string());
    assert_eq!(
        play_url("https://v.example.com/A.M3U8", Some(&proxy)),
        "http://127.0.0.1:7/proxy/m3u8?url=https%3A%2F%2Fv.example.com%2FA.M3U8"
    );
    assert_eq!(play_url("https://v.example.com/a.mp4", Some(&proxy)), "https://v.example.com/a.mp4");
    assert_eq!(play_url("https://v.example.com/a.m3u8", None), "https://v.example.com/a.m3u8");
}

#[test]
fn clock_reads_after_the_epoch() {
    assert!(now_ts() > 1_600_000_000);
}

#[test]
fn timestamps_of_clock_readings() {
    assert_eq!(timestamp_of(Some(1_700_000_000)), 1_700_000_000);
    assert_eq!(timestamp_of(None), 0);
    assert_eq!(timestamp_of(Some(u64::MAX)), -1);
}
