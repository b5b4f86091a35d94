use eplayer::cms::{
    build_url, category_list, category_params, content_type_charset, decode_response_body, deserialize_u32,
    detail_params, detail_result, library_page, parse_episodes, search_params, search_results, video_params, JsonValue,
    MacCmsClass, MacCmsItem, MacCmsResponse,
};
use eplayer::model::Source;

#[test]
fn parses_largest_episode_group() {
    let episodes = parse_episodes("A$u1#B$u2$$$A$u3#B$u4#C$u5");
    assert_eq!(episodes.len(), 3);
    assert_eq!(episodes[2].title, "C");
    assert_eq!(episodes[2].url, "u5");
}

#[test]
fn prefers_m3u8_episode_group() {
    let episodes = parse_episodes(
        "AD$https://cdn.example.com/ad.mp4#正片$https://cdn.example.com/movie.mp4$$$第1集$https://cdn.example.com/ep1.m3u8#第2集$https://cdn.example.com/ep2.m3u8",
    );
    assert_eq!(episodes.len(), 2);
    assert_eq!(episodes[0].title, "第1集");
    assert!(episodes[0].url.ends_with("ep1.m3u8"));
}

#[test]
fn filters_ad_episode_entries_before_group_selection() {
    let episodes = parse_episodes(
        "广告$https://cdn.example.com/ads/preroll.m3u8#第1集$https://cdn.example.com/ep1.m3u8?token=1#第2集$https://cdn.example.com/ep2.m3u8",
    );
    assert_eq!(episodes.len(), 2);
    assert_eq!(episodes[0].title, "第1集");
    assert!(!episodes.iter().any(|episode| episode.title.contains("广告")));
}

#[test]
fn episode_titles_are_cleaned_and_urls_trimmed() {
    let episodes = parse_episodes("第1集&amp;预告$ https://a.example.com/1.mp4 #$https://a.example.com/2.mp4#无地址$  ");
    assert_eq!(episodes.len(), 2);
    assert_eq!(episodes[0].title, "第1集&预告");
    assert_eq!(episodes[0].url, "https://a.example.com/1.mp4");
    assert_eq!(episodes[1].title, "");
    assert_eq!(episodes[1].url, "https://a.example.com/2.mp4");
}

#[test]
fn empty_play_url_gives_no_episodes() {
    assert!(parse_episodes("").is_empty());
}

fn source() -> Source {
    Source {
        key: "zy".to_string(),
        name: "资源".to_string(),
        api: "https://zy.example.com/api.php/provide/vod".to_string(),
        detail: None,
        enabled: true,
    }
}

fn item(id: JsonValue, name: &str) -> MacCmsItem {
    MacCmsItem {
        vod_id: id,
        vod_name: name.to_string(),
        category_name: "电影".to_string(),
        vod_pic: "https://img.example.com/p.jpg".to_string(),
        vod_year: "2024".to_string(),
        vod_actor: String::new(),
        vod_director: String::new(),
        vod_area: String::new(),
        vod_lang: String::new(),
        vod_class: String::new(),
        vod_content: "<p>好看&amp;精彩</p>".to_string(),
        vod_remarks: String::new(),
        vod_play_url: "第1集$https://v.example.com/1.m3u8".to_string(),
    }
}

fn response(list: Vec<MacCmsItem>) -> MacCmsResponse {
    MacCmsResponse {
        list,
        classes: vec![
            MacCmsClass { type_id: JsonValue::Number { text: "1".to_string(), as_u64: Some(1) }, type_pid: JsonValue::Other, class_name: " 电影 ".to_string() },
            MacCmsClass { type_id: JsonValue::Other, type_pid: JsonValue::Other, class_name: "无编号".to_string() },
            MacCmsClass { type_id: JsonValue::Text("2".to_string()), type_pid: JsonValue::Text("1".to_string()), class_name: "".to_string() },
        ],
        total: JsonValue::Text("42".to_string()),
        page: JsonValue::Number { text: "2".to_string(), as_u64: Some(2) },
        pagecount: JsonValue::Text("x".to_string()),
    }
}

#[test]
fn search_results_skip_untitled_videos() {
    let data = response(vec![
        item(JsonValue::Number { text: "7".to_string(), as_u64: Some(7) }, "电影A"),
        item(JsonValue::Text("8".to_string()), "  "),
    ]);
    let results = search_results(&data, &source());
    assert_eq!(results.len(), 1);
    assert_eq!(results[0].id, "7");
    assert_eq!(results[0].source, "zy");
    assert_eq!(results[0].source_name, "资源");
    assert_eq!(results[0].title, "电影A");
    assert_eq!(results[0].description, "好看&精彩");
    assert_eq!(results[0].episodes.len(), 1);
}

#[test]
fn category_list_starts_with_latest_then_named_classes() {
    let categories = category_list(&response(Vec::new()));
    assert_eq!(categories.len(), 2);
    assert_eq!(categories[0].id, "");
    assert_eq!(categories[0].name, "最新");
    assert_eq!(categories[1].id, "1");
    assert_eq!(categories[1].parent_id, "");
    assert_eq!(categories[1].name, "电影");
}

#[test]
fn library_page_numbers() {
    let data = response(vec![item(JsonValue::Text("1".to_string()), "片")]);
    let page = library_page(&data, &source(), 0);
    assert_eq!(page.page, 2);
    assert_eq!(page.total, 42);
    assert_eq!(page.page_count, 0);
    assert_eq!(page.items.len(), 1);
    let later = library_page(&data, &source(), 5);
    assert_eq!(later.page, 5);
}

#[test]
fn detail_result_takes_first_video() {
    let data = response(vec![item(JsonValue::Text("9".to_string()), "详情"), item(JsonValue::Other, "其他")]);
    let detail = detail_result(&data, &source()).unwrap();
    assert_eq!(detail.id, "9");
    assert!(detail_result(&response(Vec::new()), &source()).is_none());
}

#[test]
fn json_counts() {
    assert_eq!(deserialize_u32(&JsonValue::Text("+15".to_string())), 15);
    assert_eq!(deserialize_u32(&JsonValue::Text("4294967296".to_string())), 0);
    assert_eq!(deserialize_u32(&JsonValue::Number { text: "4294967297".to_string(), as_u64: Some(4294967297) }), 1);
    assert_eq!(deserialize_u32(&JsonValue::Number { text: "1.5".to_string(), as_u64: None }), 0);
    assert_eq!(deserialize_u32(&JsonValue::Other), 0);
}

#[test]
fn request_queries() {
    let search = search_params("三体");
    assert_eq!(search, vec![("ac".to_string(), "videolist".to_string()), ("wd".to_string(), "三体".to_string()), ("pg".to_string(), "1".to_string())]);
    assert_eq!(category_params(), vec![("ac".to_string(), "list".to_string())]);
    assert_eq!(video_params("", 0), vec![("ac".to_string(), "videolist".to_string()), ("pg".to_string(), "1".to_string())]);
    assert_eq!(video_params("6", 12)[1], ("t".to_string(), "6".to_string()));
    assert_eq!(video_params("6", 12)[2], ("pg".to_string(), "12".to_string()));
    assert_eq!(detail_params("33"), vec![("ac".to_string(), "detail".to_string()), ("ids".to_string(), "33".to_string())]);
}

#[test]
fn builds_request_url() {
    let url = build_url("https://zy.example.com/api.php/provide/vod", &search_params("a b&c")).unwrap();
    assert_eq!(url, "https://zy.example.com/api.php/provide/vod?ac=videolist&wd=a+b%26c&pg=1");
    assert!(build_url("not a url", &category_params()).is_none());
}

#[test]
fn charset_from_content_type() {
    assert_eq!(content_type_charset("text/html; charset=\"gbk\"").as_deref(), Some("gbk"));
    assert_eq!(content_type_charset("application/json;charset=utf-8").as_deref(), Some("utf-8"));
    assert!(content_type_charset("application/json").is_none());
}

#[test]
fn decodes_bodies_by_label_then_utf8_then_gbk() {
    let gbk_bytes: &[u8] = &[0xc4, 0xe3, 0xba, 0xc3];
    assert_eq!(decode_response_body(gbk_bytes, None), "你好");
    assert_eq!(decode_response_body(gbk_bytes, Some("gbk")), "你好");
    assert_eq!(decode_response_body("你好".as_bytes(), Some("nonsense")), "你好");
}
