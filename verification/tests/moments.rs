use efflux::error::AppError;
use efflux::media::MediaRow;
use efflux::moments::{
    check_not_empty, escape_like, make_excerpt, normalize_ambient, normalize_content,
    normalize_filter, normalize_place_names, normalize_tags, normalize_title, order_media_links,
    parse_range, share_token_for, shared_file, shared_media_url, uuid_string, validate_time,
    ListQuery, MediaLink, TWENTY_YEARS_NANOS,
};

fn validation(r: Result<impl std::fmt::Debug, AppError>) -> String {
    match r {
        Err(AppError::Validation(m)) => m,
        other => panic!("expected a validation error, got {:?}", other.is_ok()),
    }
}

#[test]
fn titles_and_texts() {
    assert_eq!(normalize_title("  雨天  ").unwrap(), "雨天");
    assert_eq!(validation(normalize_title(&"字".repeat(121))), "主题太长了，最多 120 个字");
    assert!(normalize_title(&"字".repeat(120)).is_ok());
    assert_eq!(normalize_content("\n正文\t").unwrap(), "正文");
    assert_eq!(validation(normalize_content(&"a".repeat(20_001))), "文字太长了，最多 20000 个字");
    assert_eq!(
        normalize_place_names(Some(" 西湖 "), Some(" 杭州 ")).unwrap(),
        ("西湖".to_string(), "杭州".to_string())
    );
    assert_eq!(normalize_place_names(None, None).unwrap(), (String::new(), String::new()));
    assert_eq!(validation(normalize_place_names(Some(&"地".repeat(61)), None)), "地点太长了，最多 60 个字");
    assert_eq!(validation(normalize_place_names(None, Some(&"城".repeat(25)))), "城市名太长了，最多 24 个字");
    assert!(check_not_empty("", "", true, "空").is_ok());
    assert_eq!(validation(check_not_empty("", "", false, "写点什么吧")), "写点什么吧");
}

#[test]
fn ambient_sounds() {
    assert_eq!(normalize_ambient(None).unwrap(), None);
    assert_eq!(normalize_ambient(Some(" RAIN ")).unwrap(), Some("rain".to_string()));
    assert_eq!(normalize_ambient(Some("  ")).unwrap(), Some(String::new()));
    assert_eq!(validation(normalize_ambient(Some("thunder"))), "没有这种氛围音");
}

#[test]
fn tags_are_cleaned() {
    let raw = vec![" 旅行 ".to_string(), "".to_string(), "Cat".to_string(), "cat".to_string(), "x".repeat(40)];
    let tags = normalize_tags(raw);
    assert_eq!(tags, vec!["旅行".to_string(), "Cat".to_string(), "x".repeat(32)]);
    let many: Vec<String> = (0..20).map(|i| format!("t{i}")).collect();
    assert_eq!(normalize_tags(many).len(), 12);
}

#[test]
fn excerpts_and_search() {
    assert_eq!(make_excerpt("  a \n\n b\tc "), "a b c");
    let long = "字".repeat(81);
    assert_eq!(make_excerpt(&long), format!("{}…", "字".repeat(80)));
    assert_eq!(make_excerpt(&"字".repeat(80)), "字".repeat(80));
    assert_eq!(escape_like(r"50%_off\"), r"50\%\_off\\");
}

#[test]
fn list_filters() {
    let f = normalize_filter(ListQuery {
        q: Some("  10%  ".to_string()),
        tags: Some(" a, ,b ".to_string()),
        from: Some(1),
        to: None,
        order: Some("ASC".to_string()),
        limit: Some(5000),
        offset: Some(-3),
    });
    assert_eq!(f.q.as_deref(), Some(r"10\%"));
    assert_eq!(f.tags, Some(vec!["a".to_string(), "b".to_string()]));
    assert!(f.ascending);
    assert_eq!(f.limit, 1000);
    assert_eq!(f.offset, 0);
    assert_eq!(f.from, Some(1));
    let d = normalize_filter(ListQuery { q: Some("  ".to_string()), tags: Some(" , ".to_string()), from: None, to: None, order: None, limit: None, offset: None });
    assert_eq!(d.q, None);
    assert_eq!(d.tags, None);
    assert!(!d.ascending);
    assert_eq!(d.limit, 200);
}

#[test]
fn times() {
    let now: i128 = 1_700_000_000_000_000_000;
    assert_eq!(validate_time(None, now).unwrap(), now);
    assert_eq!(validate_time(Some(0), now).unwrap(), 0);
    assert_eq!(validation(validate_time(Some(-1), now)), "时间似乎不太对，请重新选择");
    assert!(validate_time(Some(now + TWENTY_YEARS_NANOS), now).is_ok());
    assert!(validate_time(Some(now + TWENTY_YEARS_NANOS + 1), now).is_err());
}

#[test]
fn byte_ranges() {
    assert_eq!(parse_range(Some("bytes=0-99"), 1000), Some((0, 99)));
    assert_eq!(parse_range(Some("bytes=900-"), 1000), Some((900, 999)));
    assert_eq!(parse_range(Some("bytes=-100"), 1000), Some((900, 999)));
    assert_eq!(parse_range(Some("bytes=0-5000"), 1000), Some((0, 999)));
    assert_eq!(parse_range(Some("bytes=1000-"), 1000), None);
    assert_eq!(parse_range(Some("bytes=0-1,4-5"), 1000), None);
    assert_eq!(parse_range(Some("items=0-1"), 1000), None);
    assert_eq!(parse_range(Some("bytes=5-1"), 1000), None);
    assert_eq!(parse_range(None, 1000), None);
    assert_eq!(parse_range(Some("bytes=0-0"), 0), None);
}

#[test]
fn sharing() {
    assert_eq!(uuid_string(0x0123456789abcdef0123456789abcdef), "01234567-89ab-cdef-0123-456789abcdef");
    assert_eq!(
        shared_media_url("tok", 1, true),
        "/api/shared/tok/media/00000000-0000-0000-0000-000000000001?thumb=1"
    );
    assert_eq!(share_token_for(Some("kept".to_string())), "kept");
    let fresh = share_token_for(None);
    assert_eq!(fresh.len(), 32);
    assert!(fresh.chars().all(|c| c.is_ascii_hexdigit() && !c.is_ascii_uppercase()));
    assert_ne!(fresh, share_token_for(None));
}

#[test]
fn shared_files_belong_to_the_moment() {
    let media = vec![MediaRow {
        id: 5,
        moment_id: Some(1),
        kind: "video".to_string(),
        role: "attachment".to_string(),
        file_path: "v.mp4".to_string(),
        thumb_path: None,
        mime_type: "video/mp4".to_string(),
        size_bytes: 1,
        width: None,
        height: None,
        duration_ms: None,
        position: 0,
    }];
    assert_eq!(shared_file(&media, 5, true).unwrap(), ("v.mp4".to_string(), "video/mp4".to_string()));
    match shared_file(&media, 6, false) {
        Err(AppError::NotFound { resource, id }) => {
            assert_eq!(resource, "画面");
            assert_eq!(id, "00000000-0000-0000-0000-000000000006");
        }
        _ => panic!("expected not found"),
    }
}

#[test]
fn media_order_is_stable() {
    let links = vec![
        MediaLink { id: 1, position: Some(2) },
        MediaLink { id: 2, position: None },
        MediaLink { id: 3, position: Some(0) },
        MediaLink { id: 4, position: Some(-1) },
    ];
    assert_eq!(order_media_links(&links), vec![4, 2, 3, 1]);
}

use efflux::moments::{place_of, prepare_create, prepare_update, serve_plan, MomentDraft};

fn draft() -> MomentDraft {
    MomentDraft {
        title: None,
        content: None,
        happened_at: None,
        tags: None,
        media: None,
        ambient: None,
        location_name: None,
        city: None,
        has_coordinates: false,
    }
}

const NOW: i128 = 1_700_000_000_000_000_000;

#[test]
fn creating_moments() {
    assert_eq!(validation(prepare_create(&draft(), NOW).map(|_| ())), "写点什么吧，一句话或一张照片都可以");
    let mut d = draft();
    d.title = Some(" 雨 ".to_string());
    d.tags = Some(vec!["a".to_string(), "A".to_string(), "b".to_string()]);
    d.media = Some(vec![MediaLink { id: 9, position: Some(3) }, MediaLink { id: 8, position: None }]);
    d.ambient = Some(" ".to_string());
    d.city = Some(" 杭州 ".to_string());
    let m = prepare_create(&d, NOW).ok().unwrap();
    assert_eq!(m.title, "雨");
    assert_eq!(m.content, "");
    assert_eq!(m.tags, vec!["a".to_string(), "b".to_string()]);
    assert_eq!(m.media_ids, vec![8, 9]);
    assert_eq!(m.happened_at, NOW);
    assert_eq!(m.city, "杭州");
    assert_eq!(m.ambient, None);
    d.ambient = Some("Fire".to_string());
    assert_eq!(prepare_create(&d, NOW).ok().unwrap().ambient.as_deref(), Some("fire"));
    d.ambient = Some("wind".to_string());
    assert_eq!(validation(prepare_create(&d, NOW).map(|_| ())), "没有这种氛围音");
    d.happened_at = Some(-5);
    assert_eq!(validation(prepare_create(&d, NOW).map(|_| ())), "时间似乎不太对，请重新选择");
}

#[test]
fn updating_moments() {
    let mut d = draft();
    d.title = Some("  ".to_string());
    assert_eq!(validation(prepare_update(&d, "旧标题", "", NOW).map(|_| ())), "点滴不能完全空着");
    assert!(prepare_update(&d, "旧标题", "还有正文", NOW).is_ok());
    let mut d = draft();
    d.has_coordinates = true;
    d.media = Some(vec![MediaLink { id: 2, position: Some(9) }, MediaLink { id: 1, position: Some(0) }]);
    d.ambient = Some("".to_string());
    let c = prepare_update(&d, "", "", NOW).ok().unwrap();
    assert_eq!(c.title, None);
    let place = c.place.unwrap();
    assert_eq!((place.name.as_str(), place.city.as_str()), ("", ""));
    assert_eq!(c.media_ids, Some(vec![2, 1]));
    assert_eq!(c.ambient.as_deref(), Some(""));
    assert_eq!(c.tags, None);
    let untouched = prepare_update(&draft(), "t", "", NOW).ok().unwrap();
    assert!(untouched.place.is_none());
    assert_eq!(untouched.ambient, None);
}

#[test]
fn places_and_ranges() {
    assert!(place_of(" ", "", false).is_none());
    let p = place_of(" 西湖 ", "", false).unwrap();
    assert_eq!(p.name, "西湖");
    assert!(place_of("", "", true).is_some());
    let whole = serve_plan(None, 1000);
    assert!(!whole.partial);
    assert_eq!((whole.start, whole.end, whole.length), (0, 999, 1000));
    assert_eq!(whole.content_range, None);
    let part = serve_plan(Some("bytes=100-199"), 1000);
    assert!(part.partial);
    assert_eq!((part.start, part.end, part.length), (100, 199, 100));
    assert_eq!(part.content_range.as_deref(), Some("bytes 100-199/1000"));
    let empty = serve_plan(Some("bytes=0-1"), 0);
    assert_eq!((empty.partial, empty.length), (false, 0));
}
