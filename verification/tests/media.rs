use efflux::error::AppError;
use efflux::media::{
    file_url, lookup, new_media, normalize_mime, split_media, summarize_media, Kind, MediaDto,
    MediaRow, SavedFile, Storage,
};

fn row(id: u128, kind: &str, path: &str, thumb: Option<&str>) -> MediaRow {
    MediaRow {
        id,
        moment_id: Some(7),
        kind: kind.to_string(),
        role: "attachment".to_string(),
        file_path: path.to_string(),
        thumb_path: thumb.map(|t| t.to_string()),
        mime_type: "image/jpeg".to_string(),
        size_bytes: 10,
        width: None,
        height: None,
        duration_ms: None,
        position: 0,
    }
}

#[test]
fn kinds_parse_and_print() {
    assert_eq!(Kind::parse("image").unwrap(), Kind::Image);
    assert_eq!(Kind::parse("audio").unwrap(), Kind::Audio);
    assert_eq!(Kind::Video.as_str(), "video");
    match Kind::parse("text") {
        Err(AppError::Unsupported(m)) => assert_eq!(m, "未知的媒体种类: text"),
        _ => panic!("expected an unsupported kind"),
    }
}

#[test]
fn white_list_of_types() {
    assert_eq!(lookup("image/jpeg", Kind::Image), Some("jpg"));
    assert_eq!(lookup("image/heif", Kind::Image), Some("heic"));
    assert_eq!(lookup("video/quicktime", Kind::Video), Some("mov"));
    assert_eq!(lookup("audio/webm", Kind::Audio), Some("weba"));
    assert_eq!(lookup("image/jpeg", Kind::Video), None);
    assert_eq!(lookup("text/html", Kind::Image), None);
    assert_eq!(normalize_mime(Some(" Image/JPEG ; charset=x")), "image/jpeg");
    assert_eq!(normalize_mime(None), "application/octet-stream");
}

#[test]
fn planning_an_upload() {
    let storage = Storage::new("/data".to_string(), 5 * 1024 * 1024);
    assert_eq!(storage.root(), "/data");
    assert_eq!(storage.limit_for(Kind::Image), Some(5 * 1024 * 1024));
    assert_eq!(storage.limit_for(Kind::Video), None);
    let plan = storage
        .plan_save(Some("image/png"), Kind::Image, 2026, 9, 5, Some("thumb"))
        .unwrap();
    assert_eq!(plan.mime_type, "image/png");
    assert!(plan.rel_path.starts_with("2026/09/05/"));
    assert!(plan.rel_path.ends_with("-thumb.png"));
    assert_eq!(plan.rel_path.len(), "2026/09/05/".len() + 36 + "-thumb.png".len());
    let video = storage.plan_save(Some("video/mp4"), Kind::Video, 2026, 12, 31, None).unwrap();
    assert!(video.rel_path.starts_with("2026/12/31/") && video.rel_path.ends_with(".mp4"));
    assert_eq!(video.limit, None);
    match storage.plan_save(Some("text/plain"), Kind::Image, 2026, 1, 1, None) {
        Err(AppError::Unsupported(m)) => assert_eq!(m, "暂时不支持这种文件格式（text/plain）"),
        _ => panic!("expected an unsupported type"),
    }
    match storage.too_large() {
        AppError::PayloadTooLarge(m) => assert_eq!(m, "文件太大了，单个文件请控制在 5 MB 以内"),
        _ => panic!("expected a size error"),
    }
}

#[test]
fn rows_become_dtos() {
    assert_eq!(file_url("/2026/a.jpg"), "/files/2026/a.jpg");
    assert_eq!(file_url("2026/a.jpg"), "/files/2026/a.jpg");
    let dto = MediaDto::from_row(row(1, "image", "a.jpg", Some("a-t.jpg")));
    assert_eq!(dto.url, "/files/a.jpg");
    assert_eq!(dto.thumb_url.as_deref(), Some("/files/a-t.jpg"));
    let m = new_media(
        Kind::Audio,
        SavedFile { rel_path: "x.mp3".to_string(), size_bytes: 3, mime_type: "audio/mpeg".to_string() },
        None,
        None,
        None,
        Some(1200),
    );
    assert_eq!(m.kind, "audio");
    assert_eq!(m.role, "music");
    assert_eq!(m.duration_ms, Some(1200));
}

#[test]
fn summaries_and_details() {
    let media = vec![
        row(1, "video", "v.mp4", None),
        row(2, "audio", "m.mp3", None),
        row(3, "image", "i.jpg", None),
        row(4, "audio", "n.mp3", None),
    ];
    let s = summarize_media(&media);
    assert_eq!(s.media_count, 2);
    assert!(s.has_music);
    assert_eq!(s.cover.unwrap().id, 3);
    let (visual, music) = split_media(media);
    assert_eq!(visual.iter().map(|d| d.id).collect::<Vec<_>>(), vec![1, 3]);
    assert_eq!(music.unwrap().id, 2);
    let only_video = summarize_media(&[row(9, "video", "v.mp4", None)]);
    assert_eq!(only_video.cover.unwrap().id, 9);
    assert!(summarize_media(&[]).cover.is_none());
}

use efflux::media::{
    check_received, check_removable, field_action, in_use, queues_for_tagging, require_main,
    static_cache_control, tagging_source, FieldAction,
};

#[test]
fn upload_fields_and_limits() {
    assert_eq!(field_action("file", Kind::Image), FieldAction::SaveMain);
    assert_eq!(field_action("thumb", Kind::Video), FieldAction::SaveThumb);
    assert_eq!(field_action("thumb", Kind::Audio), FieldAction::Skip);
    assert_eq!(field_action("durationMs", Kind::Audio), FieldAction::DurationMs);
    assert_eq!(field_action("other", Kind::Image), FieldAction::Skip);
    let storage = Storage::new("/d".to_string(), 2 * 1024 * 1024);
    assert_eq!(storage.count_chunk(Some(10), 4, 6).unwrap(), 10);
    match storage.count_chunk(Some(10), 4, 7) {
        Err(AppError::PayloadTooLarge(m)) => assert_eq!(m, "文件太大了，单个文件请控制在 2 MB 以内"),
        _ => panic!("expected a size error"),
    }
    assert_eq!(storage.count_chunk(None, 4, 7).unwrap(), 11);
    assert!(check_received(0).is_err());
    assert!(check_received(1).is_ok());
    assert!(require_main(None).is_err());
    assert!(queues_for_tagging(Kind::Video, true));
    assert!(!queues_for_tagging(Kind::Audio, true));
    assert!(!queues_for_tagging(Kind::Image, false));
}

#[test]
fn removing_and_tagging() {
    match check_removable(None, 3) {
        Err(AppError::NotFound { resource, .. }) => assert_eq!(resource, "媒体"),
        _ => panic!("expected not found"),
    }
    let used = row(1, "image", "a.jpg", None);
    assert!(check_removable(Some(&used), 1).is_err());
    let mut free = row(2, "image", "b.jpg", None);
    free.moment_id = None;
    assert!(check_removable(Some(&free), 2).is_ok());
    assert!(matches!(in_use(), AppError::Validation(_)));
    assert_eq!(tagging_source("image", "a.jpg", Some("t.jpg")).as_deref(), Some("a.jpg"));
    assert_eq!(tagging_source("video", "v.mp4", Some("t.jpg")).as_deref(), Some("t.jpg"));
    assert_eq!(tagging_source("video", "v.mp4", None), None);
    assert_eq!(static_cache_control("/assets/app-1.js"), "public, max-age=31536000, immutable");
    assert_eq!(static_cache_control("/index.html"), "no-cache");
}
