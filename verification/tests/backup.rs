use efflux::backup::{
    accept_chunk, archive_name, backup_dir_of, backup_due, check_format_version, check_migration,
    check_staged, chosen_dir, default_dir, default_kind, deleted_table, entry_target,
    files_to_pack, interval_days, is_archive_name, join_path, kind_of, order_by_name, plan_backup,
    resolve, restored_tag_status, safe_relative, same_path, set_interval_days, staging_name,
    superseded, upload_name, ArchiveKind, BackupFile, BackupState, DeletedTable, EntryTarget,
    PackEntry, RestoreReport, RestoredRow, DAY_NANOS, FILE_PREFIX, HOUR_NANOS, MAX_CHAIN,
};
use efflux::error::AppError;
use efflux::media::Storage;

fn resolve_name_ok(name: &str) -> bool {
    name.starts_with(FILE_PREFIX) && name.ends_with(".zip") && safe_relative(name).is_some()
}

#[test]
fn relative_paths_only() {
    assert!(safe_relative("2026/09/15/a.jpg").is_some());
    assert!(safe_relative("../escape.jpg").is_none());
    assert!(safe_relative("/etc/passwd").is_none());
    assert!(safe_relative("").is_none());
}

#[test]
fn tells_base_from_delta_by_name() {
    assert_eq!(kind_of("efflux-20260915-103000-base.zip"), "base");
    assert_eq!(kind_of("efflux-20260916-103000-delta.zip"), "delta");
    assert_eq!(kind_of("efflux-20260915-103000.zip"), "base");
}

#[test]
fn backup_name_must_look_right() {
    assert!(resolve_name_ok("efflux-20260915-103000-base.zip"));
    assert!(!resolve_name_ok("../../etc/passwd"));
    assert!(!resolve_name_ok("something.zip"));
}

#[test]
fn safe_relative_rebuilds_clean_paths() {
    assert_eq!(safe_relative("2026/09/15/a.jpg").unwrap(), "2026/09/15/a.jpg");
    assert_eq!(safe_relative("a//b/./c/").unwrap(), "a/b/c");
    assert!(safe_relative("./a").is_none());
    assert!(safe_relative(".").is_none());
    assert!(safe_relative("a/../b").is_none());
    assert!(safe_relative("//").is_none());
    // what passes once passes again unchanged
    let once = safe_relative("x//y/.").unwrap();
    assert_eq!(safe_relative(&once).unwrap(), once);
}

#[test]
fn archive_names_carry_their_kind() {
    let base = archive_name("20260915-103000", ArchiveKind::Base);
    let delta = archive_name("20260916-103000", ArchiveKind::Delta);
    assert_eq!(base, "efflux-20260915-103000-base.zip");
    assert_eq!(delta, "efflux-20260916-103000-delta.zip");
    assert_eq!(kind_of(&base), "base");
    assert_eq!(kind_of(&delta), "delta");
    assert!(is_archive_name(&base));
    assert!(!is_archive_name("efflux-x.tar"));
    assert_eq!(default_kind(), "base");
}

#[test]
fn resolve_keeps_only_the_last_part() {
    assert_eq!(
        resolve("/data/backups", "x/y/efflux-20260915-103000-base.zip").unwrap(),
        "/data/backups/efflux-20260915-103000-base.zip"
    );
    assert_eq!(
        resolve("/data/backups/", "efflux-1.zip").unwrap(),
        "/data/backups/efflux-1.zip"
    );
    match resolve("/data", "../../etc/passwd") {
        Err(AppError::Validation(m)) => assert_eq!(m, "这个文件名不对劲"),
        _ => panic!("expected a validation error"),
    }
    assert!(resolve("/data", "something.zip").is_err());
}

#[test]
fn directories() {
    let storage = Storage::new("./data".to_string(), 1024);
    assert_eq!(default_dir(&storage), "./data/backups");
    assert_eq!(default_dir(&Storage::new("/srv/".to_string(), 1)), "/srv/backups");
    assert_eq!(default_dir(&Storage::new(String::new(), 1)), "backups");
    assert_eq!(backup_dir_of(Some("  /mnt/b  "), &storage), "/mnt/b");
    assert_eq!(backup_dir_of(Some("   "), &storage), "./data/backups");
    assert_eq!(backup_dir_of(None, &storage), "./data/backups");
    assert_eq!(join_path("a", "/abs"), "/abs");
    assert_eq!(chosen_dir("  ", "/fallback").unwrap(), "/fallback");
    assert_eq!(chosen_dir(" /mnt/x ", "/fallback").unwrap(), "/mnt/x");
    match chosen_dir("relative/dir", "/fallback") {
        Err(AppError::Validation(m)) => assert_eq!(m, "请填一个绝对路径，比如 /mnt/backup/efflux"),
        _ => panic!("expected a validation error"),
    }
    assert!(same_path("/a/b", "/a//b/"));
    assert!(same_path("/a/./b", "/a/b"));
    assert!(!same_path("/a/b", "a/b"));
    assert!(!same_path("./a", "a"));
    assert!(!same_path("/a/../b", "/b"));
}

#[test]
fn interval_reads_back_what_was_stored() {
    assert_eq!(interval_days(None), 7);
    assert_eq!(interval_days(Some(" 14 ")), 14);
    assert_eq!(interval_days(Some("0")), 0);
    assert_eq!(interval_days(Some("91")), 7);
    assert_eq!(interval_days(Some("-1")), 7);
    assert_eq!(interval_days(Some("seven")), 7);
    assert_eq!(set_interval_days(-5), 0);
    assert_eq!(set_interval_days(500), 90);
    assert_eq!(set_interval_days(30), 30);
    for d in [-3i64, 0, 1, 45, 90, 1000] {
        let stored = set_interval_days(d);
        assert_eq!(interval_days(Some(&stored.to_string())), stored);
    }
}

#[test]
fn automatic_backups_come_due() {
    let now: i128 = 1_000 * DAY_NANOS;
    assert!(!backup_due(0, None, now));
    assert!(backup_due(7, None, now));
    assert!(!backup_due(7, Some(now - 7 * 24 * HOUR_NANOS + 1), now));
    assert!(backup_due(7, Some(now - 7 * 24 * HOUR_NANOS), now));
}

#[test]
fn the_chain_of_bases_and_deltas() {
    let mut state = BackupState::empty();
    let day = DAY_NANOS;
    let t0: i128 = 20_000 * day;
    let plan = plan_backup(&state, t0);
    assert_eq!(plan.kind, ArchiveKind::Base);
    assert_eq!(plan.since, None);
    state = state.advanced(&plan, t0, "efflux-a-base.zip");
    assert_eq!(state.deltas, 0);
    assert_eq!(state.base_at, Some(t0));

    // the next ones are deltas carrying what came after the previous archive
    let mut last = t0;
    for k in 1..=MAX_CHAIN {
        let now = t0 + (k as i128) * 60_000_000_000;
        let plan = plan_backup(&state, now);
        assert_eq!(plan.kind, ArchiveKind::Delta);
        assert_eq!(plan.since, Some(last));
        state = state.advanced(&plan, now, "ignored");
        assert_eq!(state.deltas, k);
        assert_eq!(state.base_name.as_deref(), Some("efflux-a-base.zip"));
        last = now;
    }
    // a full chain gets a new base
    let plan = plan_backup(&state, last + 1);
    assert_eq!(plan.kind, ArchiveKind::Base);

    // so does an old base
    let mut young = BackupState::empty();
    young = young.advanced(&plan_backup(&young, t0), t0, "b");
    assert_eq!(plan_backup(&young, t0 + 30 * day - 1).kind, ArchiveKind::Delta);
    assert_eq!(plan_backup(&young, t0 + 30 * day).kind, ArchiveKind::Base);
}

fn entry(path: &str, thumb: Option<&str>, created_at: Option<i128>) -> PackEntry {
    PackEntry {
        file_path: path.to_string(),
        thumb_path: thumb.map(|t| t.to_string()),
        created_at,
    }
}

#[test]
fn files_to_pack_are_sorted_and_unique() {
    let media = vec![
        entry("b.jpg", Some("b-thumb.jpg"), Some(10)),
        entry("a.jpg", None, Some(5)),
        entry("b.jpg", None, None),
        entry("c.mp4", Some("c.jpg"), Some(20)),
    ];
    assert_eq!(
        files_to_pack(&media, None),
        vec!["a.jpg", "b-thumb.jpg", "b.jpg", "c.jpg", "c.mp4"]
    );
    // a delta skips what is known to be older
    assert_eq!(
        files_to_pack(&media, Some(10)),
        vec!["b.jpg", "c.jpg", "c.mp4"]
    );
    assert!(files_to_pack(&[], None).is_empty());
}

#[test]
fn listing_and_replay_order() {
    let names: Vec<String> = vec![
        "efflux-20260916-delta.zip".to_string(),
        "efflux-20260915-base.zip".to_string(),
        "efflux-20260917-delta.zip".to_string(),
    ];
    assert_eq!(order_by_name(&names, true), vec![2, 0, 1]);
    assert_eq!(order_by_name(&names, false), vec![1, 0, 2]);
    let same: Vec<String> = vec!["x".to_string(), "x".to_string(), "a".to_string()];
    assert_eq!(order_by_name(&same, false), vec![2, 0, 1]);
    assert_eq!(order_by_name(&same, true), vec![0, 1, 2]);
}

#[test]
fn reading_archives_back() {
    assert!(check_format_version(1).is_ok());
    assert!(check_format_version(2).is_ok());
    match check_format_version(3) {
        Err(AppError::Validation(m)) => {
            assert_eq!(m, "这份备份是更新版本（v3）导出的，当前只认到 v2")
        }
        _ => panic!("expected a validation error"),
    }
    assert!(matches!(entry_target("data.json"), EntryTarget::Other));
    assert!(matches!(entry_target("files/../x"), EntryTarget::Suspicious));
    match entry_target("files/2026/01/02/a.jpg") {
        EntryTarget::File(p) => assert_eq!(p, "2026/01/02/a.jpg"),
        _ => panic!("expected a file"),
    }
    assert_eq!(deleted_table("moments"), Some(DeletedTable::Moments));
    assert_eq!(deleted_table("media"), Some(DeletedTable::Media));
    assert_eq!(deleted_table("tags"), None);
    assert_eq!(restored_tag_status(""), "pending");
    assert_eq!(restored_tag_status("done"), "done");
}

#[test]
fn reports_add_up() {
    let mut one = RestoreReport::unpacked(3, 1);
    one.record(RestoredRow::Moment, 1);
    one.record(RestoredRow::Moment, 0);
    one.record(RestoredRow::Media, 1);
    one.record(RestoredRow::Tag, 2);
    one.record(RestoredRow::Deletion, 4);
    assert_eq!(one.moments_added, 1);
    assert_eq!(one.moments_skipped, 1);
    assert_eq!(one.media_added, 1);
    assert_eq!(one.tags_added, 2);
    assert_eq!(one.deletions_applied, 4);

    let mut total = RestoreReport::default();
    total.absorb(&one);
    total.absorb(&one);
    assert_eq!(total.files_written, 6);
    assert_eq!(total.files_skipped, 2);
    assert_eq!(total.deletions_applied, 8);
    total.note_failure("bad.zip", &AppError::Validation("打不开".to_string()));
    assert_eq!(total.failed, vec!["bad.zip：打不开".to_string()]);
}

#[test]
fn uploads_and_moves() {
    assert_eq!(upload_name(Some("dir/efflux-1.zip"), 3), "efflux-1.zip");
    assert_eq!(upload_name(None, 3), "backup-3.zip");
    let staged = staging_name(4);
    assert!(staged.starts_with("import-") && staged.ends_with("-4.zip"));
    assert_eq!(staged.len(), "import-".len() + 36 + "-4.zip".len());
    assert_eq!(accept_chunk(10, 20).unwrap(), 30);
    match accept_chunk(34_359_738_368, 1) {
        Err(AppError::PayloadTooLarge(m)) => assert_eq!(m, "这个包太大了，超过 32G"),
        _ => panic!("expected a refusal"),
    }
    assert!(accept_chunk(34_359_738_367, 1).is_ok());
    assert!(check_staged(1).is_ok());
    assert!(check_staged(0).is_err());
    assert!(check_migration(0).is_ok());
    match check_migration(2) {
        Err(AppError::Validation(m)) => {
            assert_eq!(m, "有 2 个包没能搬过去，目录就先不改了。检查一下权限或磁盘空间")
        }
        _ => panic!("expected a validation error"),
    }
    assert!(superseded("efflux-1-delta.zip", "efflux-2-base.zip"));
    assert!(!superseded("efflux-2-base.zip", "efflux-2-base.zip"));
    assert!(!superseded("notes.txt", "efflux-2-base.zip"));
    let f = BackupFile::listed("efflux-1-delta.zip".to_string(), 10, 5);
    assert_eq!(f.kind, "delta");
}
