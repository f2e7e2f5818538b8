use efflux::auth::access::{decode_hex, to_hex};
use efflux::auth::session::{build_cookie, read_session};
use efflux::backup::{archive_name_at, kind_of, safe_relative, staging_name, ArchiveKind, RestoreReport, RestoredRow};
use efflux::media::{Kind, Storage};

fn is_uuid_text(s: &str) -> bool {
    s.len() == 36
        && s.chars().enumerate().all(|(i, c)| {
            if i == 8 || i == 13 || i == 18 || i == 23 {
                c == '-'
            } else {
                c.is_ascii_digit() || ('a'..='f').contains(&c)
            }
        })
}

#[test]
fn cookie_hands_the_token_back() {
    assert_eq!(read_session(&build_cookie("abc.123", 86_400, true)), Some("abc.123".to_string()));
    assert_eq!(read_session(&build_cookie("t", -1, false)), Some("t".to_string()));
}

#[test]
fn hex_of_either_case_reads_back_lower() {
    let bytes = decode_hex("00FFa5Bc").unwrap();
    assert_eq!(bytes, vec![0x00, 0xff, 0xa5, 0xbc]);
    assert_eq!(to_hex(&bytes), "00ffa5bc");
    assert_eq!(decode_hex(&to_hex(&[1, 2, 254])), Some(vec![1, 2, 254]));
}

#[test]
fn planned_upload_paths_stay_inside() {
    let storage = Storage::new("/data".to_string(), 1024);
    let plan = storage.plan_save(Some("image/jpeg"), Kind::Image, 2026, 3, 4, None).unwrap();
    let parts: Vec<&str> = plan.rel_path.split('/').collect();
    assert_eq!(parts.len(), 4);
    assert_eq!(&parts[..3], &["2026", "03", "04"]);
    assert!(is_uuid_text(&parts[3][..36]));
    assert_eq!(&parts[3][36..], ".jpg");
    assert_eq!(safe_relative(&plan.rel_path), Some(plan.rel_path.clone()));
}

#[test]
fn staged_imports_have_uuid_names() {
    let name = staging_name(3);
    assert!(name.starts_with("import-"));
    assert!(name.ends_with("-3.zip"));
    assert!(is_uuid_text(&name[7..43]));
}

#[test]
fn archive_names_tell_their_kind() {
    let now: i128 = 1_757_932_200 * 1_000_000_000;
    let base = archive_name_at(now, ArchiveKind::Base).unwrap();
    let delta = archive_name_at(now, ArchiveKind::Delta).unwrap();
    assert_eq!(base, "efflux-20250915-103000-base.zip");
    assert_eq!(kind_of(&base), "base");
    assert_eq!(kind_of(&delta), "delta");
}

#[test]
fn counters_refuse_to_overflow() {
    let mut report = RestoreReport::unpacked(0, 0);
    assert!(report.try_record(RestoredRow::Deletion, u64::MAX));
    assert_eq!(report.deletions_applied, u64::MAX);
    assert!(!report.try_record(RestoredRow::Deletion, 1));
    assert_eq!(report.deletions_applied, u64::MAX);
    assert!(report.try_record(RestoredRow::Moment, 0));
    assert_eq!(report.moments_skipped, 1);

    let mut total = RestoreReport::unpacked(5, 0);
    let other = RestoreReport::unpacked(u64::MAX, 2);
    assert!(!total.try_absorb(&other));
    assert_eq!(total.files_written, 5);
    let small = RestoreReport::unpacked(1, 2);
    assert!(total.try_absorb(&small));
    assert_eq!((total.files_written, total.files_skipped), (6, 2));
}
