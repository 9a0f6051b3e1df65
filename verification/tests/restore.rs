use buk::naming::Platform;
use buk::naming::{join_path, mirror_of, parent_path};
use buk::restore::{
    decimal, dir_restore_jobs, distance_seconds, layout_restore_jobs, parse_target_datetime,
    parse_when, pick, plan_restore, LocalDateTime, RestorePlan,
};
use buk::{select_command, Opt, DEFAULT_TEMPLATE};
use chrono::{Datelike, NaiveDate};

fn opt(path: &str) -> Opt {
    Opt {
        path: path.to_string(),
        recursive: false,
        restore: false,
        at: None,
        template: Some(DEFAULT_TEMPLATE.to_string()),
        list: false,
        cleanup: false,
        days: None,
        keep: None,
        orphan: false,
    }
}

fn days(y: i32, m: u32, d: u32) -> i32 {
    NaiveDate::from_ymd_opt(y, m, d).unwrap().num_days_from_ce()
}

/// Restores `src` (an existing file) from the single-file versions `names`.
fn restore_file_from(src: &str, dest: &str, names: &[&str], at: Option<&str>) -> Result<String, String> {
    let vdir = join_path(dest, &parent_path(&mirror_of(src, Platform::Unix).unwrap()).unwrap());
    let flat: Vec<(String, bool)> = names.iter().map(|n| (join_path(&vdir, n), false)).collect();
    let at = match at {
        Some(s) => Some(parse_target_datetime(s, DEFAULT_TEMPLATE)?),
        None => None,
    };
    match plan_restore(src, &flat, false, false, false, at, DEFAULT_TEMPLATE)? {
        RestorePlan::SingleFile(best) => Ok(best),
        _ => panic!("a single-file restore was expected"),
    }
}

#[test]
fn restore_at_picks_nearest_version() {
    let src = "/tmp/buk_test/restore_at/note.txt";
    let dest = "/tmp/buk_test/restore_at/dest";
    let names = ["note.txt~20260101_120000", "note.txt~20260301_120000", "note.txt~20260501_120000"];

    // Date-only target (midnight Mar 15) → Mar 1 is nearest.
    let best = restore_file_from(src, dest, &names, Some("2026-03-15")).unwrap();
    assert!(best.ends_with("note.txt~20260301_120000"));

    // Exact timestamp → that version.
    let best = restore_file_from(src, dest, &names, Some("2026-05-01 12:00:00")).unwrap();
    assert!(best.ends_with("note.txt~20260501_120000"));

    // Input in the template's own format also parses.
    let best = restore_file_from(src, dest, &names, Some("20260101_120000")).unwrap();
    assert!(best.ends_with("note.txt~20260101_120000"));

    // Without --at, the latest wins.
    let best = restore_file_from(src, dest, &names, None).unwrap();
    assert!(best.ends_with("note.txt~20260501_120000"));
}

#[test]
fn restore_at_validation_errors() {
    let src = "/tmp/buk_test/restore_at_err/note.txt";
    let dest = "/tmp/buk_test/restore_at_err/dest";

    // Unparseable date-time string.
    assert!(parse_target_datetime("not-a-date", DEFAULT_TEMPLATE).is_err());

    // --at without --restore.
    let mut o = opt(src);
    o.at = Some("2026-01-01".to_string());
    assert!(select_command(&o).is_err());

    // --at but no candidate suffix is parseable with the active template.
    assert!(restore_file_from(src, dest, &["note.txt~garbage"], Some("2026-01-01")).is_err());
}

#[test]
fn restore_missing_backup_errors() {
    let flat: Vec<(String, bool)> = Vec::new();
    let r = plan_restore("/tmp/buk_test/nobackup/nothing.txt", &flat, false, false, false, None, DEFAULT_TEMPLATE);
    assert_eq!(r.err().unwrap(), "no backup found for /tmp/buk_test/nobackup/nothing.txt");
}

#[test]
fn parse_formats() {
    let t = parse_target_datetime("2026-09-20 14:30", DEFAULT_TEMPLATE).unwrap();
    assert_eq!(t, LocalDateTime { days_ce: days(2026, 9, 20), secs: 14 * 3600 + 30 * 60, frac: 0 });
    let t = parse_target_datetime("2026-09-20 14:30:05", DEFAULT_TEMPLATE).unwrap();
    assert_eq!(t.secs, 14 * 3600 + 30 * 60 + 5);
    // a date alone means midnight
    let t = parse_target_datetime("2026-09-20", DEFAULT_TEMPLATE).unwrap();
    assert_eq!(t, LocalDateTime { days_ce: days(2026, 9, 20), secs: 0, frac: 0 });
    let t = parse_target_datetime("20260920_143000", DEFAULT_TEMPLATE).unwrap();
    assert_eq!(t, LocalDateTime { days_ce: days(2026, 9, 20), secs: 52_200, frac: 0 });
    // the template is tried first
    let t = parse_when("20.09.2026", "%d.%m.%Y").unwrap();
    assert_eq!(t, LocalDateTime { days_ce: days(2026, 9, 20), secs: 0, frac: 0 });
    assert!(parse_when("20.09.2026", DEFAULT_TEMPLATE).is_none());
}

#[test]
fn parse_error_message() {
    let e = parse_target_datetime("x\"y", DEFAULT_TEMPLATE).unwrap_err();
    assert_eq!(
        e,
        "cannot parse date-time \"x\\\"y\"; examples: \"2026-09-20 14:30\", \"2026-09-20 14:30:05\", \"2026-09-20\" (midnight), \"20260920_143000\""
    );
}

#[test]
fn distances() {
    let a = LocalDateTime { days_ce: 10, secs: 100, frac: 0 };
    let b = LocalDateTime { days_ce: 9, secs: 100, frac: 0 };
    assert_eq!(distance_seconds(a, b), 86_400);
    assert_eq!(distance_seconds(b, a), 86_400);
    // fractions truncate toward zero before the sign is dropped
    let c = LocalDateTime { days_ce: 9, secs: 100, frac: 999_999_999 };
    assert_eq!(distance_seconds(c, b), 0);
    assert_eq!(distance_seconds(b, c), 0);
    // a leap second: 23:59:60.5 minus 23:59:59 is 1.5 s
    let leap = LocalDateTime { days_ce: 9, secs: 86_399, frac: 1_500_000_000 };
    let before = LocalDateTime { days_ce: 9, secs: 86_399, frac: 0 };
    assert_eq!(distance_seconds(leap, before), 1);
    let midnight = LocalDateTime { days_ce: 10, secs: 0, frac: 0 };
    assert_eq!(distance_seconds(midnight, leap), 0);
}

#[test]
fn pick_rules() {
    let c = |v: &[&str]| v.iter().map(|s| s.to_string()).collect::<Vec<String>>();
    assert_eq!(pick(Vec::new(), None, DEFAULT_TEMPLATE).unwrap(), None);
    assert_eq!(pick(c(&["/d/a~2", "/d/a~10", "/d/a~1"]), None, DEFAULT_TEMPLATE).unwrap(), Some("/d/a~2".to_string()));
    // equal distance: the greater name wins
    let at = parse_target_datetime("2026-01-02", DEFAULT_TEMPLATE).unwrap();
    let got = pick(c(&["/d/a~20260101_000000", "/d/a~20260103_000000", "/d/a~junk"]), Some(at), DEFAULT_TEMPLATE).unwrap();
    assert_eq!(got, Some("/d/a~20260103_000000".to_string()));
    let e = pick(c(&["/d/a~x", "/d/a"]), Some(at), DEFAULT_TEMPLATE).unwrap_err();
    assert_eq!(e, "--at: none of the 2 backup candidate(s) has a date-time suffix parseable with template \"%Y%m%d_%H%M%S\"");
}

#[test]
fn restore_plans() {
    let flat = vec![
        ("/d/x/docs~1".to_string(), true),
        ("/d/x/docs~2".to_string(), true),
        ("/d/x/docs~3".to_string(), false),
    ];
    let p = plan_restore("/x/docs", &flat, true, false, true, None, DEFAULT_TEMPLATE).unwrap();
    assert!(matches!(p, RestorePlan::WholeDir(ref b) if b == "/d/x/docs~2"));
    // an existing file is restored from a single-file backup only
    let p = plan_restore("/x/docs", &flat, false, false, true, None, DEFAULT_TEMPLATE).unwrap();
    assert!(matches!(p, RestorePlan::SingleFile(ref b) if b == "/d/x/docs~3"));
    // a directory without whole-directory backups uses the per-file layout
    let p = plan_restore("/x/docs", &flat[2..].to_vec(), false, true, true, None, DEFAULT_TEMPLATE).unwrap();
    assert!(matches!(p, RestorePlan::PerFile));
    // ... and without one, nothing
    assert!(plan_restore("/x/docs", &flat[2..].to_vec(), false, true, false, None, DEFAULT_TEMPLATE).is_err());

    let jobs = dir_restore_jobs("/x/docs", &vec![("/d/x/docs~2/f.txt".to_string(), "f.txt".to_string())]);
    assert_eq!(jobs, vec![("/d/x/docs~2/f.txt".to_string(), "/x/docs/f.txt".to_string())]);

    let per_file = vec![
        ("/d/x/docs/b~1".to_string(), "b~1".to_string()),
        ("/d/x/docs/s/a~2".to_string(), "s/a~2".to_string()),
        ("/d/x/docs/b~2".to_string(), "b~2".to_string()),
    ];
    let jobs = layout_restore_jobs("/x/docs", &per_file, None, DEFAULT_TEMPLATE).unwrap();
    assert_eq!(
        jobs,
        vec![
            ("/d/x/docs/b~2".to_string(), "/x/docs/b".to_string()),
            ("/d/x/docs/s/a~2".to_string(), "/x/docs/s/a".to_string()),
        ]
    );
    assert_eq!(
        layout_restore_jobs("/x/docs", &Vec::new(), None, DEFAULT_TEMPLATE).unwrap_err(),
        "no backup found for /x/docs"
    );
}

#[test]
fn decimal_text() {
    assert_eq!(decimal(0), "0");
    assert_eq!(decimal(7), "7");
    assert_eq!(decimal(1030), "1030");
}

#[test]
fn latest_is_what_keep_one_keeps() {
    let names: Vec<String> =
        ["/d/n.txt~20260102", "/d/n.txt~20260301", "/d/n.txt~20251231"].iter().map(|s| s.to_string()).collect();
    let latest = pick(names.clone(), None, DEFAULT_TEMPLATE).unwrap().unwrap();
    assert_eq!(latest, "/d/n.txt~20260301");
    let mut kept = names;
    let gone = buk::cleanup::trim_versions(&mut kept, 1);
    assert_eq!(kept, vec![latest]);
    assert_eq!(gone, vec!["/d/n.txt~20251231".to_string(), "/d/n.txt~20260102".to_string()]);
}
