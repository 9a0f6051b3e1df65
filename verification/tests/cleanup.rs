use buk::naming::Platform;
use buk::cleanup::{
    cleanup_keep, cleanup_orphan, group_versions, is_stale, prune_order, stale_cutoff,
    trim_versions, Artifacts, Criterion, Timestamp, DEFAULT_KEEP,
};
use buk::naming::{join_path, mirror_of};
use buk::{run_cleanup, select_command, Command, Opt, DEFAULT_TEMPLATE};

fn opt(path: &str) -> Opt {
    Opt {
        path: path.to_string(),
        recursive: false,
        restore: false,
        at: None,
        template: Some(DEFAULT_TEMPLATE.to_string()),
        list: false,
        cleanup: false,
        days: None,
        keep: None,
        orphan: false,
    }
}

/// Directory holding the manual versions of `src` inside `dest` (mirrored layout).
fn versions_dir(dest: &str, src: &str) -> String {
    join_path(dest, &mirror_of(src, Platform::Unix).unwrap())
}

/// `count` single-file backup versions (`note.txt~v01` …) as per-file artifacts.
fn make_versions(dir: &str, count: usize) -> Vec<(String, String)> {
    (1..=count)
        .map(|i| {
            let name = format!("note.txt~v{i:02}");
            (join_path(dir, &name), name)
        })
        .collect()
}

/// The names left in the layout after removing `removed`.
fn names_left(all: &[(String, String)], removed: &[String]) -> Vec<String> {
    let mut v: Vec<String> = all
        .iter()
        .filter(|(abs, _)| !removed.contains(abs))
        .map(|(_, rel)| rel.clone())
        .collect();
    v.sort();
    v
}

fn keep_with(o: &Opt, per_file: Vec<(String, String)>) -> (Vec<(String, String)>, Vec<String>) {
    let k = match run_cleanup(o).unwrap() {
        Criterion::Keep(k) => k,
        other => panic!("unexpected criterion {other:?}"),
    };
    let art = Artifacts { flat: Vec::new(), per_file: per_file.clone(), layout: None };
    let plan = cleanup_keep(&art, k);
    (per_file, plan.removed)
}

#[test]
fn days_keeps_recent_removes_stale() {
    // A backup made just before "now".
    let now = Timestamp { secs: 1_790_000_000, nanos: 500 };
    let mtime = Timestamp { secs: 1_790_000_000, nanos: 100 };

    let mut o = opt("/tmp/buk_test/days/note.txt");
    o.cleanup = true;
    o.days = Some(3650);
    let Criterion::Days(d) = run_cleanup(&o).unwrap() else { panic!("days expected") };
    // Large window: the artifact is newer than the cutoff → kept.
    assert!(!is_stale(Some(mtime), stale_cutoff(now, d)));

    // Zero-day window: cutoff = now → everything already backed up is stale.
    o.days = Some(0);
    let Criterion::Days(d) = run_cleanup(&o).unwrap() else { panic!("days expected") };
    assert!(is_stale(Some(mtime), stale_cutoff(now, d)));
}

#[test]
fn keep_defaults_to_five() {
    let dest = "/tmp/buk_test/keep_default/dest";
    let src = "/tmp/buk_test/keep_default/note.txt";
    let dir = versions_dir(dest, src);
    let mut o = opt(src);
    o.cleanup = true;
    o.keep = Some(None); // bare --keep → default 5
    let (all, removed) = keep_with(&o, make_versions(&dir, 7));

    let left = names_left(&all, &removed);
    assert_eq!(left.len(), 5, "expected 5 versions to survive, got {left:?}");
    assert_eq!(left[0], "note.txt~v03", "the two oldest versions are removed");
    assert_eq!(left[4], "note.txt~v07");
}

#[test]
fn keep_explicit_count() {
    let dest = "/tmp/buk_test/keep_two/dest";
    let src = "/tmp/buk_test/keep_two/note.txt";
    let dir = versions_dir(dest, src);
    let mut o = opt(src);
    o.cleanup = true;
    o.keep = Some(Some(2));
    let (all, removed) = keep_with(&o, make_versions(&dir, 4));

    assert_eq!(names_left(&all, &removed), vec!["note.txt~v03".to_string(), "note.txt~v04".to_string()]);
}

#[test]
fn orphan_only_removes_when_source_missing() {
    let art = Artifacts {
        flat: vec![("/d/tmp/note.txt~S".to_string(), false)],
        per_file: Vec::new(),
        layout: None,
    };
    // Source still exists → orphan cleanup is a no-op.
    assert!(cleanup_orphan(true, &art).is_empty());
    // Source gone → all its backups are removed.
    assert_eq!(cleanup_orphan(false, &art), vec!["/d/tmp/note.txt~S".to_string()]);
}

#[test]
fn cleanup_validation_errors() {
    let src = "/tmp/buk_test/cleanup_validation/note.txt";

    // -c without a criterion
    let mut o = opt(src);
    o.cleanup = true;
    assert!(select_command(&o).is_err());

    // criterion without -c
    let mut o = opt(src);
    o.days = Some(1);
    assert!(select_command(&o).is_err());

    // two criteria at once
    let mut o = opt(src);
    o.cleanup = true;
    o.days = Some(1);
    o.orphan = true;
    assert!(select_command(&o).is_err());

    // cleanup + list
    let mut o = opt(src);
    o.cleanup = true;
    o.days = Some(1);
    o.list = true;
    assert!(select_command(&o).is_err());
}

#[test]
fn cleanup_error_messages_and_criteria() {
    let mut o = opt("/x");
    o.cleanup = true;
    assert_eq!(
        run_cleanup(&o).unwrap_err(),
        "cleanup requires a criterion: --days N, --keep [N], or --orphan"
    );
    o.keep = Some(Some(3));
    o.orphan = true;
    assert_eq!(run_cleanup(&o).unwrap_err(), "cleanup accepts only one of --days, --keep, --orphan");
    o.orphan = false;
    assert_eq!(select_command(&o).unwrap(), Command::Cleanup(Criterion::Keep(3)));
    o.keep = None;
    o.orphan = true;
    assert_eq!(select_command(&o).unwrap(), Command::Cleanup(Criterion::Orphan));
    o.restore = true;
    assert_eq!(run_cleanup(&o).unwrap_err(), "--cleanup cannot be combined with --list/--restore");
    let mut o = opt("/x");
    o.orphan = true;
    assert_eq!(run_cleanup(&o).unwrap_err(), "--days/--keep/--orphan require --cleanup");
    assert_eq!(DEFAULT_KEEP, 5);
}

#[test]
fn trim_keeps_the_greatest() {
    let mut v: Vec<String> = ["b~3", "b~1", "b~4", "b~2"].iter().map(|s| s.to_string()).collect();
    let gone = trim_versions(&mut v, 2);
    assert_eq!(gone, vec!["b~1".to_string(), "b~2".to_string()]);
    assert_eq!(v, vec!["b~3".to_string(), "b~4".to_string()]);
    // nothing to remove: the versions are still sorted ascending
    let mut w: Vec<String> = vec!["z".to_string(), "a".to_string()];
    assert!(trim_versions(&mut w, 2).is_empty());
    assert_eq!(w, vec!["a".to_string(), "z".to_string()]);
    // keep 0 removes everything
    let mut x: Vec<String> = vec!["z".to_string(), "a".to_string()];
    assert_eq!(trim_versions(&mut x, 0), vec!["a".to_string(), "z".to_string()]);
    assert!(x.is_empty());
}

#[test]
fn keep_series_and_groups() {
    let art = Artifacts {
        flat: vec![
            ("/d/n~1".to_string(), false),
            ("/d/n~2".to_string(), true),
            ("/d/n~3".to_string(), false),
            ("/d/n~4".to_string(), true),
        ],
        per_file: vec![
            ("/d/n/sub/f~2".to_string(), "sub/f~2".to_string()),
            ("/d/n/a~1".to_string(), "a~1".to_string()),
            ("/d/n/sub/f~1".to_string(), "sub/f~1".to_string()),
            ("/d/n/a~2".to_string(), "a~2".to_string()),
        ],
        layout: Some("/d/n".to_string()),
    };
    let plan = cleanup_keep(&art, 1);
    assert_eq!(
        plan.removed,
        vec![
            "/d/n~1".to_string(),
            "/d/n~2".to_string(),
            "/d/n/a~1".to_string(),
            "/d/n/sub/f~1".to_string()
        ]
    );
    assert_eq!(plan.touched_dirs, vec!["/d/n".to_string(), "/d/n/sub".to_string()]);

    let (keys, members) = group_versions(&art.per_file);
    assert_eq!(keys, vec!["a".to_string(), "sub/f".to_string()]);
    assert_eq!(members[1], vec!["/d/n/sub/f~2".to_string(), "/d/n/sub/f~1".to_string()]);
}

#[test]
fn cutoff_and_staleness() {
    let now = Timestamp { secs: 200_000, nanos: 7 };
    assert_eq!(stale_cutoff(now, 1), Timestamp { secs: 200_000 - 86_400, nanos: 7 });
    assert_eq!(stale_cutoff(now, 0), now);
    // far beyond the representable range → the epoch
    assert_eq!(stale_cutoff(now, u64::MAX), Timestamp { secs: 0, nanos: 0 });
    assert!(!is_stale(None, now));
    assert!(is_stale(Some(Timestamp { secs: 199_999, nanos: 999 }), now));
    assert!(!is_stale(Some(now), now));
}

#[test]
fn prune_deepest_first() {
    let dirs = vec![
        "/d/a".to_string(),
        "/d/a/b/c".to_string(),
        "/d/a/b".to_string(),
        "/d/a".to_string(),
        "/d/a-b".to_string(),
    ];
    assert_eq!(
        prune_order(dirs),
        vec![
            "/d/a-b".to_string(),
            "/d/a/b/c".to_string(),
            "/d/a/b".to_string(),
            "/d/a".to_string()
        ]
    );
}

#[test]
fn days_plan_removes_what_is_older_than_the_cutoff() {
    let art = Artifacts {
        flat: vec![("/bk/d/n~1".to_string(), false), ("/bk/d/n~2".to_string(), true)],
        per_file: vec![
            ("/bk/d/n/sub/a~1".to_string(), "sub/a~1".to_string()),
            ("/bk/d/n/sub/a~2".to_string(), "sub/a~2".to_string()),
            ("/bk/d/n/b~1".to_string(), "b~1".to_string()),
        ],
        layout: Some("/bk/d/n".to_string()),
    };
    let now = Timestamp { secs: 1_000_000, nanos: 0 };
    let cutoff = stale_cutoff(now, 1);
    let old = Some(Timestamp { secs: 1_000, nanos: 0 });
    let recent = Some(Timestamp { secs: 999_999, nanos: 0 });
    let plan = buk::cleanup::days_removals(&art, &vec![old, None], &vec![old, recent, old], cutoff);
    assert_eq!(
        plan.removed,
        vec!["/bk/d/n~1".to_string(), "/bk/d/n/sub/a~1".to_string(), "/bk/d/n/b~1".to_string()]
    );
    assert_eq!(plan.touched_dirs, vec!["/bk/d/n/sub".to_string(), "/bk/d/n".to_string()]);
    // `--days 0` takes everything modified before now; a longer window takes less
    let all = buk::cleanup::days_removals(&art, &vec![recent, recent], &vec![recent, recent, recent], stale_cutoff(now, 0));
    assert_eq!(all.removed.len(), 5);
    let none = buk::cleanup::days_removals(&art, &vec![recent, recent], &vec![recent, recent, recent], stale_cutoff(now, 3650));
    assert!(none.removed.is_empty());
}

#[test]
fn keep_twice_removes_nothing() {
    let mut v: Vec<String> = ["n~3", "n~1", "n~5", "n~2", "n~4"].iter().map(|s| s.to_string()).collect();
    assert_eq!(trim_versions(&mut v, 2).len(), 3);
    let kept = v.clone();
    assert!(trim_versions(&mut v, 2).is_empty());
    assert_eq!(v, kept);
}
