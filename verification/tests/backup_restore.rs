use buk::naming::Platform;
use buk::backup::{backup_jobs, backup_target, SourceKind};
use buk::list::{artifact_scope, matching_entries};
use buk::naming::{file_name, join_path, SEP};
use buk::restore::{dir_restore_jobs, plan_restore, RestorePlan};
use buk::{select_command, Opt, DEFAULT_TEMPLATE};

const SUFFIX: &str = "20260922_232606";

fn opt(path: &str) -> Opt {
    Opt {
        path: path.to_string(),
        recursive: false,
        restore: false,
        at: None,
        template: Some(DEFAULT_TEMPLATE.to_string()),
        list: false,
        cleanup: false,
        days: None,
        keep: None,
        orphan: false,
    }
}

fn suffix_of(name: &str) -> String {
    name.rsplit_once(SEP).unwrap().1.to_string()
}

/// The artifacts of `src` among `existing` (the names in its flat directory).
fn listed(src: &str, dest: &str, existing: &[String]) -> Vec<String> {
    let scope = artifact_scope(src, dest, Platform::Unix).unwrap();
    let entries: Vec<String> = existing.iter().map(|p| join_path(&scope.scoped, &file_name(p).unwrap())).collect();
    matching_entries(entries, &scope.prefix)
}

#[test]
fn multi_file_backup_shares_one_suffix() {
    let src = "/tmp/buk_test/suffix/data";
    let dest = "/tmp/buk_test/suffix/dest";
    let files = vec![
        (format!("{src}/a.txt"), "a.txt".to_string()),
        (format!("{src}/sub/b.txt"), "sub/b.txt".to_string()),
    ];
    let base = backup_target(src, dest, SUFFIX, SourceKind::Recursive, Platform::Unix).unwrap();
    assert_eq!(base, "/tmp/buk_test/suffix/dest/tmp/buk_test/suffix/data");
    let found = backup_jobs(&files, &base, SUFFIX, true).unwrap();
    assert_eq!(found.len(), 2, "both sub-files should be backed up");
    let suffixes: Vec<String> = found.iter().map(|(_, p)| suffix_of(&file_name(p).unwrap())).collect();
    assert!(suffixes.iter().all(|s| !s.is_empty()));
    assert_eq!(suffixes[0], suffixes[1], "one suffix per execution");
    assert_eq!(found[1].1, format!("{base}/sub/b.txt~{SUFFIX}"));
}

#[test]
fn file_backup_list_restore_roundtrip() {
    let src = "/tmp/buk_test/file/note.txt";
    let dest = "/tmp/buk_test/file/dest";
    let target = backup_target(src, dest, SUFFIX, SourceKind::File, Platform::Unix).unwrap();
    assert_eq!(target, format!("{dest}/tmp/buk_test/file/note.txt~{SUFFIX}"));
    assert_eq!(listed(src, dest, &[target.clone()]).len(), 1);

    let flat = vec![(target.clone(), false)];
    match plan_restore(src, &flat, false, false, false, None, DEFAULT_TEMPLATE).unwrap() {
        RestorePlan::SingleFile(best) => assert_eq!(best, target),
        _ => panic!("single-file restore expected"),
    }
}

#[test]
fn dir_backup_restore_roundtrip() {
    let src = "/tmp/buk_test/dir/docs";
    let dest = "/tmp/buk_test/dir/dest";
    let target = backup_target(src, dest, SUFFIX, SourceKind::Dir, Platform::Unix).unwrap();
    assert_eq!(target, format!("{dest}/tmp/buk_test/dir/docs~{SUFFIX}"));
    let jobs = backup_jobs(&vec![(format!("{src}/f.txt"), "f.txt".to_string())], &target, SUFFIX, false).unwrap();
    assert_eq!(jobs[0].1, format!("{target}/f.txt"));

    // source removed: restored from the whole-directory backup
    let flat = vec![(target.clone(), true)];
    match plan_restore(src, &flat, true, false, false, None, DEFAULT_TEMPLATE).unwrap() {
        RestorePlan::WholeDir(best) => {
            assert_eq!(best, target);
            let back = dir_restore_jobs(src, &vec![(jobs[0].1.clone(), "f.txt".to_string())]);
            assert_eq!(back[0].1, format!("{src}/f.txt"));
        },
        _ => panic!("whole-directory restore expected"),
    }
}

#[test]
fn list_works_after_source_deleted() {
    // Only the mirrored name is used: the source need not exist.
    let src = "/tmp/buk_test/list/gone.txt";
    let dest = "/tmp/buk_test/list/dest";
    let target = backup_target(src, dest, SUFFIX, SourceKind::File, Platform::Unix).unwrap();
    let other = join_path(&format!("{dest}/tmp/buk_test/list"), "gone.txt.bak");
    assert_eq!(listed(src, dest, &[other, target]).len(), 1);
}

#[test]
fn list_and_restore_conflict_errors() {
    let mut o = opt("/tmp/buk_test/conflict/x.txt");
    o.list = true;
    o.restore = true;
    assert_eq!(select_command(&o).unwrap_err(), "--list and --restore cannot be combined");
}

#[test]
fn same_basename_sources_do_not_collide() {
    let fa = "/tmp/buk_test/collision/a/dup.txt";
    let fb = "/tmp/buk_test/collision/b/dup.txt";
    let dest = "/tmp/buk_test/collision/dest";
    let ba = backup_target(fa, dest, SUFFIX, SourceKind::File, Platform::Unix).unwrap();
    let bb = backup_target(fb, dest, SUFFIX, SourceKind::File, Platform::Unix).unwrap();
    assert_ne!(ba, bb, "same-basename sources must get separate artifacts");

    // Each source lists and restores its own artifact, not the other's.
    assert_eq!(listed(fa, dest, &[ba.clone()]), vec![ba.clone()]);
    let scope_b = artifact_scope(fb, dest, Platform::Unix).unwrap();
    assert_ne!(artifact_scope(fa, dest, Platform::Unix).unwrap().scoped, scope_b.scoped);
    match plan_restore(fb, &vec![(bb.clone(), false)], false, false, false, None, DEFAULT_TEMPLATE).unwrap() {
        RestorePlan::SingleFile(best) => assert_eq!(best, bb),
        _ => panic!("single-file restore expected"),
    }
}

#[test]
fn backup_errors() {
    assert_eq!(backup_target("rel", "/d", SUFFIX, SourceKind::File, Platform::Unix).unwrap_err(), "rel is not absolute");
    assert_eq!(
        backup_jobs(&vec![("/s".to_string(), "..".to_string())], "/t", SUFFIX, true).unwrap_err(),
        "cannot name .."
    );
    let scope = artifact_scope("/tmp/x", "/d", Platform::Unix).unwrap();
    assert_eq!(scope.name, "x");
    assert_eq!(scope.prefix, "x~");
    assert_eq!(scope.scoped, "/d/tmp");
    assert_eq!(scope.layout, "/d/tmp/x");
    let top = artifact_scope("/x", "/d", Platform::Unix).unwrap();
    assert_eq!(top.scoped, "/d/");
}

#[test]
fn backups_are_found_where_they_are_written() {
    let dest = "/mnt/bk";
    for src in ["/home/u/notes.txt", "/top"] {
        let scope = artifact_scope(src, dest, Platform::Unix).unwrap();
        for kind in [SourceKind::File, SourceKind::Dir] {
            let t = backup_target(src, dest, SUFFIX, kind, Platform::Unix).unwrap();
            assert_eq!(t, join_path(&scope.scoped, &format!("{}~{SUFFIX}", scope.name)));
            assert_eq!(matching_entries(vec![t.clone()], &scope.prefix), vec![t]);
        }
        assert_eq!(backup_target(src, dest, SUFFIX, SourceKind::Recursive, Platform::Unix).unwrap(), scope.layout);
    }
    assert_eq!(backup_target("/top", dest, SUFFIX, SourceKind::Dir, Platform::Unix).unwrap(), format!("/mnt/bk/top~{SUFFIX}"));
}

#[test]
fn siblings_with_a_tilde_are_not_artifacts() {
    let scope = artifact_scope("/d/n", "/bk", Platform::Unix).unwrap();
    let entries = vec![
        "/bk/d/n~20260101".to_string(),
        "/bk/d/n~x~20260101".to_string(),
        "/bk/d/n~x".to_string(),
        "/bk/d/nn~20260101".to_string(),
    ];
    assert_eq!(
        matching_entries(entries, &scope.prefix),
        vec!["/bk/d/n~20260101".to_string(), "/bk/d/n~x".to_string()]
    );
    // ... while the sibling `n~x` keeps its own backups
    let sibling = artifact_scope("/d/n~x", "/bk", Platform::Unix).unwrap();
    assert_eq!(matching_entries(vec!["/bk/d/n~x~20260101".to_string()], &sibling.prefix).len(), 1);
}

#[test]
fn windows_sources_back_up_under_their_volume() {
    let src = r"C:\home\u\a.txt";
    let dest = r"C:\bk";
    let t = backup_target(src, dest, SUFFIX, SourceKind::File, Platform::Windows).unwrap();
    assert_eq!(t, format!(r"C:\bk/c/home/u/a.txt~{SUFFIX}"));
    let scope = artifact_scope(src, dest, Platform::Windows).unwrap();
    assert_eq!(scope.name, "a.txt");
    assert_eq!(matching_entries(vec![t.clone()], &scope.prefix), vec![t]);
    let other = backup_target(r"D:\home\u\a.txt", dest, SUFFIX, SourceKind::File, Platform::Windows).unwrap();
    assert_eq!(other, format!(r"C:\bk/d/home/u/a.txt~{SUFFIX}"));
}
