use buk::naming::Platform;
use buk::naming::{
    absolute_normalized, file_name, join_path, mirror_of, parent_path, strip_rel_suffix,
    suffix_name, with_file_name, SEP,
};

#[test]
fn suffix_and_strip_roundtrip() {
    assert_eq!(suffix_name("note.txt", "20260922"), "note.txt~20260922");

    let backed = join_path("sub", &suffix_name("a~b.txt", "S"));
    assert_eq!(strip_rel_suffix(&backed), join_path("sub", "a~b.txt"));

    assert_eq!(strip_rel_suffix("sub/plain.txt"), "sub/plain.txt");
    assert_eq!(strip_rel_suffix("empty~"), "empty");
}

#[test]
fn absolute_normalized_joins_and_collapses() {
    let cwd = "/home/u";
    assert_eq!(absolute_normalized("a/./b.txt", cwd, Platform::Unix).unwrap(), "/home/u/a/b.txt");
    assert_eq!(absolute_normalized("a/../b.txt", cwd, Platform::Unix).unwrap(), "/home/u/b.txt");
    assert_eq!(absolute_normalized("/x/y/../z.txt", cwd, Platform::Unix).unwrap(), "/x/z.txt");
    // excess `..` clamps at root instead of escaping
    assert_eq!(absolute_normalized("/../../etc/passwd", cwd, Platform::Unix).unwrap(), "/etc/passwd");
}

#[test]
fn mirror_strips_root_only() {
    assert_eq!(mirror_of("/home/u/a.txt", Platform::Unix).unwrap(), "home/u/a.txt");
    assert_eq!(mirror_of("/tmp", Platform::Unix).unwrap(), "tmp");
    assert!(mirror_of("/", Platform::Unix).is_err());
    assert!(mirror_of("relative", Platform::Unix).is_err());
}

#[test]
fn separator_is_tilde() {
    assert_eq!(SEP, "~");
}

#[test]
fn absolute_normalized_edge_cases() {
    // the root stays the root
    assert_eq!(absolute_normalized("/", "/home/u", Platform::Unix).unwrap(), "/");
    assert_eq!(absolute_normalized("..", "/", Platform::Unix).unwrap(), "/");
    // duplicate and trailing separators are dropped
    assert_eq!(absolute_normalized("a//b/", "/c/", Platform::Unix).unwrap(), "/c/a/b");
    // a relative working directory cannot absorb an escaping path
    let err = absolute_normalized("../../x", "rel", Platform::Unix).unwrap_err();
    assert_eq!(err, "../../x has no usable absolute path");
    // a relative result is kept relative
    assert_eq!(absolute_normalized("b", "a/..", Platform::Unix).unwrap(), "b");
}

#[test]
fn mirror_error_messages() {
    assert_eq!(mirror_of("relative", Platform::Unix).unwrap_err(), "relative is not absolute");
    assert_eq!(mirror_of("/a/../b", Platform::Unix).unwrap_err(), "/a/../b is not normalized (contains ..)");
    assert_eq!(mirror_of("/", Platform::Unix).unwrap_err(), "/ cannot be mirrored (filesystem root)");
    assert_eq!(mirror_of("/a/./b//c", Platform::Unix).unwrap(), "a/b/c");
}

#[test]
fn normalized_paths_mirror_without_their_root() {
    let a = absolute_normalized("a/dup.txt", "/r", Platform::Unix).unwrap();
    let b = absolute_normalized("b/dup.txt", "/r", Platform::Unix).unwrap();
    assert_eq!(mirror_of(&a, Platform::Unix).unwrap(), "r/a/dup.txt");
    assert_eq!(mirror_of(&b, Platform::Unix).unwrap(), "r/b/dup.txt");
    assert_ne!(mirror_of(&a, Platform::Unix).unwrap(), mirror_of(&b, Platform::Unix).unwrap());
    // normalizing twice changes nothing
    assert_eq!(absolute_normalized(&a, "/elsewhere", Platform::Unix).unwrap(), a);
}

#[test]
fn file_names_and_parents() {
    assert_eq!(file_name("/a/b.txt").unwrap(), "b.txt");
    assert_eq!(file_name("a/b/.").unwrap(), "b");
    assert_eq!(file_name("/").unwrap_err(), "/ has no file name");
    assert_eq!(file_name("a/..").unwrap_err(), "a/.. has no file name");
    assert_eq!(parent_path("/a/b.txt"), Some("/a".to_string()));
    assert_eq!(parent_path("/a"), Some("/".to_string()));
    assert_eq!(parent_path("a"), Some("".to_string()));
    assert_eq!(parent_path("/"), None);
}

#[test]
fn joins_and_renames() {
    assert_eq!(join_path("/dest", "x"), "/dest/x");
    assert_eq!(join_path("/dest/", "x"), "/dest/x");
    assert_eq!(join_path("", "x"), "x");
    assert_eq!(join_path("/dest", "/abs"), "/abs");
    assert_eq!(join_path("/dest", ""), "/dest/");
    assert_eq!(with_file_name("sub/a.txt", "b.txt"), "sub/b.txt");
    assert_eq!(with_file_name("a.txt", "b.txt"), "b.txt");
    assert_eq!(with_file_name("/a", "b"), "/b");
    assert_eq!(with_file_name("/", "b"), "/b");
}

#[test]
fn strip_undoes_suffix_on_paths() {
    for (p, s) in [("/x/y/note.txt", "20260922_232606"), ("rel", "v01"), ("/a~b", "S")] {
        let name = file_name(p).unwrap();
        let backed = with_file_name(p, &suffix_name(&name, s));
        assert_ne!(backed, p);
        assert_eq!(strip_rel_suffix(&backed), p);
    }
}

#[test]
fn absolute_normalized_windows() {
    let cwd = r"C:\home\u";
    assert_eq!(absolute_normalized("a\\..\\b.txt", cwd, Platform::Windows).unwrap(), r"C:\home\u\b.txt");
    assert_eq!(absolute_normalized(r"C:\x\y\..\z.txt", cwd, Platform::Windows).unwrap(), r"C:\x\z.txt");
    // excess `..` clamps at the volume root instead of escaping
    assert_eq!(absolute_normalized(r"C:\..\..\windows", cwd, Platform::Windows).unwrap(), r"C:\windows");
    // a rooted (drive-less) path picks up the cwd's drive
    assert_eq!(absolute_normalized(r"\data\f.txt", cwd, Platform::Windows).unwrap(), r"C:\data\f.txt");
}

#[test]
fn mirror_sanitizes_volumes() {
    assert_eq!(mirror_of(r"C:\home\u\a.txt", Platform::Windows).unwrap(), r"c\home\u\a.txt");
    assert_ne!(
        mirror_of(r"C:\a", Platform::Windows).unwrap(),
        mirror_of(r"D:\a", Platform::Windows).unwrap(),
        "different volumes must get different mirrors"
    );
    assert!(mirror_of(r"C:\", Platform::Windows).is_err());
    assert!(mirror_of("relative", Platform::Windows).is_err());
}

#[test]
fn windows_paths_in_detail() {
    let cwd = r"C:\home\u";
    // both separators count; `.` and empty components vanish
    assert_eq!(absolute_normalized("a/./b\\\\c.txt", cwd, Platform::Windows).unwrap(), r"C:\home\u\a\b\c.txt");
    assert_eq!(absolute_normalized(r"D:\x", cwd, Platform::Windows).unwrap(), r"D:\x");
    assert_eq!(absolute_normalized("/data", cwd, Platform::Windows).unwrap(), r"C:\data");
    assert_eq!(absolute_normalized("x", r"C:\", Platform::Windows).unwrap(), r"C:\x");
    assert_eq!(mirror_of(r"C:/a/b", Platform::Windows).unwrap(), r"c\a\b");
    assert_eq!(mirror_of(r"d:\a", Platform::Windows).unwrap(), r"d\a");
    assert_eq!(mirror_of(r"C:a", Platform::Windows).unwrap_err(), "C:a is not absolute");
    assert_eq!(mirror_of(r"C:\a\..\b", Platform::Windows).unwrap_err(), r"C:\a\..\b is not normalized (contains ..)");
    assert_eq!(mirror_of(r"C:\", Platform::Windows).unwrap_err(), r"C:\ cannot be mirrored (filesystem root)");
    // under the backup root, the mirror's components are joined by `/`
    assert_eq!(buk::naming::mirror_path_of(r"C:\home\u\a.txt", Platform::Windows).unwrap(), "c/home/u/a.txt");
    // on a Unix working directory a backslash is an ordinary character
    assert_eq!(absolute_normalized("a\\b", "/home/u", Platform::Unix).unwrap(), "/home/u/a\\b");
}

#[test]
fn parents_are_cut_from_the_text() {
    assert_eq!(strip_rel_suffix("./x/a~s"), "./x/a");
    assert_eq!(parent_path("./x/a"), Some("./x".to_string()));
    assert_eq!(parent_path("."), Some("".to_string()));
    assert_eq!(parent_path("./a"), Some(".".to_string()));
    assert_eq!(parent_path("a//b/"), Some("a".to_string()));
    assert_eq!(parent_path("a/./b"), Some("a".to_string()));
    assert_eq!(parent_path("/."), None);
    assert_eq!(parent_path(""), None);
    assert_eq!(with_file_name("./x/a", "b"), "./x/b");
}

#[test]
fn the_platform_decides_the_rules() {
    // Unix: a drive letter is an ordinary character, only `/` roots a path
    assert_eq!(absolute_normalized("/a", "C:x", Platform::Unix).unwrap(), "/a");
    assert_eq!(absolute_normalized("C:/x", "/home", Platform::Unix).unwrap(), "/home/C:/x");
    assert_eq!(mirror_of("C:/x", Platform::Unix).unwrap_err(), "C:/x is not absolute");
    assert_eq!(mirror_of("/C:/x", Platform::Unix).unwrap(), "C:/x");
    // Windows: an absolute path needs a drive and a root
    assert_eq!(mirror_of("/x", Platform::Windows).unwrap_err(), "/x is not absolute");
    assert_eq!(absolute_normalized("/a", r"C:\w", Platform::Windows).unwrap(), r"C:\a");
    assert_eq!(absolute_normalized("a", "C:", Platform::Windows).unwrap(), r"C:\a");
}

#[test]
fn windows_network_and_verbatim_prefixes() {
    let w = Platform::Windows;
    assert_eq!(mirror_of(r"\\server\share\a\b.txt", w).unwrap(), r"servershare\a\b.txt");
    assert_eq!(mirror_of(r"\\?\C:\x\y", w).unwrap(), r"c\x\y");
    assert_eq!(mirror_of(r"\\?\UNC\srv\sh\f", w).unwrap(), r"uncsrvsh\f");
    assert_eq!(mirror_of(r"\\.\COM1\x", w).unwrap(), r"com1\x");
    assert_eq!(mirror_of("\\\\server\\\u{212A}\\x", w).unwrap(), r"serverk\x");
    assert_eq!(mirror_of(r"\\server\share", w).unwrap_err(), r"\\server\share cannot be mirrored (filesystem root)");
    assert_eq!(mirror_of(r"\\x", w).unwrap_err(), r"\\x is not absolute");
    let cwd = r"\\server\share\dir";
    assert_eq!(absolute_normalized("x", cwd, w).unwrap(), r"\\server\share\dir\x");
    assert_eq!(absolute_normalized(r"\data", cwd, w).unwrap(), r"\\server\share\data");
    assert_eq!(absolute_normalized(r"..\..\..\y", cwd, w).unwrap(), r"\\server\share\y");
    // verbatim: `.` still drops out, but `/` is part of a name
    assert_eq!(absolute_normalized(r"\\?\C:\a\.\b", cwd, w).unwrap(), r"\\?\C:\a\b");
    assert_eq!(absolute_normalized(r"\\?\C:\a/b", cwd, w).unwrap(), r"\\?\C:\a/b");
    assert_eq!(absolute_normalized("a/b", r"\\?\C:\x", w).unwrap(), r"\\?\C:\x\a\b");
}

#[test]
fn strip_undoes_suffix_below_any_directory() {
    // the directory's spelling may change, its components do not
    assert_eq!(strip_rel_suffix(&join_path("a//", &suffix_name("n~x", "S"))), "a/n~x");
    assert_eq!(strip_rel_suffix(&join_path("", &suffix_name("n", "S"))), "n");
    assert_eq!(strip_rel_suffix(&join_path("/", &suffix_name("n", "S"))), "/n");
    assert_eq!(strip_rel_suffix(&join_path("./d/.", &suffix_name("n", "S"))), "./d/n");
}
