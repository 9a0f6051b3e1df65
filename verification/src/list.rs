//! Locating the backup artifacts of an original path (`-l`, and the
//! collection step shared by restore and cleanup).
//!
//! Single-file and whole-directory backups live next to the mirror of the
//! source, named `<name>~<suffix>`; the per-file (`-r`) layout lives at the
//! exact mirror path.

use vstd::prelude::*;

use crate::drive::{
    win_prefix,
    ascii_lower, backslashed, has_drive, is_token_char, lemma_drive_token, lemma_volume_token,
    spec_sanitize_volume,
};
use crate::naming::{
    all_plain, Platform, is_absolute, win_rest, lemma_components_append_plain, is_plain_segment, lemma_join_first, mirror_parts, spec_mirror,
    components, file_name, is_parent_segment, join_path, join_segments,
    lemma_components_join, lemma_components_plain, mirror_path_of, parent_path, spec_file_name,
    spec_join_path, spec_mirror_path, spec_parent,
};
use crate::text::{chars_of, path_order, push_char, sort_paths, views};

verus! {

/// Where the artifacts of one source live.
pub struct Scope {
    /// File name of the source.
    pub name: String,
    /// `<name>~`: every flat artifact's name starts with it.
    pub prefix: String,
    /// Directory holding the flat artifacts.
    pub scoped: String,
    /// Root of the per-file layout.
    pub layout: String,
}

/// The (name, prefix, flat directory, layout root) of a source's artifacts.
pub open spec fn spec_scope(src: Seq<char>, dest: Seq<char>, platform: Platform) -> Result<
    (Seq<char>, Seq<char>, Seq<char>, Seq<char>),
    Seq<char>,
> {
    match spec_mirror_path(src, platform) {
        Err(e) => Err(e),
        Ok(m) => {
            let name = spec_file_name(m).unwrap();
            Ok(
                (
                    name,
                    name + seq!['~'],
                    spec_join_path(
                        dest,
                        match spec_parent(m) {
                            Some(q) => q,
                            None => Seq::empty(),
                        },
                    ),
                    spec_join_path(dest, m),
                ),
            )
        },
    }
}

/// The parts of a successful mirror are plain, and the last is not `..`.
pub proof fn lemma_mirror_parts_plain(abs: Seq<char>, platform: Platform)
    requires
        mirror_parts(abs, platform) is Ok,
    ensures
        mirror_parts(abs, platform)->Ok_0.len() > 0,
        all_plain(mirror_parts(abs, platform)->Ok_0),
        !is_parent_segment(mirror_parts(abs, platform)->Ok_0.last()),
{
    let c = mirror_parts(abs, platform)->Ok_0;
    if platform == Platform::Windows {
        let rest = win_rest(abs);
        let tok = spec_sanitize_volume(abs.take(win_prefix(abs).0));
        lemma_components_plain(rest);
        lemma_volume_token(abs.take(win_prefix(abs).0));
        assert(!tok.contains('/')) by {
            if tok.contains('/') {
                let k = choose|k: int| 0 <= k < tok.len() && tok[k] == '/';
                assert(is_token_char(tok[k]));
            }
        }
        assert(tok != seq!['.']) by {
            if tok == seq!['.'] {
                assert(is_token_char(tok[0]));
            }
        }
        assert(all_plain(c)) by {
            assert forall|i: int| 0 <= i < c.len() implies is_plain_segment(#[trigger] c[i]) by {
                if i > 0 {
                    assert(c[i] == components(rest)[i - 1]);
                }
            }
        }
        assert(c.last() == components(rest)[components(rest).len() - 1]);
    } else {
        lemma_components_plain(abs);
    }
}

/// A successful mirror always has a file name.
pub proof fn lemma_mirror_has_file_name(abs: Seq<char>, platform: Platform)
    requires
        spec_mirror_path(abs, platform) is Ok,
    ensures
        spec_file_name(spec_mirror_path(abs, platform)->Ok_0) is Some,
{
    lemma_mirror_parts_plain(abs, platform);
    let c = mirror_parts(abs, platform)->Ok_0;
    lemma_components_join(c, false);
    let m = join_segments(c);
    assert(components(m) == c);
}

/// Locates the artifacts of the (absolute, normalized) source `src` under
/// the backup root `dest`.
pub fn artifact_scope(src: &str, dest: &str, platform: Platform) -> (r: Result<Scope, String>)
    ensures
        match r {
            Ok(sc) => spec_scope(src@, dest@, platform) == Ok::<
                (Seq<char>, Seq<char>, Seq<char>, Seq<char>),
                Seq<char>,
            >((sc.name@, sc.prefix@, sc.scoped@, sc.layout@)),
            Err(e) => spec_scope(src@, dest@, platform) == Err::<
                (Seq<char>, Seq<char>, Seq<char>, Seq<char>),
                Seq<char>,
            >(e@),
        },
{
    let mirror = match mirror_path_of(src, platform) {
        Ok(m) => m,
        Err(e) => return Err(e),
    };
    proof {
        lemma_mirror_has_file_name(src@, platform);
    }
    let name = match file_name(mirror.as_str()) {
        Ok(n) => n,
        Err(e) => return Err(e),
    };
    let mut prefix = name.clone();
    push_char(&mut prefix, '~');
    assert(prefix@ =~= name@ + seq!['~']);
    proof {
        reveal_strlit("");
    }
    let scoped = match parent_path(mirror.as_str()) {
        Some(q) => join_path(dest, q.as_str()),
        None => join_path(dest, ""),
    };
    let layout = join_path(dest, mirror.as_str());
    Ok(Scope { name, prefix, scoped, layout })
}

/// `p` starts with `prefix`.
pub open spec fn has_prefix(s: Seq<char>, prefix: Seq<char>) -> bool {
    prefix.len() <= s.len() && s.take(prefix.len() as int) == prefix
}

/// A directory entry is an artifact when its file name is `prefix`
/// (`<name>~`) followed by a suffix that holds no further `~`: the entries
/// of a source named `<name>~x` are not those of `<name>`.
pub open spec fn entry_matches(path: Seq<char>, prefix: Seq<char>) -> bool {
    match spec_file_name(path) {
        Some(f) => has_prefix(f, prefix) && !f.skip(prefix.len() as int).contains('~'),
        None => false,
    }
}

/// The paths that are artifacts for `prefix`, in order.
pub open spec fn select_matching(paths: Seq<Seq<char>>, prefix: Seq<char>) -> Seq<Seq<char>>
    decreases paths.len(),
{
    if paths.len() == 0 {
        Seq::empty()
    } else {
        let prev = select_matching(paths.drop_last(), prefix);
        if entry_matches(paths.last(), prefix) {
            prev.push(paths.last())
        } else {
            prev
        }
    }
}

/// `s` starts with `prefix`.
pub fn starts_with(s: &str, prefix: &str) -> (r: bool)
    ensures
        r == has_prefix(s@, prefix@),
{
    let a = chars_of(s);
    let b = chars_of(prefix);
    if b.len() > a.len() {
        return false;
    }
    let mut i: usize = 0;
    while i < b.len()
        invariant
            i <= b.len() <= a.len(),
            a@ == s@,
            b@ == prefix@,
            a@.take(i as int) == b@.take(i as int),
        decreases b.len() - i,
    {
        if a[i] != b[i] {
            assert(a@.take(b.len() as int)[i as int] != b@[i as int]);
            return false;
        }
        assert(a@.take(i + 1) =~= a@.take(i as int).push(a@[i as int]));
        assert(b@.take(i + 1) =~= b@.take(i as int).push(b@[i as int]));
        i += 1;
    }
    assert(b@.take(i as int) =~= b@);
    true
}

/// Whether the entry `path` is an artifact for `prefix`.
pub fn is_artifact(path: &str, prefix: &str) -> (r: bool)
    ensures
        r == entry_matches(path@, prefix@),
{
    match file_name(path) {
        Ok(f) => {
            let n = chars_of(prefix).len();
            starts_with(f.as_str(), prefix) && no_sep_from(f.as_str(), n)
        },
        Err(_) => false,
    }
}

/// No `~` in `s` from index `from` on.
fn no_sep_from(s: &str, from: usize) -> (r: bool)
    requires
        from <= s@.len(),
    ensures
        r == !s@.skip(from as int).contains('~'),
{
    let v = chars_of(s);
    let mut i: usize = from;
    while i < v.len()
        invariant
            v@ == s@,
            from <= i <= v@.len(),
            forall|k: int| from <= k < i ==> v@[k] != '~',
        decreases v.len() - i,
    {
        if v[i] == '~' {
            assert(s@.skip(from as int)[i - from] == '~');
            return false;
        }
        i += 1;
    }
    assert forall|k: int| 0 <= k < s@.skip(from as int).len() implies s@.skip(from as int)[k] != '~' by {
        assert(s@.skip(from as int)[k] == v@[from + k]);
    }
    true
}

/// The entries of the flat directory that are artifacts for `prefix`, in
/// path order.
pub fn matching_entries(entries: Vec<String>, prefix: &str) -> (r: Vec<String>)
    ensures
        views(r@) == select_matching(views(entries@).sort_by(path_order()), prefix@),
{
    let sorted = sort_paths(entries);
    let ghost sv = views(sorted@);
    let mut r: Vec<String> = Vec::new();
    let mut i: usize = 0;
    while i < sorted.len()
        invariant
            i <= sorted.len(),
            sv == views(sorted@),
            views(r@) == select_matching(sv.take(i as int), prefix@),
        decreases sorted.len() - i,
    {
        assert(sv.take(i + 1).drop_last() =~= sv.take(i as int));
        if is_artifact(sorted[i].as_str(), prefix) {
            let ghost old_r = r@;
            r.push(sorted[i].clone());
            assert(views(r@) =~= views(old_r).push(sv[i as int]));
        }
        i += 1;
    }
    assert(sv.take(i as int) =~= sv);
    r
}

} // verus!

verus! {

/// The token a drive letter becomes: its ASCII lowercase.
pub open spec fn drive_token_char(c: char) -> char {
    if 'A' <= c && c <= 'Z' {
        ascii_lower(c)
    } else {
        c
    }
}

/// Under Windows rules different drives get different mirrors: the mirror
/// of a drive path starts with the drive letter, lowercased, so `C:\a` and
/// `D:\a` never share backups.
pub proof fn law_volumes_distinct(a: Seq<char>, b: Seq<char>)
    requires
        has_drive(a),
        has_drive(b),
        spec_mirror(a, Platform::Windows) is Ok,
        spec_mirror(b, Platform::Windows) is Ok,
        drive_token_char(a[0]) != drive_token_char(b[0]),
    ensures
        spec_mirror(a, Platform::Windows) != spec_mirror(b, Platform::Windows),
{
    lemma_mirror_first_char(a);
    lemma_mirror_first_char(b);
}

/// The mirror of a path with a drive starts with the drive's token.
proof fn lemma_mirror_first_char(a: Seq<char>)
    requires
        has_drive(a),
        spec_mirror(a, Platform::Windows) is Ok,
    ensures
        spec_mirror(a, Platform::Windows)->Ok_0.len() > 0,
        spec_mirror(a, Platform::Windows)->Ok_0[0] == drive_token_char(a[0]),
{
    let c = mirror_parts(a, Platform::Windows)->Ok_0;
    assert(win_prefix(a) == (2int, false, true));
    assert(a.take(2)[0] == a[0]);
    assert(has_drive(a.take(2)));
    lemma_drive_token(a.take(2));
    assert(c[0] == seq![drive_token_char(a[0])]);
    lemma_join_first(c);
    let j = join_segments(c);
    assert(j[0] == drive_token_char(a[0]));
    assert(backslashed(j)[0] == j[0]);
}

/// A mirror is relative, so joining it to any backup root stays beneath that
/// root: the result starts with the root.
pub proof fn law_mirror_stays_under_root(abs: Seq<char>, dest: Seq<char>, platform: Platform)
    requires
        spec_mirror_path(abs, platform) is Ok,
    ensures
        !is_absolute(spec_mirror_path(abs, platform)->Ok_0),
        spec_join_path(dest, spec_mirror_path(abs, platform)->Ok_0).take(dest.len() as int) == dest,
{
    lemma_mirror_parts_plain(abs, platform);
    let c = mirror_parts(abs, platform)->Ok_0;
    assert(is_plain_segment(c[0]));
    lemma_join_first(c);
    let m = join_segments(c);
    if dest.len() > 0 && dest.last() != '/' {
        assert((dest + seq!['/'] + m).take(dest.len() as int) =~= dest);
    } else {
        assert((dest + m).take(dest.len() as int) =~= dest);
    }
}

} // verus!

verus! {

/// A backup of `name` (file name `name~suffix`, suffix without `~`) is an
/// artifact of `name` in any directory; a backup of a sibling `name~x`
/// (file name `name~x~suffix`) never is.
pub proof fn law_artifacts_are_told_apart(
    dir: Seq<char>,
    name: Seq<char>,
    x: Seq<char>,
    suffix: Seq<char>,
)
    requires
        is_plain_segment(name),
        !x.contains('/'),
        !suffix.contains('/'),
        !suffix.contains('~'),
    ensures
        entry_matches(spec_join_path(dir, name + seq!['~'] + suffix), name + seq!['~']),
        !entry_matches(spec_join_path(dir, name + seq!['~'] + x + seq!['~'] + suffix), name + seq!['~']),
{
    let own = name + seq!['~'] + suffix;
    let sib = name + seq!['~'] + x + seq!['~'] + suffix;
    assert(!own.contains('/')) by {
        if own.contains('/') {
            let k = choose|k: int| 0 <= k < own.len() && own[k] == '/';
            if k < name.len() {
                assert(name[k] == '/');
            } else if k > name.len() {
                assert(suffix[k - name.len() - 1] == '/');
            }
        }
    }
    assert(!sib.contains('/')) by {
        if sib.contains('/') {
            let k = choose|k: int| 0 <= k < sib.len() && sib[k] == '/';
            if k < name.len() {
                assert(name[k] == '/');
            } else if name.len() < k < name.len() + 1 + x.len() {
                assert(x[k - name.len() - 1] == '/');
            } else if k > name.len() + 1 + x.len() {
                assert(suffix[k - name.len() - x.len() - 2] == '/');
            }
        }
    }
    assert(own[name.len() as int] == '~');
    assert(sib[name.len() as int] == '~');
    assert(is_plain_segment(own));
    assert(is_plain_segment(sib));
    lemma_components_append_plain(dir, own);
    lemma_components_append_plain(dir, sib);
    assert(own.take(name.len() + 1int) =~= name + seq!['~']);
    assert(own.skip(name.len() + 1int) =~= suffix);
    assert(sib.take(name.len() + 1int) =~= name + seq!['~']);
    let rest = sib.skip(name.len() + 1int);
    assert(rest[x.len() as int] == '~');
}

} // verus!
