//! Backup destinations (default mode).
//!
//! Artifacts are keyed by the mirrored absolute source path, e.g. source
//! `/home/u/notes.txt` → `dest/home/u/notes.txt~<suffix>`. Every file of one
//! run gets the same suffix.

use vstd::prelude::*;

use crate::list::{entry_matches, lemma_mirror_has_file_name, lemma_mirror_parts_plain, spec_scope};
use crate::naming::{
    all_plain, components, file_name, is_absolute, is_parent_segment, is_plain_segment,
    join_path, join_segments, lemma_components_join, lemma_components_join_path,
    is_clean_path, lemma_components_plain, lemma_join_path_rooted, lemma_clean_split, lemma_join_first, mirror_parts, lemma_parent_clean, lemma_join_last, mirror_path_of, parent_path,
    law_mirror_injective, Platform, spec_file_name, spec_join_path, spec_mirror, spec_normalize, spec_mirror_path, spec_parent, spec_suffix_name,
    spec_with_file_name, suffix_name, with_file_name,
};
use crate::text::concat;

verus! {

/// What is being backed up.
#[derive(Debug, Clone, Copy, PartialEq, Eq, Structural)]
pub enum SourceKind {
    /// A single file: copied to `<mirror parent>/<name>~<suffix>`.
    File,
    /// A directory copied as a whole under `<mirror parent>/<name>~<suffix>/`.
    Dir,
    /// A directory whose files are backed up one by one under `<mirror>/`.
    Recursive,
}

/// The destination of a backup of `src` (absolute, normalized) under `dest`:
/// the backed-up file, the whole-directory copy, or the root of the
/// per-file layout.
pub open spec fn spec_backup_target(
    src: Seq<char>,
    dest: Seq<char>,
    suffix: Seq<char>,
    kind: SourceKind,
    platform: Platform,
) -> Result<Seq<char>, Seq<char>> {
    match spec_mirror_path(src, platform) {
        Err(e) => Err(e),
        Ok(m) => {
            let name = spec_file_name(m).unwrap();
            match kind {
                SourceKind::File => Ok(
                    spec_join_path(
                        spec_join_path(
                            dest,
                            match spec_parent(m) {
                                Some(q) => q,
                                None => Seq::empty(),
                            },
                        ),
                        spec_suffix_name(name, suffix),
                    ),
                ),
                SourceKind::Dir => Ok(
                    spec_join_path(dest, spec_with_file_name(m, spec_suffix_name(name, suffix))),
                ),
                SourceKind::Recursive => Ok(spec_join_path(dest, m)),
            }
        },
    }
}

/// The destination of a backup (see [`spec_backup_target`]).
pub fn backup_target(
    src: &str,
    dest: &str,
    suffix: &str,
    kind: SourceKind,
    platform: Platform,
) -> (r: Result<
    String,
    String,
>)
    ensures
        match r {
            Ok(t) => spec_backup_target(src@, dest@, suffix@, kind, platform) == Ok::<Seq<char>, Seq<char>>(t@),
            Err(e) => spec_backup_target(src@, dest@, suffix@, kind, platform) == Err::<Seq<char>, Seq<char>>(
                e@,
            ),
        },
{
    let mirror = match mirror_path_of(src, platform) {
        Ok(m) => m,
        Err(e) => return Err(e),
    };
    proof {
        lemma_mirror_has_file_name(src@, platform);
        reveal_strlit("");
    }
    let name = match file_name(mirror.as_str()) {
        Ok(n) => n,
        Err(e) => return Err(e),
    };
    let stamped = suffix_name(name.as_str(), suffix);
    match kind {
        SourceKind::File => {
            let dir = match parent_path(mirror.as_str()) {
                Some(q) => join_path(dest, q.as_str()),
                None => join_path(dest, ""),
            };
            Ok(join_path(dir.as_str(), stamped.as_str()))
        },
        SourceKind::Dir => {
            let target_mirror = with_file_name(mirror.as_str(), stamped.as_str());
            Ok(join_path(dest, target_mirror.as_str()))
        },
        SourceKind::Recursive => Ok(join_path(dest, mirror.as_str())),
    }
}

/// The destination of one file of a directory backup, given its path
/// relative to the directory: under the whole-directory copy as it is, or,
/// in the per-file layout, with its name suffixed.
pub open spec fn spec_job_destination(
    target: Seq<char>,
    rel: Seq<char>,
    suffix: Seq<char>,
    recursive: bool,
) -> Option<Seq<char>> {
    if !recursive {
        Some(spec_join_path(target, rel))
    } else {
        match spec_file_name(rel) {
            Some(f) => Some(
                spec_join_path(target, spec_with_file_name(rel, spec_suffix_name(f, suffix))),
            ),
            None => None,
        }
    }
}

/// The copies of a directory backup: every (absolute, relative) file of the
/// source goes to its destination under `target`. An error names the first
/// file that has no file name.
pub fn backup_jobs(files: &Vec<(String, String)>, target: &str, suffix: &str, recursive: bool) -> (r:
    Result<Vec<(String, String)>, String>)
    ensures
        match r {
            Ok(jobs) => {
                &&& jobs@.len() == files@.len()
                &&& forall|i: int|
                    0 <= i < files@.len() ==> (#[trigger] jobs@[i]).0@ == files@[i].0@
                        && spec_job_destination(target@, files@[i].1@, suffix@, recursive) == Some(
                        jobs@[i].1@,
                    )
            },
            Err(e) => exists|i: int|
                0 <= i < files@.len() && spec_job_destination(
                    target@,
                    (#[trigger] files@[i]).1@,
                    suffix@,
                    recursive,
                ) is None && e@ == "cannot name "@ + files@[i].1@ && forall|k: int|
                    0 <= k < i ==> spec_job_destination(
                        target@,
                        (#[trigger] files@[k]).1@,
                        suffix@,
                        recursive,
                    ) is Some,
        },
{
    let mut jobs: Vec<(String, String)> = Vec::new();
    let mut i: usize = 0;
    while i < files.len()
        invariant
            i <= files@.len(),
            jobs@.len() == i,
            forall|k: int|
                0 <= k < i ==> (#[trigger] jobs@[k]).0@ == files@[k].0@ && spec_job_destination(
                    target@,
                    files@[k].1@,
                    suffix@,
                    recursive,
                ) == Some(jobs@[k].1@),
        decreases files.len() - i,
    {
        let rel = files[i].1.as_str();
        let to = if !recursive {
            join_path(target, rel)
        } else {
            match file_name(rel) {
                Ok(f) => {
                    let stamped = suffix_name(f.as_str(), suffix);
                    let new_rel = with_file_name(rel, stamped.as_str());
                    join_path(target, new_rel.as_str())
                },
                Err(_) => {
                    let e = concat("cannot name ", rel);
                    assert forall|k: int| 0 <= k < i implies spec_job_destination(
                        target@,
                        (#[trigger] files@[k]).1@,
                        suffix@,
                        recursive,
                    ) is Some by {
                        assert(jobs@[k].0@ == files@[k].0@);
                    }
                    return Err(e);
                },
            }
        };
        jobs.push((files[i].0.clone(), to));
        i += 1;
    }
    Ok(jobs)
}

} // verus!

verus! {

/// What a backup writes, list, restore and cleanup find again: a single-file
/// or whole-directory backup of `src` is the entry `<name>~<suffix>` of the
/// directory they search, and that entry is theirs by its name; a per-file
/// backup is rooted exactly at the layout they search.
pub proof fn law_backup_is_found(
    src: Seq<char>,
    dest: Seq<char>,
    suffix: Seq<char>,
    kind: SourceKind,
    platform: Platform,
)
    requires
        spec_mirror_path(src, platform) is Ok,
        !suffix.contains('/'),
        !suffix.contains('~'),
    ensures
        spec_backup_target(src, dest, suffix, kind, platform) is Ok,
        spec_scope(src, dest, platform) is Ok,
        ({
            let (name, prefix, scoped, layout) = spec_scope(src, dest, platform)->Ok_0;
            let t = spec_backup_target(src, dest, suffix, kind, platform)->Ok_0;
            let m = spec_mirror_path(src, platform)->Ok_0;
            &&& !(kind is Recursive) ==> t == spec_join_path(scoped, spec_suffix_name(name, suffix))
                && entry_matches(t, prefix) && t == spec_join_path(
                dest,
                m + seq!['~'] + suffix,
            )
            &&& kind is Recursive ==> t == layout && t == spec_join_path(dest, m)
            &&& !is_absolute(m)
        }),
{
    lemma_mirror_parts_plain(src, platform);
    let c = mirror_parts(src, platform)->Ok_0;
    lemma_components_join(c, false);
    let m = join_segments(c);
    lemma_mirror_has_file_name(src, platform);
    assert(components(m) == c);
    let name = c.last();
    assert(is_plain_segment(c[c.len() - 1]));
    let x = spec_suffix_name(name, suffix);
    assert(!x.contains('/')) by {
        if x.contains('/') {
            let k = choose|k: int| 0 <= k < x.len() && x[k] == '/';
            if k < name.len() {
                assert(name[k] == '/');
            } else if k > name.len() {
                assert(suffix[k - name.len() - 1] == '/');
            }
        }
    }
    assert(x[name.len() as int] == '~');
    assert(is_plain_segment(x));
    assert(!is_absolute(x));
    assert(join_segments(seq![x]) == x);
    assert(all_plain(seq![x]));
    lemma_components_join(seq![x], false);
    lemma_join_first(c);
    assert(!is_absolute(m));
    let init = c.drop_last();
    let q = join_segments(init);
    lemma_parent_clean(c, false);
    assert(spec_parent(m) == Some(q));
    let scoped = spec_join_path(dest, q);
    let t = spec_join_path(scoped, x);
    lemma_components_join_path(scoped, x);
    assert(components(t).last() == x);
    assert(!is_parent_segment(x));
    assert(spec_file_name(t) == Some(x));
    assert(x.take(name.len() + 1int) =~= name + seq!['~']);
    assert(x.skip(name.len() + 1int) =~= suffix);
    lemma_clean_split(c, false);
    if true {
        if init.len() == 0 {
            assert(q =~= Seq::<char>::empty());
            assert(spec_join_path(q, x) =~= x);
            assert(m =~= name);
            assert(x =~= m + seq!['~'] + suffix);
            if dest.len() > 0 && dest.last() != '/' {
                assert(scoped =~= dest + seq!['/']);
                assert(t =~= dest + seq!['/'] + x);
            } else {
                assert(scoped =~= dest);
            }
        } else {
            assert(all_plain(init)) by {
                assert forall|i: int| 0 <= i < init.len() implies is_plain_segment(
                    #[trigger] init[i],
                ) by {
                    assert(init[i] == c[i]);
                }
            }
            assert(is_plain_segment(init[0]));
            lemma_join_first(init);
            assert(is_plain_segment(init[init.len() - 1]));
            lemma_join_last(init);
            assert(q.last() != '/');
            assert(spec_join_path(q, x) == q + seq!['/'] + x);
            assert(m =~= q + seq!['/'] + name);
            assert(q + seq!['/'] + x =~= m + seq!['~'] + suffix);
            assert(!is_absolute(spec_join_path(q, x)));
            assert(scoped.len() > 0 && scoped.last() != '/');
            if dest.len() > 0 && dest.last() != '/' {
                assert(spec_join_path(dest, spec_join_path(q, x)) =~= dest + seq!['/'] + q
                    + seq!['/'] + x);
                assert(t =~= dest + seq!['/'] + q + seq!['/'] + x);
            } else {
                assert(spec_join_path(dest, spec_join_path(q, x)) =~= dest + q + seq!['/'] + x);
                assert(t =~= dest + q + seq!['/'] + x);
            }
        }
    }
}

/// Distinct sources never share a backup: when the backups of two
/// normalized absolute paths under one root, with one suffix and of one
/// kind, land on the same path, the sources are the same.
pub proof fn law_distinct_sources_distinct_backups(
    a: Seq<char>,
    b: Seq<char>,
    dest: Seq<char>,
    suffix: Seq<char>,
    kind: SourceKind,
)
    requires
        is_absolute(a),
        is_absolute(b),
        spec_normalize(a) == Some(a),
        spec_normalize(b) == Some(b),
        spec_mirror_path(a, Platform::Unix) is Ok,
        spec_mirror_path(b, Platform::Unix) is Ok,
        !suffix.contains('/'),
        !suffix.contains('~'),
        spec_backup_target(a, dest, suffix, kind, Platform::Unix) == spec_backup_target(
            b,
            dest,
            suffix,
            kind,
            Platform::Unix,
        ),
    ensures
        a == b,
{
    law_backup_is_found(a, dest, suffix, kind, Platform::Unix);
    law_backup_is_found(b, dest, suffix, kind, Platform::Unix);
    let ma = spec_mirror_path(a, Platform::Unix)->Ok_0;
    let mb = spec_mirror_path(b, Platform::Unix)->Ok_0;
    if kind is Recursive {
        lemma_join_cancel(dest, ma, mb);
    } else {
        let xa = ma + seq!['~'] + suffix;
        let xb = mb + seq!['~'] + suffix;
        lemma_not_absolute_extend(ma, suffix);
        lemma_not_absolute_extend(mb, suffix);
        lemma_join_cancel(dest, xa, xb);
        assert(ma =~= xa.take(ma.len() as int));
        assert(mb =~= xb.take(mb.len() as int));
    }
    assert(ma == mb);
    assert(spec_mirror(a, Platform::Unix) == spec_mirror(b, Platform::Unix));
    law_mirror_injective(a, b);
}

/// A relative path followed by `~` and more text is still relative.
proof fn lemma_not_absolute_extend(m: Seq<char>, suffix: Seq<char>)
    requires
        !is_absolute(m),
    ensures
        !is_absolute(m + seq!['~'] + suffix),
{
    if m.len() > 0 {
        assert((m + seq!['~'] + suffix)[0] == m[0]);
    } else {
        assert((m + seq!['~'] + suffix)[0] == '~');
    }
}

/// Joining two relative paths onto one base gives one path only when they
/// are the same.
proof fn lemma_join_cancel(dest: Seq<char>, x: Seq<char>, y: Seq<char>)
    requires
        !is_absolute(x),
        !is_absolute(y),
        spec_join_path(dest, x) == spec_join_path(dest, y),
    ensures
        x == y,
{
    let d = if dest.len() > 0 && dest.last() != '/' {
        dest + seq!['/']
    } else {
        dest
    };
    assert(spec_join_path(dest, x) == d + x);
    assert(spec_join_path(dest, y) == d + y);
    assert(x =~= (d + x).skip(d.len() as int));
    assert(y =~= (d + y).skip(d.len() as int));
}

/// A whole-directory backup copies the tree as it is: every file lands at
/// its full relative path below the target, subdirectories included.
pub proof fn law_whole_directory_keeps_the_tree(target: Seq<char>, rel: Seq<char>, suffix: Seq<char>)
    requires
        !is_absolute(rel),
    ensures
        spec_job_destination(target, rel, suffix, false) is Some,
        components(spec_job_destination(target, rel, suffix, false)->0) == components(target)
            + components(rel),
{
    lemma_components_join_path(target, rel);
}

/// A per-file backup keeps the tree too, and only renames each file: a file
/// at `dirs/name` lands at `dirs/name~suffix` below the target.
pub proof fn law_per_file_keeps_the_tree(target: Seq<char>, rel: Seq<char>, suffix: Seq<char>)
    requires
        is_clean_path(rel),
        !is_absolute(rel),
        spec_file_name(rel) is Some,
        !suffix.contains('/'),
    ensures
        spec_job_destination(target, rel, suffix, true) is Some,
        components(spec_job_destination(target, rel, suffix, true)->0) == components(target)
            + components(rel).drop_last().push(spec_file_name(rel)->0 + seq!['~'] + suffix),
{
    let c = components(rel);
    let f = c.last();
    lemma_components_plain(rel);
    assert(is_plain_segment(c[c.len() - 1]));
    let x = f + seq!['~'] + suffix;
    assert(x == spec_suffix_name(f, suffix));
    assert(!x.contains('/')) by {
        if x.contains('/') {
            let k = choose|k: int| 0 <= k < x.len() && x[k] == '/';
            if k < f.len() {
                assert(f[k] == '/');
            } else if k > f.len() {
                assert(suffix[k - f.len() - 1] == '/');
            }
        }
    }
    assert(x[f.len() as int] == '~');
    assert(is_plain_segment(x));
    let init = c.drop_last();
    assert(all_plain(init)) by {
        assert forall|i: int| 0 <= i < init.len() implies is_plain_segment(#[trigger] init[i]) by {
            assert(init[i] == c[i]);
        }
    }
    lemma_components_join(c, false);
    lemma_parent_clean(c, false);
    lemma_join_path_rooted(init, false, x);
    let c2 = init.push(x);
    assert(all_plain(c2)) by {
        assert forall|i: int| 0 <= i < c2.len() implies is_plain_segment(#[trigger] c2[i]) by {
            if i < init.len() {
                assert(c2[i] == init[i]);
            }
        }
    }
    let w = join_segments(c2);
    lemma_components_join(c2, false);
    lemma_join_first(c2);
    assert(!is_absolute(w));
    assert(spec_with_file_name(rel, x) == w);
    lemma_components_join_path(target, w);
}

} // verus!
