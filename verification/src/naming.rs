//! Backup naming convention: `<original name>~<formatted suffix>`, plus the
//! lexical normalization of absolute paths and their mirroring under the
//! backup root, which give every source a collision-free identity.
//!
//! Paths are strings. A path's components are its non-empty segments other
//! than `.`. Which rules apply is the caller's [`Platform`]: under Unix rules
//! `/` alone separates and a leading `/` makes a path absolute; under
//! Windows rules `\` separates too (alone in a verbatim `\\?\` path), an
//! absolute path has a prefix (`C:`, `\\server\share`, `\\?\C:`, ...) and a
//! root, normalization keeps the prefix, and a mirror starts with the
//! prefix's volume token (`C:\home\a.txt` → `c\home\a.txt`). The separator
//! between a name and its suffix is `~`; a suffix is stripped by splitting at
//! the *last* `~`, so templates must never contain `~`.

use vstd::prelude::*;

use crate::drive::{
    backslashed, backslashed_all, has_drive, is_sep_in, is_win_sep,
    sanitize_volume, slashed, slashed_from, spec_sanitize_volume, swapped, swapped_all,
    swapped_from, win_prefix, win_prefix_of,
};
use crate::text::{chars_of, concat, copy_chars, push_char, string_from, string_of};

verus! {

/// Separator between an original name and its date-time suffix.
pub const SEP: &'static str = "~";

/// The separator character between a name and its suffix.
pub open spec fn sep_char() -> char {
    '~'
}

pub open spec fn seg_views(s: Seq<Vec<char>>) -> Seq<Seq<char>> {
    s.map_values(|x: Vec<char>| x@)
}

/// A path is absolute when it starts at the root `/`.
pub open spec fn is_absolute(p: Seq<char>) -> bool {
    p.len() > 0 && p[0] == '/'
}

/// The pieces of `s` between `/` separators (empty pieces included).
pub open spec fn split_segments(s: Seq<char>) -> Seq<Seq<char>>
    decreases s.len(),
{
    if s.len() == 0 {
        seq![Seq::<char>::empty()]
    } else {
        let prev = split_segments(s.drop_last());
        if s.last() == '/' {
            prev.push(Seq::<char>::empty())
        } else {
            prev.update(prev.len() - 1, prev.last().push(s.last()))
        }
    }
}

/// A segment that names something: not empty, not `.`.
pub open spec fn is_real_segment(seg: Seq<char>) -> bool {
    seg.len() > 0 && seg != seq!['.']
}

/// The segment `..`.
pub open spec fn is_parent_segment(seg: Seq<char>) -> bool {
    seg == seq!['.', '.']
}

pub open spec fn real_segments(segs: Seq<Seq<char>>) -> Seq<Seq<char>>
    decreases segs.len(),
{
    if segs.len() == 0 {
        Seq::empty()
    } else {
        let prev = real_segments(segs.drop_last());
        if is_real_segment(segs.last()) {
            prev.push(segs.last())
        } else {
            prev
        }
    }
}

/// The components of a path: its real segments, in order (`..` included).
pub open spec fn components(p: Seq<char>) -> Seq<Seq<char>> {
    real_segments(split_segments(p))
}

/// Segments joined by `/`.
pub open spec fn join_segments(parts: Seq<Seq<char>>) -> Seq<char>
    decreases parts.len(),
{
    if parts.len() == 0 {
        Seq::empty()
    } else if parts.len() == 1 {
        parts[0]
    } else {
        join_segments(parts.drop_last()) + seq!['/'] + parts.last()
    }
}

/// `body`, preceded by the root `/` when `root` holds.
pub open spec fn rooted(root: bool, body: Seq<char>) -> Seq<char> {
    if root {
        seq!['/'] + body
    } else {
        body
    }
}

/// Lexical resolution of `..`: each `..` drops the component before it; at
/// the top of an absolute path it is dropped itself (clamped at `/`); at the
/// top of a relative path the path escapes its start and has no resolution.
pub open spec fn resolve(comps: Seq<Seq<char>>, root: bool) -> Option<Seq<Seq<char>>>
    decreases comps.len(),
{
    if comps.len() == 0 {
        Some(Seq::empty())
    } else {
        match resolve(comps.drop_last(), root) {
            None => None,
            Some(parts) => if is_parent_segment(comps.last()) {
                if parts.len() > 0 {
                    Some(parts.drop_last())
                } else if root {
                    Some(parts)
                } else {
                    None
                }
            } else {
                Some(parts.push(comps.last()))
            },
        }
    }
}

/// The lexically normalized form of a path, when it has one.
pub open spec fn spec_normalize(p: Seq<char>) -> Option<Seq<char>> {
    match resolve(components(p), is_absolute(p)) {
        None => None,
        Some(parts) => {
            let out = rooted(is_absolute(p), join_segments(parts));
            if out.len() == 0 {
                None
            } else {
                Some(out)
            }
        },
    }
}

/// `base` extended by `rel` (`rel` replaces `base` when it is absolute).
pub open spec fn spec_join_path(base: Seq<char>, rel: Seq<char>) -> Seq<char> {
    if is_absolute(rel) {
        rel
    } else if base.len() > 0 && base.last() != '/' {
        base + seq!['/'] + rel
    } else {
        base + rel
    }
}

/// Whose path rules apply: Unix (`/` alone separates, a leading `/` makes a
/// path absolute) or Windows (`\` and `/` both separate, an absolute path
/// has a drive and a root).
#[derive(Debug, Clone, Copy, PartialEq, Eq, Structural)]
pub enum Platform {
    Unix,
    Windows,
}

/// Under Windows rules, whether a separator follows the prefix of `j`.
pub open spec fn win_physical_root(j: Seq<char>) -> bool {
    let (n, verb, _) = win_prefix(j);
    n < j.len() && is_sep_in(j[n], verb)
}

/// Under Windows rules, whether `j` has a root component: a separator after
/// its prefix, or a prefix that implies one (any but a plain drive or a
/// verbatim one).
pub open spec fn win_root_dir(j: Seq<char>) -> bool {
    let (n, verb, disk) = win_prefix(j);
    win_physical_root(j) || (n > 0 && !disk && !verb)
}

/// Under Windows rules a path is absolute when it has a prefix and a root;
/// every prefix but a plain drive implies the root.
pub open spec fn win_is_absolute(j: Seq<char>) -> bool {
    let (n, _, disk) = win_prefix(j);
    n > 0 && (win_physical_root(j) || !disk)
}

/// The text of `j` after its prefix with its separators written as `/` (in
/// a verbatim path, where only `\` separates, its own `/` become `\`).
pub open spec fn win_rest(j: Seq<char>) -> Seq<char> {
    let (n, verb, _) = win_prefix(j);
    if verb {
        swapped(j.skip(n))
    } else {
        slashed(j.skip(n))
    }
}

/// A `/`-joined text written back with Windows separators.
pub open spec fn win_out(s: Seq<char>, verbatim: bool) -> Seq<char> {
    if verbatim {
        swapped(s)
    } else {
        backslashed(s)
    }
}

/// `path` taken relative to `cwd` under Windows rules, following
/// `PathBuf::push` there: a path with a prefix replaces `cwd`, a rooted path
/// keeps only the prefix of `cwd`, any other is appended after a `\` (none
/// after an empty `cwd`, one ending in a separator, or a bare drive). Onto a
/// verbatim `cwd` the path is appended with its separators written as `\`.
pub open spec fn spec_win_joined(path: Seq<char>, cwd: Seq<char>) -> Seq<char> {
    let (pn, _, _) = win_prefix(path);
    let (cn, cverb, cdisk) = win_prefix(cwd);
    let sep = if cwd.len() > 0 && !is_win_sep(cwd.last()) && !(cn > 0 && cn == cwd.len()
        && cdisk) {
        seq!['\\']
    } else {
        Seq::<char>::empty()
    };
    let rooted = path.len() > 0 && is_win_sep(path[0]);
    if pn > 0 {
        path
    } else if cverb {
        if rooted {
            cwd.take(cn) + backslashed(path)
        } else {
            cwd + sep + backslashed(path)
        }
    } else if rooted {
        cwd.take(cn) + path
    } else {
        cwd + sep + path
    }
}

/// The lexically normalized form of a path under Windows rules: its prefix
/// kept as written, then the resolved components joined by `\`, with a `\`
/// after the prefix when the path has a root or a component; `None` when it
/// escapes above its start or comes out empty.
pub open spec fn spec_win_normalize(j: Seq<char>) -> Option<Seq<char>> {
    let (n, verb, _) = win_prefix(j);
    let root = win_root_dir(j);
    match resolve(components(win_rest(j)), root) {
        None => None,
        Some(parts) => {
            let out = j.take(n) + (if root || (n > 0 && parts.len() > 0) {
                seq!['\\']
            } else {
                Seq::<char>::empty()
            }) + win_out(join_segments(parts), verb);
            if out.len() == 0 {
                None
            } else {
                Some(out)
            }
        },
    }
}

/// The absolute, normalized form of `path` taken relative to `cwd`, under
/// the rules of `platform`.
pub open spec fn spec_absolute_normalized(
    path: Seq<char>,
    cwd: Seq<char>,
    platform: Platform,
) -> Option<Seq<char>> {
    match platform {
        Platform::Windows => spec_win_normalize(spec_win_joined(path, cwd)),
        Platform::Unix => spec_normalize(
            if is_absolute(path) {
                path
            } else {
                spec_join_path(cwd, path)
            },
        ),
    }
}

pub proof fn lemma_split_nonempty(s: Seq<char>)
    ensures
        split_segments(s).len() >= 1,
    decreases s.len(),
{
    if s.len() > 0 {
        lemma_split_nonempty(s.drop_last());
    }
}

/// The components of the mirror of an absolute path under the backup root:
/// its components without the root, the prefix (under Windows rules) turned
/// into its volume token.
pub open spec fn mirror_parts(abs: Seq<char>, platform: Platform) -> Result<
    Seq<Seq<char>>,
    Seq<char>,
> {
    match platform {
        Platform::Windows => {
            let rest = win_rest(abs);
            if !win_is_absolute(abs) {
                Err(abs + " is not absolute"@)
            } else if exists|i: int|
                0 <= i < components(rest).len() && is_parent_segment(
                    #[trigger] components(rest)[i],
                ) {
                Err(abs + " is not normalized (contains ..)"@)
            } else if components(rest).len() == 0 {
                Err(abs + " cannot be mirrored (filesystem root)"@)
            } else {
                Ok(seq![spec_sanitize_volume(abs.take(win_prefix(abs).0))] + components(rest))
            }
        },
        Platform::Unix => {
            if !is_absolute(abs) {
                Err(abs + " is not absolute"@)
            } else if exists|i: int|
                0 <= i < components(abs).len() && is_parent_segment(
                    #[trigger] components(abs)[i],
                ) {
                Err(abs + " is not normalized (contains ..)"@)
            } else if components(abs).len() == 0 {
                Err(abs + " cannot be mirrored (filesystem root)"@)
            } else {
                Ok(components(abs))
            }
        },
    }
}

/// The mirror as it is placed under the backup root: its components joined
/// by `/`.
pub open spec fn spec_mirror_path(abs: Seq<char>, platform: Platform) -> Result<
    Seq<char>,
    Seq<char>,
> {
    match mirror_parts(abs, platform) {
        Ok(c) => Ok(join_segments(c)),
        Err(e) => Err(e),
    }
}

/// The mirror of an absolute path, written with the platform's separator:
/// `/home/u/a.txt` → `home/u/a.txt`, `C:\home\u\a.txt` → `c\home\u\a.txt`.
pub open spec fn spec_mirror(abs: Seq<char>, platform: Platform) -> Result<Seq<char>, Seq<char>> {
    match mirror_parts(abs, platform) {
        Ok(c) => Ok(
            match platform {
                Platform::Windows => win_out(join_segments(c), win_prefix(abs).1),
                Platform::Unix => join_segments(c),
            },
        ),
        Err(e) => Err(e),
    }
}

/// The last component of a path, unless it is `..` or there is none.
pub open spec fn spec_file_name(p: Seq<char>) -> Option<Seq<char>> {
    let c = components(p);
    if c.len() > 0 && !is_parent_segment(c.last()) {
        Some(c.last())
    } else {
        None
    }
}

/// `s` without trailing separators and trailing `/.` segments (its first
/// character always stays).
pub open spec fn trim_end(s: Seq<char>) -> Seq<char>
    decreases s.len(),
{
    if s.len() > 1 && s.last() == '/' {
        trim_end(s.drop_last())
    } else if s.len() > 1 && s.last() == '.' && s[s.len() - 2] == '/' {
        trim_end(s.drop_last())
    } else {
        s
    }
}

/// Index of the last `/` in `s`, or -1 when there is none.
pub open spec fn last_slash(s: Seq<char>) -> int
    decreases s.len(),
{
    if s.len() == 0 {
        -1
    } else if s.last() == '/' {
        s.len() - 1
    } else {
        last_slash(s.drop_last())
    }
}

/// The path without its last component, cut from the text as
/// `Path::parent` cuts it: `None` for the empty path and the root, the empty
/// path for a single component, otherwise the text before the last
/// separator without trailing separators.
pub open spec fn spec_parent(p: Seq<char>) -> Option<Seq<char>> {
    let t = trim_end(p);
    if t.len() == 0 || t == seq!['/'] {
        None
    } else if last_slash(t) < 0 {
        Some(Seq::empty())
    } else if last_slash(t) == 0 {
        Some(seq!['/'])
    } else {
        Some(trim_end(t.take(last_slash(t))))
    }
}

/// `p` with its file name replaced by `name` (`name` appended when `p` has
/// no file name), following `PathBuf::set_file_name`.
pub open spec fn spec_with_file_name(p: Seq<char>, name: Seq<char>) -> Seq<char> {
    match (spec_file_name(p), spec_parent(p)) {
        (Some(_), Some(q)) => spec_join_path(q, name),
        _ => spec_join_path(p, name),
    }
}

/// `name~suffix`.
pub open spec fn spec_suffix_name(name: Seq<char>, suffix: Seq<char>) -> Seq<char> {
    name + seq![sep_char()] + suffix
}

/// Index of the last `~` in `s`, or -1 when there is none.
pub open spec fn last_sep_index(s: Seq<char>) -> int
    decreases s.len(),
{
    if s.len() == 0 {
        -1
    } else if s.last() == sep_char() {
        s.len() - 1
    } else {
        last_sep_index(s.drop_last())
    }
}

/// `rel` with the suffix of its file name removed (cut at the last `~`);
/// unchanged when its file name has no `~` or it has no file name.
pub open spec fn spec_strip_rel_suffix(rel: Seq<char>) -> Seq<char> {
    match spec_file_name(rel) {
        Some(f) => if last_sep_index(f) >= 0 {
            spec_with_file_name(rel, f.take(last_sep_index(f)))
        } else {
            rel
        },
        None => rel,
    }
}

pub proof fn lemma_last_sep_index_bounds(s: Seq<char>)
    ensures
        -1 <= last_sep_index(s) < s.len(),
        last_sep_index(s) >= 0 ==> s[last_sep_index(s)] == sep_char(),
        forall|j: int| last_sep_index(s) < j < s.len() ==> s[j] != sep_char(),
    decreases s.len(),
{
    if s.len() > 0 {
        lemma_last_sep_index_bounds(s.drop_last());
        assert forall|j: int| last_sep_index(s) < j < s.len() implies s[j] != sep_char() by {
            if j < s.len() - 1 {
                assert(s.drop_last()[j] == s[j]);
            }
        }
    }
}

/// Once a prefix escapes above its start, the whole path does.
pub proof fn lemma_resolve_none_extends(comps: Seq<Seq<char>>, k: int, root: bool)
    requires
        0 <= k <= comps.len(),
        resolve(comps.take(k), root) is None,
    ensures
        resolve(comps, root) is None,
    decreases comps.len(),
{
    if comps.len() == k {
        assert(comps.take(k) =~= comps);
    } else {
        assert(comps.drop_last().take(k) =~= comps.take(k));
        lemma_resolve_none_extends(comps.drop_last(), k, root);
    }
}

/// Splits a character vector at every `/`.
fn segments_of(v: &Vec<char>) -> (r: Vec<Vec<char>>)
    ensures
        seg_views(r@) == split_segments(v@),
{
    let mut done: Vec<Vec<char>> = Vec::new();
    let mut cur: Vec<char> = Vec::new();
    let mut i: usize = 0;
    assert(seg_views(done@).push(cur@) =~= split_segments(v@.take(0)));
    while i < v.len()
        invariant
            i <= v.len(),
            seg_views(done@).push(cur@) == split_segments(v@.take(i as int)),
        decreases v.len() - i,
    {
        let c = v[i];
        proof {
            assert(v@.take(i + 1).drop_last() =~= v@.take(i as int));
            lemma_split_nonempty(v@.take(i as int));
        }
        if c == '/' {
            let ghost d = done@;
            done.push(cur);
            cur = Vec::new();
            assert(seg_views(done@).push(cur@) =~= seg_views(d).push(seg_views(done@).last()).push(
                Seq::empty(),
            ));
        } else {
            let ghost old_cur = cur@;
            cur.push(c);
            assert(seg_views(done@).push(cur@) =~= seg_views(done@).push(old_cur).update(
                done@.len() as int,
                old_cur.push(c),
            ));
        }
        i += 1;
    }
    assert(v@.take(i as int) =~= v@);
    let ghost d = done@;
    done.push(cur);
    assert(seg_views(done@) =~= seg_views(d).push(cur@));
    done
}

fn is_real(seg: &Vec<char>) -> (r: bool)
    ensures
        r == is_real_segment(seg@),
{
    if seg.len() == 0 {
        false
    } else if seg.len() == 1 && seg[0] == '.' {
        assert(seg@ =~= seq!['.']);
        false
    } else {
        assert(seg@.len() == 1 ==> seg@[0] != '.');
        assert(seg@ != seq!['.'] || seg@.len() == 1);
        true
    }
}

fn is_parent(seg: &Vec<char>) -> (r: bool)
    ensures
        r == is_parent_segment(seg@),
{
    if seg.len() == 2 && seg[0] == '.' && seg[1] == '.' {
        assert(seg@ =~= seq!['.', '.']);
        true
    } else {
        false
    }
}

/// The components of the path held in `v`.
fn components_of(v: &Vec<char>) -> (r: Vec<Vec<char>>)
    ensures
        seg_views(r@) == components(v@),
{
    let segs = segments_of(v);
    let mut r: Vec<Vec<char>> = Vec::new();
    let mut i: usize = 0;
    while i < segs.len()
        invariant
            i <= segs.len(),
            seg_views(segs@) == split_segments(v@),
            seg_views(r@) == real_segments(seg_views(segs@).take(i as int)),
        decreases segs.len() - i,
    {
        assert(seg_views(segs@).take(i + 1).drop_last() =~= seg_views(segs@).take(i as int));
        if is_real(&segs[i]) {
            let ghost old_r = r@;
            r.push(copy_chars(&segs[i]));
            assert(seg_views(r@) =~= seg_views(old_r).push(segs@[i as int]@));
        }
        i += 1;
    }
    assert(seg_views(segs@).take(i as int) =~= seg_views(segs@));
    r
}

/// Resolves `..` components (see [`resolve`]).
fn resolve_parts(comps: Vec<Vec<char>>, root: bool) -> (r: Option<Vec<Vec<char>>>)
    ensures
        match r {
            None => resolve(seg_views(comps@), root) is None,
            Some(p) => resolve(seg_views(comps@), root) == Some(seg_views(p@)),
        },
{
    let mut parts: Vec<Vec<char>> = Vec::new();
    let mut i: usize = 0;
    assert(seg_views(comps@).take(0) =~= Seq::<Seq<char>>::empty());
    assert(seg_views(parts@) =~= Seq::<Seq<char>>::empty());
    while i < comps.len()
        invariant
            i <= comps.len(),
            resolve(seg_views(comps@).take(i as int), root) == Some(seg_views(parts@)),
        decreases comps.len() - i,
    {
        assert(seg_views(comps@).take(i + 1).drop_last() =~= seg_views(comps@).take(i as int));
        let ghost old_parts = parts@;
        if is_parent(&comps[i]) {
            if parts.len() > 0 {
                parts.pop();
                assert(seg_views(parts@) =~= seg_views(old_parts).drop_last());
            } else if !root {
                proof {
                    lemma_resolve_none_extends(seg_views(comps@), i + 1, root);
                }
                return None;
            }
        } else {
            let ghost before = parts@;
            let x = copy_chars(&comps[i]);
            parts.push(x);
            assert(parts@ == before.push(x));
            assert(seg_views(parts@) =~= seg_views(before).push(seg_views(comps@)[i as int]));
            assert(seg_views(comps@).take(i + 1) =~= seg_views(comps@).take(i as int).push(seg_views(comps@)[i as int]));
            assert(seg_views(parts@) =~= seg_views(old_parts).push(comps@[i as int]@));
        }
        i += 1;
    }
    assert(seg_views(comps@).take(i as int) =~= seg_views(comps@));
    Some(parts)
}

/// `parts` joined by `/`, preceded by `/` when `root` holds.
fn join_parts(parts: &Vec<Vec<char>>, root: bool) -> (r: Vec<char>)
    ensures
        r@ == rooted(root, join_segments(seg_views(parts@))),
{
    let mut out: Vec<char> = Vec::new();
    if root {
        out.push('/');
    }
    let ghost start = out@;
    let mut i: usize = 0;
    assert(join_segments(seg_views(parts@).take(0)) =~= Seq::<char>::empty());
    assert(out@ =~= rooted(root, Seq::<char>::empty()));
    while i < parts.len()
        invariant
            i <= parts.len(),
            out@ == rooted(root, join_segments(seg_views(parts@).take(i as int))),
        decreases parts.len() - i,
    {
        let ghost before = out@;
        let ghost prefix = join_segments(seg_views(parts@).take(i as int));
        assert(seg_views(parts@).take(i + 1).drop_last() =~= seg_views(parts@).take(i as int));
        if i > 0 {
            out.push('/');
        }
        let p = &parts[i];
        let mut j: usize = 0;
        let ghost mid = out@;
        while j < p.len()
            invariant
                j <= p.len(),
                out@ == mid + p@.take(j as int),
            decreases p.len() - j,
        {
            out.push(p[j]);
            assert(p@.take(j + 1) =~= p@.take(j as int).push(p@[j as int]));
            assert(out@ =~= mid + p@.take(j + 1));
            j += 1;
        }
        assert(p@.take(j as int) =~= p@);
        if i == 0 {
            assert(seg_views(parts@).take(1) =~= seq![p@]);
            assert(out@ =~= rooted(root, join_segments(seg_views(parts@).take(i + 1))));
        } else {
            assert(out@ =~= rooted(root, prefix + seq!['/'] + p@));
        }
        i += 1;
    }
    assert(seg_views(parts@).take(i as int) =~= seg_views(parts@));
    out
}

/// Lexical normalization of the path held in `v` (see [`spec_normalize`]).
fn normalize(v: &Vec<char>) -> (r: Option<Vec<char>>)
    ensures
        match r {
            None => spec_normalize(v@) is None,
            Some(out) => spec_normalize(v@) == Some(out@),
        },
{
    let root = v.len() > 0 && v[0] == '/';
    let comps = components_of(v);
    match resolve_parts(comps, root) {
        None => None,
        Some(parts) => {
            let out = join_parts(&parts, root);
            if out.len() == 0 {
                None
            } else {
                Some(out)
            }
        },
    }
}

/// `base` extended by `rel`, following `PathBuf::push`: an absolute `rel`
/// replaces `base`; otherwise a `/` is inserted unless `base` is empty or
/// already ends with one.
pub fn join_path(base: &str, rel: &str) -> (r: String)
    ensures
        r@ == spec_join_path(base@, rel@),
{
    let b = chars_of(base);
    let x = chars_of(rel);
    if x.len() > 0 && x[0] == '/' {
        return rel.to_owned();
    }
    let mut s = base.to_owned();
    if b.len() > 0 && b[b.len() - 1] != '/' {
        push_char(&mut s, '/');
    }
    s.append(rel);
    s
}

/// The characters of `a` followed by those of `b`.
fn cat(a: &Vec<char>, b: &Vec<char>) -> (r: Vec<char>)
    ensures
        r@ == a@ + b@,
{
    let mut r = copy_chars(a);
    let mut t = copy_chars(b);
    r.append(&mut t);
    r
}

/// The first `n` characters of `v`.
fn take_chars(v: &Vec<char>, n: usize) -> (r: Vec<char>)
    requires
        n <= v.len(),
    ensures
        r@ == v@.take(n as int),
{
    let mut r: Vec<char> = Vec::new();
    let mut i: usize = 0;
    while i < n
        invariant
            i <= n <= v.len(),
            r@ == v@.take(i as int),
        decreases n - i,
    {
        r.push(v[i]);
        assert(v@.take(i + 1) =~= v@.take(i as int).push(v@[i as int]));
        i += 1;
    }
    r
}

/// Lexical normalization of a path under Windows rules (see
/// [`spec_win_normalize`]).
fn win_normalize(j: &Vec<char>) -> (r: Option<Vec<char>>)
    ensures
        match r {
            None => spec_win_normalize(j@) is None,
            Some(out) => spec_win_normalize(j@) == Some(out@),
        },
{
    let (n, verb, disk) = win_prefix_of(j);
    let physical = n < j.len() && (j[n] == '\\' || (!verb && j[n] == '/'));
    let root = physical || (n > 0 && !disk && !verb);
    assert(root == win_root_dir(j@));
    let rest = if verb {
        swapped_from(j, n)
    } else {
        slashed_from(j, n)
    };
    assert(rest@ == win_rest(j@));
    let comps = components_of(&rest);
    match resolve_parts(comps, root) {
        None => None,
        Some(parts) => {
            let mut out = take_chars(j, n);
            if root || (n > 0 && parts.len() > 0) {
                out.push('\\');
            }
            let joined = join_parts(&parts, false);
            let body = if verb {
                swapped_all(&joined)
            } else {
                backslashed_all(&joined)
            };
            let all = cat(&out, &body);
            if all.len() == 0 {
                None
            } else {
                Some(all)
            }
        },
    }
}

/// Absolute, lexically normalized path under the rules of `platform`.
/// Relative paths are joined against `cwd`. Resolves `.`/`..` without
/// touching the filesystem and without resolving symlinks; excess `..`
/// clamps at the root. Under Windows rules the prefix (`C:`,
/// `\\server\share`, `\\?\C:`, ...) is kept, and `\` and `/` both separate
/// components (only `\` in a verbatim path).
pub fn absolute_normalized(path: &str, cwd: &str, platform: Platform) -> (r: Result<String, String>)
    ensures
        r is Ok <==> spec_absolute_normalized(path@, cwd@, platform) is Some,
        r matches Ok(s) ==> spec_absolute_normalized(path@, cwd@, platform) == Some(s@),
        r matches Err(e) ==> e@ == path@ + " has no usable absolute path"@,
{
    let p = chars_of(path);
    let c = chars_of(cwd);
    if platform == Platform::Windows {
        let (pn, _, _) = win_prefix_of(&p);
        let (cn, cverb, cdisk) = win_prefix_of(&c);
        let mut head = copy_chars(&c);
        if c.len() > 0 && !(c[c.len() - 1] == '/' || c[c.len() - 1] == '\\') && !(cn > 0 && cn
            == c.len() && cdisk) {
            head.push('\\');
        }
        let rooted = p.len() > 0 && (p[0] == '/' || p[0] == '\\');
        let joined = if pn > 0 {
            p
        } else if cverb {
            let bp = backslashed_all(&p);
            if rooted {
                cat(&take_chars(&c, cn), &bp)
            } else {
                cat(&head, &bp)
            }
        } else if rooted {
            cat(&take_chars(&c, cn), &p)
        } else {
            cat(&head, &p)
        };
        assert(joined@ =~= spec_win_joined(path@, cwd@));
        return match win_normalize(&joined) {
            Some(out) => Ok(string_from(&out)),
            None => Err(concat(path, " has no usable absolute path")),
        };
    }
    let joined = if p.len() > 0 && p[0] == '/' {
        p
    } else {
        chars_of(join_path(cwd, path).as_str())
    };
    match normalize(&joined) {
        Some(out) => Ok(string_from(&out)),
        None => Err(concat(path, " has no usable absolute path")),
    }
}

/// Whether a component is `..`.
fn has_parent_component(comps: &Vec<Vec<char>>) -> (r: bool)
    ensures
        r == exists|i: int|
            0 <= i < comps@.len() && is_parent_segment(#[trigger] seg_views(comps@)[i]),
{
    let mut i: usize = 0;
    while i < comps.len()
        invariant
            i <= comps.len(),
            forall|k: int| 0 <= k < i ==> !is_parent_segment(#[trigger] seg_views(comps@)[k]),
        decreases comps.len() - i,
    {
        if is_parent(&comps[i]) {
            assert(is_parent_segment(seg_views(comps@)[i as int]));
            return true;
        }
        i += 1;
    }
    false
}

/// The components of the mirror of `abs` (see [`mirror_parts`]).
fn mirror_parts_of(abs: &str, platform: Platform) -> (r: Result<Vec<Vec<char>>, String>)
    ensures
        match r {
            Ok(parts) => mirror_parts(abs@, platform) == Ok::<Seq<Seq<char>>, Seq<char>>(
                seg_views(parts@),
            ),
            Err(e) => mirror_parts(abs@, platform) == Err::<Seq<Seq<char>>, Seq<char>>(e@),
        },
{
    let v = chars_of(abs);
    if platform == Platform::Windows {
        let (n, verb, disk) = win_prefix_of(&v);
        let physical = n < v.len() && (v[n] == '\\' || (!verb && v[n] == '/'));
        if !(n > 0 && (physical || !disk)) {
            return Err(concat(abs, " is not absolute"));
        }
        let rest = if verb {
            swapped_from(&v, n)
        } else {
            slashed_from(&v, n)
        };
        assert(rest@ == win_rest(abs@));
        let comps = components_of(&rest);
        if has_parent_component(&comps) {
            return Err(concat(abs, " is not normalized (contains ..)"));
        }
        if comps.len() == 0 {
            return Err(concat(abs, " cannot be mirrored (filesystem root)"));
        }
        let pre = take_chars(&v, n);
        let tok = sanitize_volume(&pre);
        let ghost t = spec_sanitize_volume(abs@.take(n as int));
        let mut parts: Vec<Vec<char>> = Vec::new();
        parts.push(tok);
        let mut i: usize = 0;
        while i < comps.len()
            invariant
                i <= comps.len(),
                parts@.len() == i + 1,
                seg_views(parts@) == seq![t] + seg_views(comps@).take(i as int),
            decreases comps.len() - i,
        {
            let ghost before = parts@;
            let x = copy_chars(&comps[i]);
            parts.push(x);
            assert(parts@ == before.push(x));
            assert(seg_views(parts@) =~= seg_views(before).push(seg_views(comps@)[i as int]));
            assert(seg_views(comps@).take(i + 1) =~= seg_views(comps@).take(i as int).push(
                seg_views(comps@)[i as int],
            ));
            assert(seg_views(parts@) =~= seq![t] + seg_views(comps@).take(i + 1));
            i += 1;
        }
        assert(seg_views(comps@).take(i as int) =~= seg_views(comps@));
        return Ok(parts);
    }
    if !(v.len() > 0 && v[0] == '/') {
        return Err(concat(abs, " is not absolute"));
    }
    let comps = components_of(&v);
    if has_parent_component(&comps) {
        return Err(concat(abs, " is not normalized (contains ..)"));
    }
    if comps.len() == 0 {
        return Err(concat(abs, " cannot be mirrored (filesystem root)"));
    }
    Ok(comps)
}

/// Backup-root-relative mirror of an absolute path, written with the
/// platform's separator: `/home/u/a.txt` → `home/u/a.txt`, `C:\home\u\a.txt`
/// → `c\home\u\a.txt`. Different volumes get different tokens, and no mirror
/// holds a root or a drive, so it never escapes the backup root.
pub fn mirror_of(abs: &str, platform: Platform) -> (r: Result<String, String>)
    ensures
        r matches Ok(m) ==> spec_mirror(abs@, platform) == Ok::<Seq<char>, Seq<char>>(m@),
        r matches Err(e) ==> spec_mirror(abs@, platform) == Err::<Seq<char>, Seq<char>>(e@),
{
    match mirror_parts_of(abs, platform) {
        Ok(parts) => {
            let out = join_parts(&parts, false);
            if platform == Platform::Windows {
                let v = chars_of(abs);
                let (_, verb, _) = win_prefix_of(&v);
                if verb {
                    Ok(string_from(&swapped_all(&out)))
                } else {
                    Ok(string_from(&backslashed_all(&out)))
                }
            } else {
                Ok(string_from(&out))
            }
        },
        Err(e) => Err(e),
    }
}

/// The mirror of an absolute path as placed under the backup root, its
/// components joined by `/` (see [`spec_mirror_path`]).
pub fn mirror_path_of(abs: &str, platform: Platform) -> (r: Result<String, String>)
    ensures
        r matches Ok(m) ==> spec_mirror_path(abs@, platform) == Ok::<Seq<char>, Seq<char>>(m@),
        r matches Err(e) ==> spec_mirror_path(abs@, platform) == Err::<Seq<char>, Seq<char>>(e@),
{
    match mirror_parts_of(abs, platform) {
        Ok(parts) => Ok(string_from(&join_parts(&parts, false))),
        Err(e) => Err(e),
    }
}

/// The file name (last component) of `p`.
pub fn file_name(p: &str) -> (r: Result<String, String>)
    ensures
        r matches Ok(f) ==> spec_file_name(p@) == Some(f@),
        r matches Err(e) ==> spec_file_name(p@) is None && e@ == p@ + " has no file name"@,
{
    let v = chars_of(p);
    let comps = components_of(&v);
    let n = comps.len();
    if n > 0 && !is_parent(&comps[n - 1]) {
        let last = &comps[n - 1];
        Ok(string_from(last))
    } else {
        Err(concat(p, " has no file name"))
    }
}

/// The length of `trim_end(v[..n])`.
fn trimmed_len(v: &Vec<char>, n: usize) -> (r: usize)
    requires
        n <= v.len(),
    ensures
        r <= n,
        trim_end(v@.take(n as int)) == v@.take(r as int),
{
    let mut k = n;
    while k > 1 && (v[k - 1] == '/' || (v[k - 1] == '.' && v[k - 2] == '/'))
        invariant
            k <= n <= v.len(),
            trim_end(v@.take(n as int)) == trim_end(v@.take(k as int)),
        decreases k,
    {
        assert(v@.take(k as int).drop_last() =~= v@.take(k - 1));
        assert(v@.take(k as int).last() == v@[k - 1]);
        assert(v@.take(k as int)[k - 2] == v@[k - 2]);
        k -= 1;
    }
    k
}

/// The parent of `p`, cut from its text (see [`spec_parent`]).
pub fn parent_path(p: &str) -> (r: Option<String>)
    ensures
        r matches Some(q) ==> spec_parent(p@) == Some(q@),
        r is None ==> spec_parent(p@) is None,
{
    let v = chars_of(p);
    assert(v@.take(v.len() as int) =~= v@);
    let n = trimmed_len(&v, v.len());
    let ghost t = v@.take(n as int);
    if n == 0 || (n == 1 && v[0] == '/') {
        assert(n == 1 ==> t =~= seq!['/']);
        return None;
    }
    assert(t != seq!['/']) by {
        if t == seq!['/'] {
            assert(t.len() == 1);
            assert(t[0] == v@[0]);
        }
    }
    let mut j = n;
    assert(t.take(j as int) =~= t);
    while j > 0 && v[j - 1] != '/'
        invariant
            j <= n <= v.len(),
            t == v@.take(n as int),
            last_slash(t) == last_slash(t.take(j as int)),
        decreases j,
    {
        assert(t.take(j as int).drop_last() =~= t.take(j - 1));
        assert(t.take(j as int).last() == v@[j - 1]);
        j -= 1;
    }
    if j == 0 {
        assert(t.take(0) =~= Seq::<char>::empty());
        return Some(String::new());
    }
    assert(t.take(j as int).last() == v@[j - 1]);
    let i = j - 1;
    if i == 0 {
        let mut s = String::new();
        push_char(&mut s, '/');
        assert(s@ =~= seq!['/']);
        return Some(s);
    }
    assert(t.take(i as int) =~= v@.take(i as int));
    let k = trimmed_len(&v, i);
    Some(string_of(&v, 0, k))
}

/// `p` with its file name replaced by `name` (see [`spec_with_file_name`]).
pub fn with_file_name(p: &str, name: &str) -> (r: String)
    ensures
        r@ == spec_with_file_name(p@, name@),
{
    let parent = parent_path(p);
    match file_name(p) {
        Ok(_) => match parent {
            Some(q) => join_path(q.as_str(), name),
            None => join_path(p, name),
        },
        Err(_) => join_path(p, name),
    }
}

/// `note.txt` + `20260922` → `note.txt~20260922`
pub fn suffix_name(name: &str, suffix: &str) -> (r: String)
    ensures
        r@ == spec_suffix_name(name@, suffix@),
{
    let mut s = name.to_owned();
    push_char(&mut s, '~');
    s.append(suffix);
    s
}

/// Index of the last `~` in `v`, if any.
pub fn last_sep(v: &Vec<char>) -> (r: Option<usize>)
    ensures
        match r {
            Some(i) => last_sep_index(v@) == i as int,
            None => last_sep_index(v@) == -1,
        },
{
    let mut i = v.len();
    assert(v@.take(i as int) =~= v@);
    while i > 0
        invariant
            i <= v.len(),
            last_sep_index(v@) == last_sep_index(v@.take(i as int)),
        decreases i,
    {
        assert(v@.take(i as int).drop_last() =~= v@.take(i - 1));
        if v[i - 1] == '~' {
            return Some(i - 1);
        }
        i -= 1;
    }
    None
}

/// Inverse of [`suffix_name`] for a path: `sub/a~b~2026` → `sub/a~b`.
/// Names without `~` are returned unchanged.
pub fn strip_rel_suffix(rel: &str) -> (r: String)
    ensures
        r@ == spec_strip_rel_suffix(rel@),
{
    match file_name(rel) {
        Ok(f) => {
            let fv = chars_of(f.as_str());
            match last_sep(&fv) {
                Some(i) => {
                    proof {
                        lemma_last_sep_index_bounds(fv@);
                    }
                    let base = string_of(&fv, 0, i);
                    assert(base@ =~= f@.take(i as int));
                    with_file_name(rel, base.as_str())
                },
                None => rel.to_owned(),
            }
        },
        Err(_) => rel.to_owned(),
    }
}

} // verus!

verus! {

// ---------------------------------------------------------------------------
// Facts about segments and joins
// ---------------------------------------------------------------------------

/// A segment as produced by a join: real and free of separators.
pub open spec fn is_plain_segment(seg: Seq<char>) -> bool {
    is_real_segment(seg) && !seg.contains('/')
}

pub open spec fn all_plain(parts: Seq<Seq<char>>) -> bool {
    forall|i: int| 0 <= i < parts.len() ==> is_plain_segment(#[trigger] parts[i])
}

pub proof fn lemma_split_concat_sep(x: Seq<char>, y: Seq<char>)
    ensures
        split_segments(x + seq!['/'] + y) == split_segments(x) + split_segments(y),
    decreases y.len(),
{
    if y.len() == 0 {
        assert((x + seq!['/'] + y).drop_last() =~= x);
        assert(x + seq!['/'] + y =~= x.push('/'));
        assert(split_segments(x) + split_segments(y) =~= split_segments(x).push(Seq::empty()));
    } else {
        let y0 = y.drop_last();
        lemma_split_concat_sep(x, y0);
        assert((x + seq!['/'] + y).drop_last() =~= x + seq!['/'] + y0);
        assert((x + seq!['/'] + y).last() == y.last());
        lemma_split_nonempty(y0);
        lemma_split_nonempty(x);
        if y.last() == '/' {
            assert(split_segments(x) + split_segments(y) =~= (split_segments(x) + split_segments(
                y0,
            )).push(Seq::empty()));
        } else {
            let a = split_segments(x);
            let b = split_segments(y0);
            assert((a + b).update((a + b).len() - 1, (a + b).last().push(y.last())) =~= a + b.update(
                b.len() - 1,
                b.last().push(y.last()),
            ));
        }
    }
}

pub proof fn lemma_split_plain(seg: Seq<char>)
    requires
        !seg.contains('/'),
    ensures
        split_segments(seg) == seq![seg],
    decreases seg.len(),
{
    if seg.len() == 0 {
        assert(seg =~= Seq::<char>::empty());
        assert(split_segments(seg) =~= seq![seg]);
    } else {
        let s0 = seg.drop_last();
        assert(!s0.contains('/')) by {
            if s0.contains('/') {
                let k = choose|k: int| 0 <= k < s0.len() && s0[k] == '/';
                assert(seg[k] == '/');
            }
        }
        lemma_split_plain(s0);
        assert(seg[seg.len() - 1] != '/');
        assert(s0.push(seg.last()) =~= seg);
        assert(split_segments(s0).update(0, s0.push(seg.last())) =~= seq![seg]);
    }
}

pub proof fn lemma_real_concat(a: Seq<Seq<char>>, b: Seq<Seq<char>>)
    ensures
        real_segments(a + b) == real_segments(a) + real_segments(b),
    decreases b.len(),
{
    if b.len() == 0 {
        assert(a + b =~= a);
        assert(real_segments(a) + real_segments(b) =~= real_segments(a));
    } else {
        lemma_real_concat(a, b.drop_last());
        assert((a + b).drop_last() =~= a + b.drop_last());
        assert((a + b).last() == b.last());
        if is_real_segment(b.last()) {
            assert(real_segments(a) + real_segments(b) =~= (real_segments(a) + real_segments(
                b.drop_last(),
            )).push(b.last()));
        }
    }
}

pub proof fn lemma_real_single(x: Seq<char>)
    ensures
        real_segments(seq![x]) == (if is_real_segment(x) {
            seq![x]
        } else {
            Seq::<Seq<char>>::empty()
        }),
{
    assert(seq![x].drop_last() =~= Seq::<Seq<char>>::empty());
    assert(real_segments(Seq::<Seq<char>>::empty()) =~= Seq::<Seq<char>>::empty());
    assert(real_segments(seq![x].drop_last()) =~= Seq::<Seq<char>>::empty());
    assert(seq![x].last() == x);
    assert(Seq::<Seq<char>>::empty().push(x) =~= seq![x]);
}

/// The components of a join are the joined segments.
pub proof fn lemma_components_join(parts: Seq<Seq<char>>, root: bool)
    requires
        all_plain(parts),
    ensures
        components(rooted(root, join_segments(parts))) == parts,
        components(join_segments(parts)) == parts,
    decreases parts.len(),
{
    if parts.len() == 0 {
        assert(split_segments(Seq::<char>::empty()) =~= seq![Seq::<char>::empty()]);
        lemma_real_single(Seq::<char>::empty());
        assert(components(join_segments(parts)) =~= parts);
    } else if parts.len() == 1 {
        lemma_split_plain(parts[0]);
        lemma_real_single(parts[0]);
        assert(seq![parts[0]] =~= parts);
    } else {
        let init = parts.drop_last();
        assert(all_plain(init)) by {
            assert forall|i: int| 0 <= i < init.len() implies is_plain_segment(#[trigger] init[i]) by {
                assert(init[i] == parts[i]);
            }
        }
        lemma_components_join(init, false);
        assert(is_plain_segment(parts[parts.len() - 1]));
        lemma_split_concat_sep(join_segments(init), parts.last());
        lemma_split_plain(parts.last());
        lemma_real_concat(split_segments(join_segments(init)), seq![parts.last()]);
        lemma_real_single(parts.last());
        assert(init.push(parts.last()) =~= parts);
    }
    if root {
        assert(rooted(root, join_segments(parts)) =~= Seq::<char>::empty() + seq!['/']
            + join_segments(parts));
        lemma_split_concat_sep(Seq::<char>::empty(), join_segments(parts));
        lemma_real_concat(split_segments(Seq::<char>::empty()), split_segments(join_segments(parts)));
        assert(split_segments(Seq::<char>::empty()) =~= seq![Seq::<char>::empty()]);
        lemma_real_single(Seq::<char>::empty());
        assert(Seq::<Seq<char>>::empty() + parts =~= parts);
    }
}

} // verus!

verus! {

pub proof fn lemma_split_no_sep(s: Seq<char>)
    ensures
        forall|i: int| 0 <= i < split_segments(s).len() ==> !(#[trigger] split_segments(s)[i]).contains('/'),
    decreases s.len(),
{
    if s.len() > 0 {
        let prev = split_segments(s.drop_last());
        lemma_split_no_sep(s.drop_last());
        lemma_split_nonempty(s.drop_last());
        if s.last() != '/' {
            let l = prev.last().push(s.last());
            assert(!l.contains('/')) by {
                if l.contains('/') {
                    let k = choose|k: int| 0 <= k < l.len() && l[k] == '/';
                    if k < l.len() - 1 {
                        assert(prev.last()[k] == '/');
                        assert(prev[prev.len() - 1].contains('/'));
                    }
                }
            }
        }
        assert forall|i: int| 0 <= i < split_segments(s).len() implies !(
        #[trigger] split_segments(s)[i]).contains('/') by {
            if i < prev.len() && !(s.last() != '/' && i == prev.len() - 1) {
                assert(split_segments(s)[i] == prev[i]);
            }
        }
    }
}

pub proof fn lemma_real_plain(segs: Seq<Seq<char>>)
    requires
        forall|i: int| 0 <= i < segs.len() ==> !(#[trigger] segs[i]).contains('/'),
    ensures
        all_plain(real_segments(segs)),
    decreases segs.len(),
{
    if segs.len() > 0 {
        let init = segs.drop_last();
        assert forall|i: int| 0 <= i < init.len() implies !(#[trigger] init[i]).contains('/') by {
            assert(init[i] == segs[i]);
        }
        lemma_real_plain(init);
        assert(!segs[segs.len() - 1].contains('/'));
    }
}

/// Every component of a path is plain.
pub proof fn lemma_components_plain(p: Seq<char>)
    ensures
        all_plain(components(p)),
{
    lemma_split_no_sep(p);
    lemma_real_plain(split_segments(p));
}

/// Resolution keeps plain components and removes every `..`.
pub proof fn lemma_resolve_plain(comps: Seq<Seq<char>>, root: bool)
    requires
        all_plain(comps),
        resolve(comps, root) is Some,
    ensures
        all_plain(resolve(comps, root).unwrap()),
        forall|i: int|
            0 <= i < resolve(comps, root).unwrap().len() ==> !is_parent_segment(
                #[trigger] resolve(comps, root).unwrap()[i],
            ),
    decreases comps.len(),
{
    if comps.len() > 0 {
        let init = comps.drop_last();
        assert forall|i: int| 0 <= i < init.len() implies is_plain_segment(#[trigger] init[i]) by {
            assert(init[i] == comps[i]);
        }
        lemma_resolve_plain(init, root);
        let parts = resolve(init, root).unwrap();
        assert(is_plain_segment(comps[comps.len() - 1]));
        if is_parent_segment(comps.last()) {
            if parts.len() > 0 {
                let r = parts.drop_last();
                assert forall|i: int| 0 <= i < r.len() implies is_plain_segment(#[trigger] r[i])
                    && !is_parent_segment(r[i]) by {
                    assert(r[i] == parts[i]);
                }
            }
        } else {
            let r = parts.push(comps.last());
            assert forall|i: int| 0 <= i < r.len() implies is_plain_segment(#[trigger] r[i])
                && !is_parent_segment(r[i]) by {
                if i < parts.len() {
                    assert(r[i] == parts[i]);
                }
            }
        }
    }
}

/// Resolution of components holding no `..` changes nothing.
pub proof fn lemma_resolve_no_parent(comps: Seq<Seq<char>>, root: bool)
    requires
        forall|i: int| 0 <= i < comps.len() ==> !is_parent_segment(#[trigger] comps[i]),
    ensures
        resolve(comps, root) == Some(comps),
    decreases comps.len(),
{
    if comps.len() > 0 {
        let init = comps.drop_last();
        assert forall|i: int| 0 <= i < init.len() implies !is_parent_segment(#[trigger] init[i]) by {
            assert(init[i] == comps[i]);
        }
        lemma_resolve_no_parent(init, root);
        assert(!is_parent_segment(comps[comps.len() - 1]));
        assert(init.push(comps.last()) =~= comps);
    }
}

/// A join of plain segments starts with the first segment.
pub proof fn lemma_join_first(parts: Seq<Seq<char>>)
    requires
        parts.len() > 0,
        parts[0].len() > 0,
    ensures
        join_segments(parts).len() > 0,
        join_segments(parts)[0] == parts[0][0],
    decreases parts.len(),
{
    if parts.len() > 1 {
        let init = parts.drop_last();
        assert(init[0] == parts[0]);
        lemma_join_first(init);
    }
}

/// A join of plain segments ends with the last segment.
pub proof fn lemma_join_last(parts: Seq<Seq<char>>)
    requires
        parts.len() > 0,
        parts.last().len() > 0,
    ensures
        join_segments(parts).len() > 0,
        join_segments(parts).last() == parts.last().last(),
{
}

/// Normalization is idempotent: a normalized path is its own normal form.
pub proof fn law_normalize_idempotent(p: Seq<char>)
    requires
        spec_normalize(p) is Some,
    ensures
        spec_normalize(spec_normalize(p).unwrap()) == spec_normalize(p),
{
    let root = is_absolute(p);
    lemma_components_plain(p);
    lemma_resolve_plain(components(p), root);
    let parts = resolve(components(p), root).unwrap();
    let n = spec_normalize(p).unwrap();
    lemma_components_join(parts, root);
    if root {
        assert(is_absolute(n));
    } else {
        assert(parts.len() > 0);
        assert(is_plain_segment(parts[0]));
        lemma_join_first(parts);
        assert(!is_absolute(n));
    }
    lemma_resolve_no_parent(parts, root);
}

/// Relative to an absolute working directory, every normalized path is
/// absolute.
pub proof fn law_absolute_normalized_is_absolute(path: Seq<char>, cwd: Seq<char>)
    requires
        is_absolute(cwd),
        spec_absolute_normalized(path, cwd, Platform::Unix) is Some,
    ensures
        is_absolute(spec_absolute_normalized(path, cwd, Platform::Unix).unwrap()),
{
    let joined = if is_absolute(path) {
        path
    } else {
        spec_join_path(cwd, path)
    };
    assert(is_absolute(joined));
}

/// A normalized absolute path is mirrored by dropping its leading `/`; the
/// root itself has no mirror.
pub proof fn law_mirror_strips_root(n: Seq<char>)
    requires
        is_absolute(n),
        spec_normalize(n) == Some(n),
    ensures
        n.len() == 1 ==> spec_mirror(n, Platform::Unix) == Err::<Seq<char>, Seq<char>>(
            n + " cannot be mirrored (filesystem root)"@,
        ),
        n.len() > 1 ==> spec_mirror(n, Platform::Unix) == Ok::<Seq<char>, Seq<char>>(n.drop_first()),
{
    lemma_components_plain(n);
    lemma_resolve_plain(components(n), true);
    let parts = resolve(components(n), true).unwrap();
    lemma_components_join(parts, true);
    assert(n == seq!['/'] + join_segments(parts));
    assert(components(n) == parts);
    assert(n.drop_first() =~= join_segments(parts));
    if parts.len() > 0 {
        assert(is_plain_segment(parts[parts.len() - 1]));
        lemma_join_last(parts);
    }
    assert(!exists|i: int|
        0 <= i < components(n).len() && is_parent_segment(#[trigger] components(n)[i]));
}

/// Distinct normalized absolute paths never share a mirror, so sources with
/// the same base name in different directories keep separate backups.
pub proof fn law_mirror_injective(a: Seq<char>, b: Seq<char>)
    requires
        is_absolute(a),
        is_absolute(b),
        spec_normalize(a) == Some(a),
        spec_normalize(b) == Some(b),
        spec_mirror(a, Platform::Unix) is Ok,
        spec_mirror(a, Platform::Unix) == spec_mirror(b, Platform::Unix),
    ensures
        a == b,
{
    law_mirror_strips_root(a);
    law_mirror_strips_root(b);
    assert(a =~= seq!['/'] + a.drop_first());
    assert(b =~= seq!['/'] + b.drop_first());
}

} // verus!

verus! {

/// A path written in its canonical form: root (if any) followed by its
/// components joined by single `/`.
pub open spec fn is_clean_path(p: Seq<char>) -> bool {
    p == rooted(is_absolute(p), join_segments(components(p)))
}

/// The suffix separator found last in `name~suffix` is the one just after
/// `name`, whenever the suffix holds no `~`.
pub proof fn law_suffix_name_last_sep(name: Seq<char>, suffix: Seq<char>)
    requires
        !suffix.contains(sep_char()),
    ensures
        last_sep_index(spec_suffix_name(name, suffix)) == name.len(),
        spec_suffix_name(name, suffix).take(name.len() as int) == name,
    decreases suffix.len(),
{
    let full = spec_suffix_name(name, suffix);
    if suffix.len() > 0 {
        let s0 = suffix.drop_last();
        assert(!s0.contains(sep_char())) by {
            if s0.contains(sep_char()) {
                let k = choose|k: int| 0 <= k < s0.len() && s0[k] == sep_char();
                assert(suffix[k] == sep_char());
            }
        }
        law_suffix_name_last_sep(name, s0);
        assert(full.drop_last() =~= spec_suffix_name(name, s0));
        assert(full.last() == suffix[suffix.len() - 1]);
    } else {
        assert(full.last() == sep_char());
    }
    assert(full.take(name.len() as int) =~= name);
}

/// Joining a plain segment onto a clean path extends its components.
pub proof fn lemma_join_path_rooted(q: Seq<Seq<char>>, root: bool, x: Seq<char>)
    requires
        all_plain(q),
        is_plain_segment(x),
    ensures
        spec_join_path(rooted(root, join_segments(q)), x) == rooted(root, join_segments(q.push(x))),
{
    assert(x[0] != '/');
    assert(q.push(x).drop_last() =~= q);
    if q.len() == 0 {
        assert(q.push(x) =~= seq![x]);
        if root {
            assert(rooted(root, join_segments(q)) =~= seq!['/']);
        } else {
            assert(rooted(root, join_segments(q)) =~= Seq::<char>::empty());
            assert(Seq::<char>::empty() + x =~= x);
        }
    } else {
        assert(is_plain_segment(q[q.len() - 1]));
        lemma_join_last(q);
        let j = join_segments(q);
        assert(j.last() != '/');
        if root {
            assert(rooted(root, j).last() == j.last());
            assert(rooted(root, j) + seq!['/'] + x =~= rooted(root, j + seq!['/'] + x));
        }
    }
}

/// Stripping the suffix from a suffixed file name gives back the original
/// path: `strip_rel_suffix` undoes `with_file_name(p, suffix_name(name, s))`
/// for every clean path `p` and every suffix without `~` or `/`.
pub proof fn law_strip_undoes_suffix(p: Seq<char>, suffix: Seq<char>)
    requires
        is_clean_path(p),
        spec_file_name(p) is Some,
        !suffix.contains(sep_char()),
        !suffix.contains('/'),
    ensures
        spec_strip_rel_suffix(
            spec_with_file_name(p, spec_suffix_name(spec_file_name(p).unwrap(), suffix)),
        ) == p,
{
    let c = components(p);
    let abs = is_absolute(p);
    let f = c.last();
    lemma_components_plain(p);
    assert(is_plain_segment(c[c.len() - 1]));
    let x = spec_suffix_name(f, suffix);
    law_suffix_name_last_sep(f, suffix);
    assert(!x.contains('/')) by {
        if x.contains('/') {
            let k = choose|k: int| 0 <= k < x.len() && x[k] == '/';
            if k < f.len() {
                assert(f[k] == '/');
            } else if k > f.len() {
                assert(suffix[k - f.len() - 1] == '/');
            }
        }
    }
    assert(x[f.len() as int] == sep_char());
    assert(x.len() >= 2);
    assert(is_plain_segment(x));
    let init = c.drop_last();
    assert(all_plain(init)) by {
        assert forall|i: int| 0 <= i < init.len() implies is_plain_segment(#[trigger] init[i]) by {
            assert(init[i] == c[i]);
        }
    }
    // Replacing the file name by `x`.
    lemma_components_join(c, abs);
    lemma_parent_clean(c, abs);
    lemma_join_path_rooted(init, abs, x);
    let c2 = init.push(x);
    let new = rooted(abs, join_segments(c2));
    assert(all_plain(c2)) by {
        assert forall|i: int| 0 <= i < c2.len() implies is_plain_segment(#[trigger] c2[i]) by {
            if i < init.len() {
                assert(c2[i] == init[i]);
            }
        }
    }
    lemma_components_join(c2, abs);
    assert(components(new) == c2);
    if !abs {
        lemma_join_first(c2);
    }
    assert(is_absolute(new) == abs);
    assert(c2.last() == x);
    assert(!is_parent_segment(x));
    assert(spec_file_name(new) == Some(x));
    assert(c2.drop_last() =~= init);
    lemma_parent_clean(c2, abs);
    // Cutting `x` at its last `~` gives back `f`.
    lemma_join_path_rooted(init, abs, f);
    assert(init.push(f) =~= c);
}

} // verus!

verus! {

pub proof fn lemma_resolve_rooted_some(comps: Seq<Seq<char>>)
    ensures
        resolve(comps, true) is Some,
    decreases comps.len(),
{
    if comps.len() > 0 {
        lemma_resolve_rooted_some(comps.drop_last());
    }
}

/// Every absolute path has a normal form: excess `..` clamps at `/`
/// instead of escaping.
pub proof fn law_absolute_always_normalizes(p: Seq<char>)
    requires
        is_absolute(p),
    ensures
        spec_normalize(p) is Some,
{
    lemma_resolve_rooted_some(components(p));
}

/// Components of `base` joined with a relative path are those of `base`
/// followed by those of the path.
pub proof fn lemma_components_join_path(base: Seq<char>, rel: Seq<char>)
    requires
        !is_absolute(rel),
    ensures
        components(spec_join_path(base, rel)) == components(base) + components(rel),
{
    if base.len() > 0 && base.last() != '/' {
        lemma_split_concat_sep(base, rel);
        lemma_real_concat(split_segments(base), split_segments(rel));
    } else if base.len() > 0 {
        let b0 = base.drop_last();
        assert(base =~= b0 + seq!['/'] + Seq::<char>::empty());
        assert(base + rel =~= b0 + seq!['/'] + rel);
        lemma_split_concat_sep(b0, rel);
        lemma_split_concat_sep(b0, Seq::<char>::empty());
        lemma_real_concat(split_segments(b0), split_segments(rel));
        lemma_real_concat(split_segments(b0), split_segments(Seq::<char>::empty()));
        assert(split_segments(Seq::<char>::empty()) =~= seq![Seq::<char>::empty()]);
        lemma_real_single(Seq::<char>::empty());
        assert(components(base) =~= real_segments(split_segments(b0)));
    } else {
        assert(split_segments(Seq::<char>::empty()) =~= seq![Seq::<char>::empty()]);
        lemma_real_single(Seq::<char>::empty());
        assert(base + rel =~= rel);
        assert(components(base) =~= Seq::<Seq<char>>::empty());
        assert(components(base) + components(rel) =~= components(rel));
    }
}

/// A `/`-free tail does not move the last separator.
pub proof fn lemma_last_slash_append(a: Seq<char>, f: Seq<char>)
    requires
        !f.contains('/'),
    ensures
        last_slash(a + f) == last_slash(a),
    decreases f.len(),
{
    if f.len() == 0 {
        assert(a + f =~= a);
    } else {
        assert((a + f).last() == f.last());
        assert(f.contains(f.last()) || true);
        assert(f[f.len() - 1] != '/');
        assert((a + f).drop_last() =~= a + f.drop_last());
        assert(!f.drop_last().contains('/')) by {
            if f.drop_last().contains('/') {
                let k = choose|k: int| 0 <= k < f.drop_last().len() && f.drop_last()[k] == '/';
                assert(f[k] == '/');
            }
        }
        lemma_last_slash_append(a, f.drop_last());
    }
}

/// A clean path is its text followed by its last component.
pub proof fn lemma_clean_split(c: Seq<Seq<char>>, root: bool)
    requires
        c.len() > 0,
    ensures
        c.len() == 1 ==> rooted(root, join_segments(c)) == rooted(root, Seq::<char>::empty())
            + c.last(),
        c.len() > 1 ==> rooted(root, join_segments(c)) == rooted(
            root,
            join_segments(c.drop_last()),
        ) + seq!['/'] + c.last(),
{
    if c.len() == 1 {
        assert(rooted(root, join_segments(c)) =~= rooted(root, Seq::<char>::empty()) + c.last());
    } else {
        assert(rooted(root, join_segments(c)) =~= rooted(root, join_segments(c.drop_last()))
            + seq!['/'] + c.last());
    }
}

/// A clean path has nothing to trim at its end.
pub proof fn lemma_trim_end_clean(c: Seq<Seq<char>>, root: bool)
    requires
        c.len() > 0,
        all_plain(c),
    ensures
        trim_end(rooted(root, join_segments(c))) == rooted(root, join_segments(c)),
{
    let p = rooted(root, join_segments(c));
    let f = c.last();
    assert(is_plain_segment(c[c.len() - 1]));
    lemma_clean_split(c, root);
    let a = if c.len() == 1 {
        rooted(root, Seq::<char>::empty())
    } else {
        rooted(root, join_segments(c.drop_last())) + seq!['/']
    };
    assert(p =~= a + f);
    assert(p.last() == f[f.len() - 1]);
    assert(f[f.len() - 1] != '/');
    if p.last() == '.' && p.len() > 1 {
        if f.len() == 1 {
            assert(f =~= seq!['.']);
        }
        assert(f.len() >= 2);
        assert(p[p.len() - 2] == f[f.len() - 2]);
        assert(f[f.len() - 2] != '/');
    }
}

/// The parent of a clean path with a component is the clean path of the
/// other components.
pub proof fn lemma_parent_clean(c: Seq<Seq<char>>, root: bool)
    requires
        c.len() > 0,
        all_plain(c),
    ensures
        spec_parent(rooted(root, join_segments(c))) == Some(
            rooted(root, join_segments(c.drop_last())),
        ),
{
    let p = rooted(root, join_segments(c));
    let f = c.last();
    assert(is_plain_segment(c[c.len() - 1]));
    lemma_trim_end_clean(c, root);
    lemma_clean_split(c, root);
    assert(p.last() == f[f.len() - 1]);
    assert(p != seq!['/']);
    if c.len() == 1 {
        lemma_last_slash_append(rooted(root, Seq::<char>::empty()), f);
        assert(p =~= rooted(root, Seq::<char>::empty()) + f);
        if root {
            assert(last_slash(seq!['/']) == 0);
            assert(rooted(root, Seq::<char>::empty()) =~= seq!['/']);
        } else {
            assert(rooted(root, Seq::<char>::empty()) =~= Seq::<char>::empty());
        }
        assert(c.drop_last() =~= Seq::<Seq<char>>::empty());
        assert(rooted(root, join_segments(c.drop_last())) =~= rooted(root, Seq::<char>::empty()));
    } else {
        let init = c.drop_last();
        let q = rooted(root, join_segments(init));
        assert(all_plain(init)) by {
            assert forall|i: int| 0 <= i < init.len() implies is_plain_segment(#[trigger] init[i]) by {
                assert(init[i] == c[i]);
            }
        }
        assert(p =~= (q + seq!['/']) + f);
        lemma_last_slash_append(q + seq!['/'], f);
        assert(last_slash(q + seq!['/']) == q.len());
        assert(is_plain_segment(init[0]));
        lemma_join_first(init);
        assert(q.len() > 0);
        assert(p.take(q.len() as int) =~= q);
        lemma_trim_end_clean(init, root);
    }
}

/// Giving a clean relative path a suffixed file name and placing it under
/// any directory yields a file named `<name>~<suffix>`: every file backed up
/// in one run carries the run's suffix.
pub proof fn law_suffixed_destination_name(target: Seq<char>, rel: Seq<char>, suffix: Seq<char>)
    requires
        is_clean_path(rel),
        !is_absolute(rel),
        spec_file_name(rel) is Some,
        !suffix.contains('/'),
    ensures
        spec_file_name(
            spec_join_path(
                target,
                spec_with_file_name(rel, spec_suffix_name(spec_file_name(rel).unwrap(), suffix)),
            ),
        ) == Some(spec_suffix_name(spec_file_name(rel).unwrap(), suffix)),
{
    let c = components(rel);
    let f = c.last();
    lemma_components_plain(rel);
    assert(is_plain_segment(c[c.len() - 1]));
    let x = spec_suffix_name(f, suffix);
    assert(!x.contains('/')) by {
        if x.contains('/') {
            let k = choose|k: int| 0 <= k < x.len() && x[k] == '/';
            if k < f.len() {
                assert(f[k] == '/');
            } else if k > f.len() {
                assert(suffix[k - f.len() - 1] == '/');
            }
        }
    }
    assert(x[f.len() as int] == sep_char());
    assert(is_plain_segment(x));
    let init = c.drop_last();
    assert(all_plain(init)) by {
        assert forall|i: int| 0 <= i < init.len() implies is_plain_segment(#[trigger] init[i]) by {
            assert(init[i] == c[i]);
        }
    }
    assert(is_clean_path(rel));
    lemma_parent_clean(c, false);
    lemma_join_path_rooted(init, false, x);
    let c2 = init.push(x);
    assert(all_plain(c2)) by {
        assert forall|i: int| 0 <= i < c2.len() implies is_plain_segment(#[trigger] c2[i]) by {
            if i < init.len() {
                assert(c2[i] == init[i]);
            }
        }
    }
    let y = join_segments(c2);
    lemma_components_join(c2, false);
    lemma_join_first(c2);
    assert(!is_absolute(y));
    lemma_components_join_path(target, y);
    let all = components(target) + c2;
    assert(all.last() == x);
    assert(!is_parent_segment(x));
}

} // verus!

verus! {

/// Under Windows rules, relative to a working directory with a drive, every
/// normalized path without a prefix of another kind keeps a drive: the
/// working directory's unless the path names its own.
pub proof fn law_windows_normalized_keeps_drive(path: Seq<char>, cwd: Seq<char>)
    requires
        has_drive(cwd),
        has_drive(path) || win_prefix(path).0 == 0,
        spec_absolute_normalized(path, cwd, Platform::Windows) is Some,
    ensures
        has_drive(spec_absolute_normalized(path, cwd, Platform::Windows).unwrap()),
        spec_absolute_normalized(path, cwd, Platform::Windows).unwrap().take(2) == (if has_drive(
            path,
        ) {
            path.take(2)
        } else {
            cwd.take(2)
        }),
{
    assert(win_prefix(cwd) == (2int, false, true));
    let j = spec_win_joined(path, cwd);
    if has_drive(path) {
        assert(win_prefix(path).0 == 2);
        assert(j == path);
    } else {
        assert(j[0] == cwd[0] && j[1] == cwd[1]);
        assert(j.take(2) =~= cwd.take(2));
    }
    assert(has_drive(j));
    assert(win_prefix(j) == (2int, false, true));
    let n = spec_absolute_normalized(path, cwd, Platform::Windows).unwrap();
    assert(n.take(2) =~= j.take(2));
    assert(n[0] == j.take(2)[0] && n[1] == j.take(2)[1]);
}

/// Under Unix rules the working directory only matters for relative
/// paths: an absolute path normalizes the same way against every one.
pub proof fn law_absolute_ignores_cwd(p: Seq<char>, c1: Seq<char>, c2: Seq<char>)
    requires
        is_absolute(p),
    ensures
        spec_absolute_normalized(p, c1, Platform::Unix) == spec_absolute_normalized(
            p,
            c2,
            Platform::Unix,
        ),
{
}

/// Under Unix rules an absolute normalized path is its own normal form
/// against every working directory: normalizing twice changes nothing.
pub proof fn law_normalized_is_fixed_point(p: Seq<char>, c1: Seq<char>, c2: Seq<char>)
    requires
        spec_absolute_normalized(p, c1, Platform::Unix) is Some,
        is_absolute(spec_absolute_normalized(p, c1, Platform::Unix).unwrap()),
    ensures
        spec_absolute_normalized(
            spec_absolute_normalized(p, c1, Platform::Unix).unwrap(),
            c2,
            Platform::Unix,
        ) == spec_absolute_normalized(p, c1, Platform::Unix),
{
    let j = if is_absolute(p) {
        p
    } else {
        spec_join_path(c1, p)
    };
    law_normalize_idempotent(j);
}

} // verus!

verus! {

/// A trailing `/` or `/.` adds no component.
pub proof fn lemma_components_tail(a: Seq<char>, tail: Seq<char>)
    requires
        tail == Seq::<char>::empty() || tail == seq!['.'],
    ensures
        components(a + seq!['/'] + tail) == components(a),
{
    lemma_split_concat_sep(a, tail);
    lemma_real_concat(split_segments(a), split_segments(tail));
    lemma_split_plain(tail);
    lemma_real_single(tail);
    assert(real_segments(split_segments(a)) + Seq::<Seq<char>>::empty() =~= real_segments(
        split_segments(a),
    ));
}

/// Trimming the end of a path keeps its components.
pub proof fn lemma_components_trim_end(s: Seq<char>)
    ensures
        components(trim_end(s)) == components(s),
    decreases s.len(),
{
    if s.len() > 1 && s.last() == '/' {
        lemma_components_trim_end(s.drop_last());
        let a = s.drop_last();
        assert(s =~= a + seq!['/'] + Seq::<char>::empty());
        lemma_components_tail(a, Seq::<char>::empty());
    } else if s.len() > 1 && s.last() == '.' && s[s.len() - 2] == '/' {
        lemma_components_trim_end(s.drop_last());
        let a = s.drop_last().drop_last();
        assert(s =~= a + seq!['/'] + seq!['.']);
        assert(s.drop_last() =~= a + seq!['/'] + Seq::<char>::empty());
        lemma_components_tail(a, seq!['.']);
        lemma_components_tail(a, Seq::<char>::empty());
    }
}

/// The components of a path with a plain last segment appended.
pub proof fn lemma_components_append_plain(d: Seq<char>, x: Seq<char>)
    requires
        is_plain_segment(x),
    ensures
        components(spec_join_path(d, x)) == components(d).push(x),
        !is_absolute(x),
{
    assert(x[0] != '/');
    lemma_components_join_path(d, x);
    lemma_split_plain(x);
    lemma_real_single(x);
    assert(components(x) =~= seq![x]);
    assert(components(d) + seq![x] =~= components(d).push(x));
}

/// Stripping the suffix undoes adding it below any directory, up to how
/// the directory is spelled: below `d`, the file `name~suffix` loses its
/// suffix and names the same components as `d` joined with `name` — even
/// when `name` holds a `~` itself.
pub proof fn law_strip_undoes_suffix_anywhere(d: Seq<char>, name: Seq<char>, suffix: Seq<char>)
    requires
        is_plain_segment(name),
        !suffix.contains(sep_char()),
        !suffix.contains('/'),
    ensures
        components(spec_strip_rel_suffix(spec_join_path(d, spec_suffix_name(name, suffix))))
            == components(spec_join_path(d, name)),
{
    let x = spec_suffix_name(name, suffix);
    law_suffix_name_last_sep(name, suffix);
    assert(!x.contains('/')) by {
        if x.contains('/') {
            let k = choose|k: int| 0 <= k < x.len() && x[k] == '/';
            if k < name.len() {
                assert(name[k] == '/');
            } else if k > name.len() {
                assert(suffix[k - name.len() - 1] == '/');
            }
        }
    }
    assert(x[name.len() as int] == sep_char());
    assert(is_plain_segment(x));
    let p = spec_join_path(d, x);
    lemma_components_append_plain(d, x);
    lemma_components_append_plain(d, name);
    assert(components(p).last() == x);
    assert(spec_file_name(p) == Some(x));
    assert(x.take(last_sep_index(x)) == name);
    // The parent of `p`, cut from its text, names the components of `d`.
    let a = if d.len() > 0 && d.last() != '/' {
        d + seq!['/']
    } else {
        d
    };
    assert(p =~= a + x);
    assert(x.len() >= 2);
    assert(p.last() == x[x.len() - 1]);
    assert(p[p.len() - 2] == x[x.len() - 2]);
    assert(trim_end(p) == p);
    lemma_last_slash_append(a, x);
    let q = spec_parent(p).unwrap();
    assert(spec_parent(p) is Some) by {
        assert(p != seq!['/']) by {
            if p == seq!['/'] {
                assert(p.len() == 1);
            }
        }
    }
    assert(components(q) == components(d)) by {
        if a.len() == 0 {
            assert(last_slash(a) == -1);
            assert(q == Seq::<char>::empty());
            assert(d =~= Seq::<char>::empty());
        } else {
            assert(a.last() == '/');
            assert(last_slash(a) == a.len() - 1);
            let i = a.len() - 1;
            let b = a.take(i);
            assert(a =~= b + seq!['/'] + Seq::<char>::empty());
            lemma_components_tail(b, Seq::<char>::empty());
            if d.len() > 0 && d.last() != '/' {
                assert(b =~= d);
            } else {
                assert(b + seq!['/'] + Seq::<char>::empty() =~= d);
            }
            if i == 0 {
                assert(q == seq!['/']);
                assert(b =~= Seq::<char>::empty());
                assert(seq!['/'] =~= Seq::<char>::empty() + seq!['/'] + Seq::<char>::empty());
                lemma_components_tail(Seq::<char>::empty(), Seq::<char>::empty());
            } else {
                assert(p.take(i) =~= b);
                lemma_components_trim_end(b);
            }
        }
    }
    assert(spec_with_file_name(p, name) == spec_join_path(q, name));
    lemma_components_append_plain(q, name);
}

} // verus!

verus! {

/// A backup name is the original name, `~`, and the suffix.
pub proof fn law_suffix_name_format(name: Seq<char>, suffix: Seq<char>)
    ensures
        spec_suffix_name(name, suffix) == name + seq!['~'] + suffix,
        spec_suffix_name(name, suffix).len() == name.len() + 1 + suffix.len(),
{
}

} // verus!
