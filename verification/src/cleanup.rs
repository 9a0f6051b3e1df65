//! Cleanup decisions (`-c`): retention by age, version count, or orphans.
//!
//! All criteria operate on the backup artifacts belonging to the given
//! original path. Age is based on artifact mtime (≈ backup creation time);
//! versions are ranked by name in the path order — the same "latest =
//! greatest suffix" rule that restore uses. The functions here decide what is
//! removed; the caller performs the removals in the order given.

use vstd::prelude::*;
use vstd::multiset::Multiset;
use vstd::relations::*;

use crate::naming::{parent_path, spec_parent, spec_strip_rel_suffix, strip_rel_suffix};
use crate::text::{
    lemma_path_lt_connected, lemma_path_lt_irreflexive,
    lemma_path_lt_transitive, lemma_path_order_total, lemma_strictly_sorted_unique, path_less,
    path_lt, path_order, path_strict_order, reversed, same_text, sort_dedup_paths, sort_paths,
    views,
};

verus! {

broadcast use {vstd::seq_lib::group_to_multiset_ensures, vstd::multiset::group_multiset_axioms};

/// Versions kept by [`Criterion::Keep`] when `--keep` is given without a value.
pub const DEFAULT_KEEP: u64 = 5;

#[derive(Debug, Clone, Copy, PartialEq, Eq, Structural)]
pub enum Criterion {
    /// Delete backups older than N days (by artifact mtime).
    Days(u64),
    /// Keep only the newest N versions per item, delete the rest.
    Keep(u64),
    /// Delete all backups belonging to a source path that no longer exists.
    Orphan,
}

/// Backup artifacts of one original path.
pub struct Artifacts {
    /// Direct entries of the mirror's directory matching `<name>~<suffix>`
    /// (single-file or whole-directory backups), in path order, each with
    /// whether it is a directory.
    pub flat: Vec<(String, bool)>,
    /// Per-file artifacts (absolute, relative) under the recursive layout.
    pub per_file: Vec<(String, String)>,
    /// The recursive layout root, if it exists.
    pub layout: Option<String>,
}

/// A point in time: seconds and nanoseconds since the Unix epoch.
#[derive(Debug, Clone, Copy, PartialEq, Eq, Structural)]
pub struct Timestamp {
    pub secs: i64,
    pub nanos: u32,
}

/// `a` is earlier than `b` (seconds first, then nanoseconds).
pub open spec fn earlier(a: Timestamp, b: Timestamp) -> bool {
    a.secs < b.secs || (a.secs == b.secs && a.nanos < b.nanos)
}

/// Seconds covered by `days` days, saturating at `u64::MAX`.
pub open spec fn day_seconds(days: u64) -> int {
    if days * 86_400 > u64::MAX {
        u64::MAX as int
    } else {
        days * 86_400
    }
}

/// `now` moved back by `days` days, or the epoch when that moment cannot be
/// represented (seconds below `i64::MIN`).
pub open spec fn spec_stale_cutoff(now: Timestamp, days: u64) -> Timestamp {
    if now.secs - day_seconds(days) >= i64::MIN {
        Timestamp { secs: (now.secs - day_seconds(days)) as i64, nanos: now.nanos }
    } else {
        Timestamp { secs: 0, nanos: 0 }
    }
}

/// The cutoff for `--days N`: artifacts modified before it are stale.
pub fn stale_cutoff(now: Timestamp, days: u64) -> (r: Timestamp)
    ensures
        r == spec_stale_cutoff(now, days),
{
    let d: u64 = if days > u64::MAX / 86_400 {
        u64::MAX
    } else {
        days * 86_400
    };
    assert(d == day_seconds(days)) by (nonlinear_arith)
        requires
            d == (if days > u64::MAX / 86_400 {
                u64::MAX as int
            } else {
                days * 86_400
            }),
    ;
    let s: i128 = now.secs as i128 - d as i128;
    if s >= i64::MIN as i128 {
        Timestamp { secs: s as i64, nanos: now.nanos }
    } else {
        Timestamp { secs: 0, nanos: 0 }
    }
}

/// An artifact is stale when its modification time is known and earlier
/// than the cutoff.
pub fn is_stale(modified: Option<Timestamp>, cutoff: Timestamp) -> (r: bool)
    ensures
        r == (modified matches Some(t) && earlier(t, cutoff)),
{
    match modified {
        Some(t) => t.secs < cutoff.secs || (t.secs == cutoff.secs && t.nanos < cutoff.nanos),
        None => false,
    }
}

/// `--days 0` removes every artifact whose modification time is known and
/// lies before the present moment.
pub proof fn law_zero_days_removes_everything_older(now: Timestamp, t: Timestamp)
    ensures
        spec_stale_cutoff(now, 0) == now,
        earlier(t, spec_stale_cutoff(now, 0)) == earlier(t, now),
{
    assert(day_seconds(0) == 0);
}

/// A longer window removes less: whatever `--days d2` removes, `--days d1`
/// removes too when `d1 <= d2`, as long as the longer window's cutoff can
/// be represented (it falls back to the epoch otherwise).
pub proof fn law_longer_window_removes_less(now: Timestamp, t: Timestamp, d1: u64, d2: u64)
    requires
        d1 <= d2,
        now.secs - day_seconds(d2) >= i64::MIN,
    ensures
        earlier(t, spec_stale_cutoff(now, d2)) ==> earlier(t, spec_stale_cutoff(now, d1)),
{
    assert(d1 * 86_400 <= d2 * 86_400) by (nonlinear_arith)
        requires
            d1 <= d2,
    ;
    assert(day_seconds(d1) <= day_seconds(d2));
}

/// "Earlier" is a strict total order on time stamps: nothing is earlier
/// than itself, of two different stamps exactly one is earlier, and it is
/// transitive — so an artifact modified exactly at the cutoff is kept.
pub proof fn law_earlier_is_a_strict_order(a: Timestamp, b: Timestamp, c: Timestamp)
    ensures
        !earlier(a, a),
        earlier(a, b) ==> !earlier(b, a),
        a != b ==> earlier(a, b) || earlier(b, a),
        earlier(a, b) && earlier(b, c) ==> earlier(a, c),
{
}

/// `--days d` moves the present back by exactly `d` days of 86,400
/// seconds, keeping the fraction, whenever that moment can be represented.
pub proof fn law_cutoff_is_days_before_now(now: Timestamp, days: u64)
    requires
        now.secs - days * 86_400 >= i64::MIN,
    ensures
        spec_stale_cutoff(now, days) == (Timestamp {
            secs: (now.secs - days * 86_400) as i64,
            nanos: now.nanos,
        }),
{
    assert(days * 86_400 <= u64::MAX) by (nonlinear_arith)
        requires
            now.secs - days * 86_400 >= i64::MIN,
            now.secs <= i64::MAX,
    ;
}

/// The versions of one item removed when keeping `keep`: all but the `keep`
/// greatest, in the path order.
pub open spec fn doomed(versions: Seq<Seq<char>>, keep: int) -> Seq<Seq<char>> {
    if versions.len() <= keep {
        Seq::empty()
    } else {
        versions.sort_by(path_order()).take(versions.len() - keep)
    }
}

/// The versions of one item that survive when keeping `keep`, ascending.
pub open spec fn survivors(versions: Seq<Seq<char>>, keep: int) -> Seq<Seq<char>> {
    if versions.len() <= keep {
        versions.sort_by(path_order())
    } else {
        versions.sort_by(path_order()).skip(versions.len() - keep)
    }
}

/// Sort versions ascending (oldest = smallest name) and remove all but the
/// newest `keep` from `versions`. Returns the removed ones, oldest first.
pub fn trim_versions(versions: &mut Vec<String>, keep: u64) -> (r: Vec<String>)
    ensures
        views(r@) == doomed(views(old(versions)@), keep as int),
        views(final(versions)@) == survivors(views(old(versions)@), keep as int),
        r@.to_multiset().add(final(versions)@.to_multiset()) == old(versions)@.to_multiset(),
{
    let n = versions.len();
    let mut all: Vec<String> = Vec::new();
    std::mem::swap(&mut all, versions);
    assert(all@ == old(versions)@);
    let mut sorted = sort_paths(all);
    if (n as u128) <= (keep as u128) {
        *versions = sorted;
        let r: Vec<String> = Vec::new();
        assert(r@.to_multiset() =~= Multiset::<String>::empty());
        assert(views(r@) =~= Seq::<Seq<char>>::empty());
        assert(r@.to_multiset().add(versions@.to_multiset()) =~= versions@.to_multiset());
        return r;
    }
    let cut: usize = n - (keep as usize);
    let ghost full = sorted@;
    let kept = sorted.split_off(cut);
    *versions = kept;
    proof {
        let s = views(old(versions)@).sort_by(path_order());
        assert(views(sorted@) =~= s.take(cut as int));
        assert(views(versions@) =~= s.skip(cut as int));
        assert(sorted@ + versions@ =~= full);
        vstd::seq_lib::lemma_multiset_commutative(sorted@, versions@);
    }
    sorted
}

/// Views of (absolute, relative) path pairs.
pub open spec fn pair_views(s: Seq<(String, String)>) -> Seq<(Seq<char>, Seq<char>)> {
    s.map_values(|p: (String, String)| (p.0@, p.1@))
}

/// Views of (path, is-directory) entries.
pub open spec fn flat_views(s: Seq<(String, bool)>) -> Seq<(Seq<char>, bool)> {
    s.map_values(|p: (String, bool)| (p.0@, p.1))
}

/// The absolute paths of the per-file artifacts whose relative path, with the
/// suffix stripped, is `key` — in their original order.
pub open spec fn group_members(per_file: Seq<(Seq<char>, Seq<char>)>, key: Seq<char>) -> Seq<
    Seq<char>,
>
    decreases per_file.len(),
{
    if per_file.len() == 0 {
        Seq::empty()
    } else {
        let prev = group_members(per_file.drop_last(), key);
        if spec_strip_rel_suffix(per_file.last().1) == key {
            prev.push(per_file.last().0)
        } else {
            prev
        }
    }
}

/// Some per-file artifact belongs to the item `key`.
pub open spec fn has_key(per_file: Seq<(Seq<char>, Seq<char>)>, key: Seq<char>) -> bool {
    exists|i: int| 0 <= i < per_file.len() && spec_strip_rel_suffix(#[trigger] per_file[i].1) == key
}

pub open spec fn group_key_set(per_file: Seq<(Seq<char>, Seq<char>)>) -> Set<Seq<char>> {
    Set::new(|k: Seq<char>| has_key(per_file, k))
}

/// `keys` lists every item of the per-file layout exactly once, in path order.
pub open spec fn is_key_order(per_file: Seq<(Seq<char>, Seq<char>)>, keys: Seq<Seq<char>>) -> bool {
    sorted_by(keys, path_strict_order()) && keys.to_set() == group_key_set(per_file)
}

/// The items of the per-file layout, in path order.
pub open spec fn group_keys(per_file: Seq<(Seq<char>, Seq<char>)>) -> Seq<Seq<char>> {
    choose|keys: Seq<Seq<char>>| is_key_order(per_file, keys)
}

pub proof fn lemma_group_members_absent(s: Seq<(Seq<char>, Seq<char>)>, k: Seq<char>)
    requires
        !has_key(s, k),
    ensures
        group_members(s, k) == Seq::<Seq<char>>::empty(),
    decreases s.len(),
{
    if s.len() > 0 {
        let init = s.drop_last();
        assert(!has_key(init, k)) by {
            if has_key(init, k) {
                let i = choose|i: int| 0 <= i < init.len() && spec_strip_rel_suffix(#[trigger] init[i].1) == k;
                assert(s[i] == init[i]);
            }
        }
        lemma_group_members_absent(init, k);
        assert(spec_strip_rel_suffix(s[s.len() - 1].1) != k);
    }
}

/// Any valid key order is the key order.
pub proof fn lemma_group_keys_unique(per_file: Seq<(Seq<char>, Seq<char>)>, keys: Seq<Seq<char>>)
    requires
        is_key_order(per_file, keys),
    ensures
        group_keys(per_file) == keys,
{
    let q = group_keys(per_file);
    assert(is_key_order(per_file, q));
    lemma_strictly_sorted_unique(q, keys);
}

/// Groups the per-file artifacts by item (relative path without suffix):
/// the items in path order, and for each the absolute paths of its versions
/// in their original order.
pub fn group_versions(per_file: &Vec<(String, String)>) -> (r: (Vec<String>, Vec<Vec<String>>))
    ensures
        views(r.0@) == group_keys(pair_views(per_file@)),
        is_key_order(pair_views(per_file@), views(r.0@)),
        r.1@.len() == r.0@.len(),
        forall|j: int|
            0 <= j < r.0@.len() ==> views(#[trigger] r.1@[j]@) == group_members(
                pair_views(per_file@),
                r.0@[j]@,
            ),
{
    let ghost pv = pair_views(per_file@);
    let mut keys: Vec<String> = Vec::new();
    let mut members: Vec<Vec<String>> = Vec::new();
    let mut i: usize = 0;
    proof {
        lemma_path_order_total();
        assert(views(keys@).to_set() =~= group_key_set(pv.take(0)));
    }
    while i < per_file.len()
        invariant
            i <= per_file.len(),
            pv == pair_views(per_file@),
            strict_total_ordering(path_strict_order()),
            sorted_by(views(keys@), path_strict_order()),
            views(keys@).to_set() == group_key_set(pv.take(i as int)),
            members@.len() == keys@.len(),
            forall|j: int|
                0 <= j < keys@.len() ==> views(#[trigger] members@[j]@) == group_members(
                    pv.take(i as int),
                    keys@[j]@,
                ),
        decreases per_file.len() - i,
    {
        let abs = per_file[i].0.clone();
        let k = strip_rel_suffix(per_file[i].1.as_str());
        let ghost s0 = pv.take(i as int);
        let ghost s1 = pv.take(i + 1);
        assert(s1.drop_last() =~= s0);
        assert(s1.last() == (abs@, per_file@[i as int].1@));
        assert forall|key: Seq<char>| #[trigger] has_key(s1, key) <==> has_key(s0, key) || key == k@ by {
            if has_key(s1, key) {
                let m = choose|m: int| 0 <= m < s1.len() && spec_strip_rel_suffix(#[trigger] s1[m].1) == key;
                if m < i {
                    assert(s0[m] == s1[m]);
                }
            }
            if has_key(s0, key) {
                let m = choose|m: int| 0 <= m < s0.len() && spec_strip_rel_suffix(#[trigger] s0[m].1) == key;
                assert(s1[m] == s0[m]);
            }
            if key == k@ {
                assert(spec_strip_rel_suffix(s1[i as int].1) == key);
            }
        }
        let mut p: usize = 0;
        while p < keys.len() && path_less(keys[p].as_str(), k.as_str())
            invariant
                p <= keys@.len(),
                forall|j: int| 0 <= j < p ==> path_lt(#[trigger] keys@[j]@, k@),
            decreases keys.len() - p,
        {
            p += 1;
        }
        let ghost old_keys = keys@;
        let ghost old_members = members@;
        if p < keys.len() && same_text(keys[p].as_str(), k.as_str()) {
            let mut g = members.remove(p);
            g.push(abs);
            members.insert(p, g);
            proof {
                assert forall|j: int| 0 <= j < keys@.len() implies views(#[trigger] members@[j]@)
                    == group_members(s1, keys@[j]@) by {
                    if j != p {
                        assert(members@[j] == old_members[j]);
                        if keys@[j]@ == k@ {
                            if j < p {
                                assert(path_strict_order()(views(keys@)[j], views(keys@)[p as int]));
                            } else {
                                assert(path_strict_order()(views(keys@)[p as int], views(keys@)[j]));
                            }
                            lemma_path_lt_irreflexive(k@);
                        }
                    } else {
                        assert(views(members@[j]@) =~= views(old_members[j]@).push(abs@));
                    }
                }
                assert(views(keys@).to_set() =~= group_key_set(s1)) by {
                    assert forall|key: Seq<char>| views(keys@).to_set().contains(key) <==> #[trigger] group_key_set(
                        s1,
                    ).contains(key) by {
                        if key == k@ {
                            assert(views(keys@)[p as int] == key);
                        }
                    }
                }
            }
        } else {
            proof {
                assert forall|j: int| p <= j < old_keys.len() implies path_lt(k@, #[trigger] old_keys[j]@) by {
                    lemma_path_lt_connected(k@, old_keys[p as int]@);
                    if j > p {
                        assert(path_strict_order()(views(old_keys)[p as int], views(old_keys)[j]));
                        lemma_path_lt_transitive(k@, old_keys[p as int]@, old_keys[j]@);
                    }
                }
                assert(!group_key_set(s0).contains(k@)) by {
                    if views(old_keys).to_set().contains(k@) {
                        let m = choose|m: int| 0 <= m < old_keys.len() && views(old_keys)[m] == k@;
                        lemma_path_lt_irreflexive(k@);
                        if m < p {
                            assert(path_lt(old_keys[m]@, k@));
                        } else {
                            assert(path_lt(k@, old_keys[m]@));
                        }
                    }
                }
                lemma_group_members_absent(s0, k@);
            }
            let mut g: Vec<String> = Vec::new();
            g.push(abs);
            keys.insert(p, k);
            members.insert(p, g);
            proof {
                assert(views(keys@) =~= views(old_keys).insert(p as int, k@));
                assert forall|a: int, b: int| 0 <= a < b < keys@.len() implies #[trigger] path_strict_order()(
                    views(keys@)[a],
                    views(keys@)[b],
                ) by {
                    if a < p && b > p {
                        assert(path_lt(old_keys[a]@, k@));
                        assert(path_lt(k@, old_keys[b - 1]@));
                        lemma_path_lt_transitive(old_keys[a]@, k@, old_keys[b - 1]@);
                    } else if a == p {
                        assert(path_lt(k@, old_keys[b - 1]@));
                    } else if b == p {
                        assert(path_lt(old_keys[a]@, k@));
                    } else if b < p {
                        assert(path_strict_order()(views(old_keys)[a], views(old_keys)[b]));
                    } else {
                        assert(path_strict_order()(views(old_keys)[a - 1], views(old_keys)[b - 1]));
                    }
                }
                assert forall|j: int| 0 <= j < keys@.len() implies views(#[trigger] members@[j]@)
                    == group_members(s1, keys@[j]@) by {
                    if j < p {
                        assert(members@[j] == old_members[j]);
                        assert(keys@[j] == old_keys[j]);
                        assert(keys@[j]@ != k@) by {
                            lemma_path_lt_irreflexive(k@);
                        }
                    } else if j > p {
                        assert(members@[j] == old_members[j - 1]);
                        assert(keys@[j] == old_keys[j - 1]);
                        assert(keys@[j]@ != k@) by {
                            lemma_path_lt_irreflexive(k@);
                        }
                    } else {
                        assert(views(members@[j]@) =~= seq![abs@]);
                        assert(Seq::<Seq<char>>::empty().push(abs@) =~= seq![abs@]);
                    }
                }
                assert(views(keys@).to_set() =~= group_key_set(s1)) by {
                    assert forall|key: Seq<char>| views(keys@).to_set().contains(key) <==> #[trigger] group_key_set(
                        s1,
                    ).contains(key) by {
                        if key == k@ {
                            assert(views(keys@)[p as int] == key);
                        }
                        if views(keys@).to_set().contains(key) && key != k@ {
                            let m = choose|m: int| 0 <= m < keys@.len() && views(keys@)[m] == key;
                            if m < p {
                                assert(views(old_keys)[m] == key);
                            } else {
                                assert(views(old_keys)[m - 1] == key);
                            }
                        }
                        if group_key_set(s0).contains(key) {
                            assert(views(old_keys).to_set().contains(key));
                            let m = choose|m: int| 0 <= m < old_keys.len() && views(old_keys)[m] == key;
                            if m < p {
                                assert(views(keys@)[m] == key);
                            } else {
                                assert(views(keys@)[m + 1] == key);
                            }
                        }
                    }
                }
            }
        }
        i += 1;
    }
    proof {
        assert(pv.take(i as int) =~= pv);
        lemma_group_keys_unique(pv, views(keys@));
    }
    (keys, members)
}

/// The paths of the flat entries of one kind (directories or not), in order.
pub open spec fn select_kind(flat: Seq<(Seq<char>, bool)>, is_dir: bool) -> Seq<Seq<char>>
    decreases flat.len(),
{
    if flat.len() == 0 {
        Seq::empty()
    } else {
        let prev = select_kind(flat.drop_last(), is_dir);
        if flat.last().1 == is_dir {
            prev.push(flat.last().0)
        } else {
            prev
        }
    }
}

/// The removals of the per-file layout for the items `keys`, item by item.
pub open spec fn groups_doomed(
    per_file: Seq<(Seq<char>, Seq<char>)>,
    keys: Seq<Seq<char>>,
    keep: int,
) -> Seq<Seq<char>>
    decreases keys.len(),
{
    if keys.len() == 0 {
        Seq::empty()
    } else {
        groups_doomed(per_file, keys.drop_last(), keep) + doomed(
            group_members(per_file, keys.last()),
            keep,
        )
    }
}

/// The parents of the given paths (paths without one are skipped).
pub open spec fn parents_of(paths: Seq<Seq<char>>) -> Seq<Seq<char>>
    decreases paths.len(),
{
    if paths.len() == 0 {
        Seq::empty()
    } else {
        let prev = parents_of(paths.drop_last());
        match spec_parent(paths.last()) {
            Some(q) => prev.push(q),
            None => prev,
        }
    }
}

/// The per-file removals of `--keep`: for every item, in path order, all but
/// its newest `keep` versions.
pub open spec fn keep_per_file_removals(per_file: Seq<(Seq<char>, Seq<char>)>, keep: int) -> Seq<
    Seq<char>,
> {
    groups_doomed(per_file, group_keys(per_file), keep)
}

/// Every removal of `--keep`, in order: single-file backups, whole-directory
/// backups (each series on its own), then the per-file layout.
pub open spec fn keep_removals(
    flat: Seq<(Seq<char>, bool)>,
    per_file: Seq<(Seq<char>, Seq<char>)>,
    keep: int,
) -> Seq<Seq<char>> {
    doomed(select_kind(flat, false), keep) + doomed(select_kind(flat, true), keep)
        + keep_per_file_removals(per_file, keep)
}

/// What a cleanup removes, in order, and the directories it may leave empty.
pub struct Removal {
    pub removed: Vec<String>,
    pub touched_dirs: Vec<String>,
}

/// The paths of the flat entries of one kind, in order.
pub fn select_flat(flat: &Vec<(String, bool)>, is_dir: bool) -> (r: Vec<String>)
    ensures
        views(r@) == select_kind(flat_views(flat@), is_dir),
{
    let ghost fv = flat_views(flat@);
    let mut r: Vec<String> = Vec::new();
    let mut i: usize = 0;
    while i < flat.len()
        invariant
            i <= flat.len(),
            fv == flat_views(flat@),
            views(r@) == select_kind(fv.take(i as int), is_dir),
        decreases flat.len() - i,
    {
        assert(fv.take(i + 1).drop_last() =~= fv.take(i as int));
        if flat[i].1 == is_dir {
            let ghost old_r = r@;
            r.push(flat[i].0.clone());
            assert(views(r@) =~= views(old_r).push(flat@[i as int].0@));
        }
        i += 1;
    }
    assert(fv.take(i as int) =~= fv);
    r
}

/// `--keep N`: keep only the newest `keep` versions per item and remove the
/// rest. Whole-directory backups and single-file backups each form their own
/// version series; in the per-file layout, versions are grouped by their
/// suffix-stripped relative path.
pub fn cleanup_keep(art: &Artifacts, keep: u64) -> (r: Removal)
    ensures
        views(r.removed@) == keep_removals(
            flat_views(art.flat@),
            pair_views(art.per_file@),
            keep as int,
        ),
        views(r.touched_dirs@) == parents_of(
            keep_per_file_removals(pair_views(art.per_file@), keep as int),
        ),
{
    let ghost pv = pair_views(art.per_file@);
    let mut files = select_flat(&art.flat, false);
    let mut removed = trim_versions(&mut files, keep);
    let mut dirs = select_flat(&art.flat, true);
    let mut gone_dirs = trim_versions(&mut dirs, keep);
    let ghost flat_part = views(removed@) + views(gone_dirs@);
    removed.append(&mut gone_dirs);
    assert(views(removed@) =~= flat_part);
    let (keys, members) = group_versions(&art.per_file);
    let mut touched: Vec<String> = Vec::new();
    let mut j: usize = 0;
    assert(views(keys@).take(0) =~= Seq::<Seq<char>>::empty());
    assert(views(removed@) =~= flat_part + groups_doomed(pv, views(keys@).take(0), keep as int));
    while j < keys.len()
        invariant
            j <= keys@.len(),
            members@.len() == keys@.len(),
            pv == pair_views(art.per_file@),
            forall|m: int|
                0 <= m < keys@.len() ==> views(#[trigger] members@[m]@) == group_members(
                    pv,
                    keys@[m]@,
                ),
            views(removed@) == flat_part + groups_doomed(pv, views(keys@).take(j as int), keep as int),
            views(touched@) == parents_of(groups_doomed(pv, views(keys@).take(j as int), keep as int)),
        decreases keys.len() - j,
    {
        assert(views(members@[j as int]@) == group_members(pv, keys@[j as int]@));
        let mut versions = copy_strings(&members[j]);
        let mut gone = trim_versions(&mut versions, keep);
        let ghost before = groups_doomed(pv, views(keys@).take(j as int), keep as int);
        assert(views(keys@).take(j + 1).drop_last() =~= views(keys@).take(j as int));
        assert(views(keys@).take(j + 1).last() == keys@[j as int]@);
        let mut k: usize = 0;
        let ghost gone_view = views(gone@);
        let ghost removed_view = views(removed@);
        assert(gone_view == doomed(group_members(pv, keys@[j as int]@), keep as int));
        while k < gone.len()
            invariant
                k <= gone@.len(),
                views(gone@) == gone_view,
                views(removed@) == removed_view,
                views(touched@) == parents_of(before + views(gone@).take(k as int)),
            decreases gone.len() - k,
        {
            let ghost seq_k = before + views(gone@).take(k as int);
            assert((before + views(gone@).take(k + 1)).drop_last() =~= seq_k);
            match parent_path(gone[k].as_str()) {
                Some(q) => {
                    let ghost old_t = touched@;
                    touched.push(q);
                    assert(views(touched@) =~= views(old_t).push(q@));
                },
                None => {},
            }
            k += 1;
        }
        assert(views(gone@).take(k as int) =~= views(gone@));
        let ghost old_removed = removed@;
        let ghost old_gone = gone@;
        removed.append(&mut gone);
        assert(removed@ == old_removed + old_gone);
        assert(views(removed@) =~= views(old_removed) + views(old_gone));
        assert(views(old_removed) == flat_part + before);
        assert(views(removed@) =~= flat_part + (before + doomed(
            group_members(pv, keys@[j as int]@),
            keep as int,
        )));
        j += 1;
    }
    proof {
        assert(views(keys@).take(j as int) =~= views(keys@));
    }
    Removal { removed, touched_dirs: touched }
}

/// The paths whose modification time is known and earlier than `cutoff`,
/// in order.
pub open spec fn stale_paths(
    paths: Seq<Seq<char>>,
    times: Seq<Option<Timestamp>>,
    cutoff: Timestamp,
) -> Seq<Seq<char>>
    decreases paths.len(),
{
    if paths.len() == 0 || times.len() != paths.len() {
        Seq::empty()
    } else {
        let prev = stale_paths(paths.drop_last(), times.drop_last(), cutoff);
        if times.last() matches Some(t) && earlier(t, cutoff) {
            prev.push(paths.last())
        } else {
            prev
        }
    }
}

/// The paths of (path, is-directory) entries.
pub open spec fn flat_paths(flat: Seq<(String, bool)>) -> Seq<Seq<char>> {
    flat.map_values(|e: (String, bool)| e.0@)
}

/// The absolute paths of per-file artifacts.
pub open spec fn per_file_paths(per_file: Seq<(String, String)>) -> Seq<Seq<char>> {
    per_file.map_values(|e: (String, String)| e.0@)
}

/// The stale paths among `paths`, given their modification times.
fn select_stale(paths: Vec<&String>, times: &Vec<Option<Timestamp>>, cutoff: Timestamp) -> (r: Vec<
    String,
>)
    requires
        paths@.len() == times@.len(),
    ensures
        views(r@) == stale_paths(paths@.map_values(|p: &String| p@), times@, cutoff),
{
    let ghost pv = paths@.map_values(|p: &String| p@);
    let mut r: Vec<String> = Vec::new();
    let mut i: usize = 0;
    while i < paths.len()
        invariant
            i <= paths@.len() == times@.len(),
            pv == paths@.map_values(|p: &String| p@),
            views(r@) == stale_paths(pv.take(i as int), times@.take(i as int), cutoff),
        decreases paths.len() - i,
    {
        assert(pv.take(i + 1).drop_last() =~= pv.take(i as int));
        assert(times@.take(i + 1).drop_last() =~= times@.take(i as int));
        if is_stale(times[i], cutoff) {
            let ghost old_r = r@;
            r.push(paths[i].clone());
            assert(views(r@) =~= views(old_r).push(pv[i as int]));
        }
        i += 1;
    }
    assert(pv.take(i as int) =~= pv);
    assert(times@.take(i as int) =~= times@);
    r
}

/// `--days N`: given the modification time of every flat artifact and
/// every per-file artifact (`None` where it is unknown), the artifacts
/// modified before `cutoff` — flat ones first, each list in order — and the
/// directories of the removed per-file artifacts.
pub fn days_removals(
    art: &Artifacts,
    flat_times: &Vec<Option<Timestamp>>,
    file_times: &Vec<Option<Timestamp>>,
    cutoff: Timestamp,
) -> (r: Removal)
    requires
        flat_times@.len() == art.flat@.len(),
        file_times@.len() == art.per_file@.len(),
    ensures
        views(r.removed@) == stale_paths(flat_paths(art.flat@), flat_times@, cutoff) + stale_paths(
            per_file_paths(art.per_file@),
            file_times@,
            cutoff,
        ),
        views(r.touched_dirs@) == parents_of(
            stale_paths(per_file_paths(art.per_file@), file_times@, cutoff),
        ),
{
    let mut fp: Vec<&String> = Vec::new();
    let mut i: usize = 0;
    while i < art.flat.len()
        invariant
            i <= art.flat@.len(),
            fp@.map_values(|p: &String| p@) == flat_paths(art.flat@).take(i as int),
        decreases art.flat.len() - i,
    {
        let ghost old = fp@;
        fp.push(&art.flat[i].0);
        assert(fp@.map_values(|p: &String| p@) =~= old.map_values(|p: &String| p@).push(art.flat@[i as int].0@));
        assert(flat_paths(art.flat@).take(i + 1) =~= flat_paths(art.flat@).take(i as int).push(art.flat@[i as int].0@));
        i += 1;
    }
    assert(flat_paths(art.flat@).take(i as int) =~= flat_paths(art.flat@));
    let mut pp: Vec<&String> = Vec::new();
    let mut j: usize = 0;
    while j < art.per_file.len()
        invariant
            j <= art.per_file@.len(),
            pp@.map_values(|p: &String| p@) == per_file_paths(art.per_file@).take(j as int),
        decreases art.per_file.len() - j,
    {
        let ghost old = pp@;
        pp.push(&art.per_file[j].0);
        assert(pp@.map_values(|p: &String| p@) =~= old.map_values(|p: &String| p@).push(art.per_file@[j as int].0@));
        assert(per_file_paths(art.per_file@).take(j + 1) =~= per_file_paths(art.per_file@).take(j as int).push(art.per_file@[j as int].0@));
        j += 1;
    }
    assert(per_file_paths(art.per_file@).take(j as int) =~= per_file_paths(art.per_file@));
    let mut removed = select_stale(fp, flat_times, cutoff);
    let mut files = select_stale(pp, file_times, cutoff);
    let ghost fv = views(files@);
    let mut touched: Vec<String> = Vec::new();
    let mut k: usize = 0;
    while k < files.len()
        invariant
            k <= files@.len(),
            views(files@) == fv,
            views(touched@) == parents_of(fv.take(k as int)),
        decreases files.len() - k,
    {
        assert(fv.take(k + 1).drop_last() =~= fv.take(k as int));
        match parent_path(files[k].as_str()) {
            Some(q) => {
                let ghost old_t = touched@;
                touched.push(q);
                assert(views(touched@) =~= views(old_t).push(q@));
            },
            None => {},
        }
        k += 1;
    }
    assert(fv.take(k as int) =~= fv);
    let ghost rv = views(removed@);
    let ghost old_files = files@;
    removed.append(&mut files);
    assert(views(removed@) =~= rv + views(old_files));
    Removal { removed, touched_dirs: touched }
}

/// A copy of a list of strings.
fn copy_strings(v: &Vec<String>) -> (r: Vec<String>)
    ensures
        r@ == v@,
{
    let mut r: Vec<String> = Vec::new();
    let mut i: usize = 0;
    while i < v.len()
        invariant
            i <= v.len(),
            r@ == v@.take(i as int),
        decreases v.len() - i,
    {
        r.push(v[i].clone());
        assert(r@ =~= v@.take(i + 1));
        i += 1;
    }
    assert(v@.take(i as int) =~= v@);
    r
}

/// `--orphan`: nothing while the source exists; otherwise every flat backup,
/// then the whole per-file layout (one artifact).
pub fn cleanup_orphan(source_exists: bool, art: &Artifacts) -> (r: Vec<String>)
    ensures
        source_exists ==> r@.len() == 0,
        !source_exists ==> views(r@) == flat_views(art.flat@).map_values(
            |e: (Seq<char>, bool)| e.0,
        ) + match art.layout {
            Some(l) => seq![l@],
            None => Seq::<Seq<char>>::empty(),
        },
{
    let mut r: Vec<String> = Vec::new();
    if source_exists {
        return r;
    }
    let ghost fv = flat_views(art.flat@).map_values(|e: (Seq<char>, bool)| e.0);
    let mut i: usize = 0;
    while i < art.flat.len()
        invariant
            i <= art.flat@.len(),
            fv == flat_views(art.flat@).map_values(|e: (Seq<char>, bool)| e.0),
            views(r@) == fv.take(i as int),
        decreases art.flat.len() - i,
    {
        assert(fv[i as int] == art.flat@[i as int].0@);
        let ghost old_r = r@;
        r.push(art.flat[i].0.clone());
        assert(views(r@) =~= views(old_r).push(art.flat@[i as int].0@));
        assert(fv.take(i + 1) =~= fv.take(i as int).push(fv[i as int]));
        assert(views(r@) =~= fv.take(i + 1));
        i += 1;
    }
    assert(fv.take(i as int) =~= fv);
    match &art.layout {
        Some(l) => {
            let ghost old_r = views(r@);
            r.push(l.clone());
            assert(views(r@) =~= old_r + seq![l@]);
        },
        None => {
            assert(views(r@) =~= fv + Seq::<Seq<char>>::empty());
        },
    }
    r
}

/// The directories to try to remove after a cleanup: each once, deepest
/// (greatest in path order) first.
pub fn prune_order(dirs: Vec<String>) -> (r: Vec<String>)
    ensures
        sorted_by(views(r@).reverse(), path_strict_order()),
        views(r@).to_set() == views(dirs@).to_set(),
{
    let s = sort_dedup_paths(dirs);
    let r = reversed(s);
    assert(views(r@).reverse() =~= views(s@));
    assert(views(r@).to_set() =~= views(s@).to_set()) by {
        assert forall|e: Seq<char>| views(r@).to_set().contains(e) <==> views(s@).to_set().contains(e) by {
            if views(r@).to_set().contains(e) {
                let m = choose|m: int| 0 <= m < r@.len() && views(r@)[m] == e;
                assert(views(s@)[s@.len() - 1 - m] == e);
            }
            if views(s@).to_set().contains(e) {
                let m = choose|m: int| 0 <= m < s@.len() && views(s@)[m] == e;
                assert(views(r@)[r@.len() - 1 - m] == e);
            }
        }
    }
    r
}

/// `--keep` keeps the newest versions: the survivors are the `keep`
/// greatest versions (all of them when there are no more than `keep`), every
/// removed version comes before every survivor in the path order, and
/// together they are exactly the original versions.
pub proof fn law_keep_retains_newest(versions: Seq<Seq<char>>, keep: int)
    requires
        keep >= 0,
    ensures
        survivors(versions, keep).len() == (if versions.len() <= keep {
            versions.len() as int
        } else {
            keep
        }),
        doomed(versions, keep).to_multiset().add(survivors(versions, keep).to_multiset())
            == versions.to_multiset(),
        sorted_by(survivors(versions, keep), path_order()),
        forall|a: int, b: int|
            0 <= a < doomed(versions, keep).len() && 0 <= b < survivors(versions, keep).len()
                ==> path_order()(doomed(versions, keep)[a], survivors(versions, keep)[b]),
{
    lemma_path_order_total();
    versions.lemma_sort_by_ensures(path_order());
    let s = versions.sort_by(path_order());
    vstd::seq_lib::to_multiset_len(versions);
    vstd::seq_lib::to_multiset_len(s);
    if versions.len() > keep {
        let cut = versions.len() - keep;
        assert(s.take(cut) + s.skip(cut) =~= s);
        vstd::seq_lib::lemma_multiset_commutative(s.take(cut), s.skip(cut));
        assert forall|a: int, b: int|
            0 <= a < doomed(versions, keep).len() && 0 <= b < survivors(versions, keep).len()
                implies path_order()(doomed(versions, keep)[a], survivors(versions, keep)[b]) by {
            assert(s.take(cut)[a] == s[a]);
            assert(s.skip(cut)[b] == s[cut + b]);
        }
        assert forall|a: int, b: int|
            0 <= a < b < survivors(versions, keep).len() implies #[trigger] path_order()(
                survivors(versions, keep)[a],
                survivors(versions, keep)[b],
            ) by {
            assert(s.skip(cut)[a] == s[cut + a]);
            assert(s.skip(cut)[b] == s[cut + b]);
        }
    } else {
        assert(doomed(versions, keep).to_multiset() =~= Multiset::<Seq<char>>::empty());
    }
}

/// Keeping is idempotent: a second `--keep N` over what the first one left
/// removes nothing and leaves the same versions.
pub proof fn law_keep_twice_removes_nothing(versions: Seq<Seq<char>>, keep: int)
    requires
        keep >= 0,
    ensures
        doomed(survivors(versions, keep), keep) == Seq::<Seq<char>>::empty(),
        survivors(survivors(versions, keep), keep).to_multiset() == survivors(
            versions,
            keep,
        ).to_multiset(),
{
    law_keep_retains_newest(versions, keep);
    let s1 = survivors(versions, keep);
    lemma_path_order_total();
    s1.lemma_sort_by_ensures(path_order());
}

/// A directory comes before everything beneath it in the path order, so the
/// prune order (greatest first) visits subdirectories before their parents.
pub proof fn law_ancestor_precedes(dir: Seq<char>, rest: Seq<char>)
    ensures
        path_lt(dir, dir + seq!['/'] + rest),
    decreases dir.len(),
{
    if dir.len() > 0 {
        law_ancestor_precedes(dir.drop_first(), rest);
        assert((dir + seq!['/'] + rest).drop_first() =~= dir.drop_first() + seq!['/'] + rest);
    }
}

} // verus!

verus! {

/// The flat artifacts split into whole-directory and single-file backups:
/// together the two series hold every artifact once, and each holds only
/// artifacts of its own kind.
pub proof fn law_kinds_partition_the_artifacts(flat: Seq<(Seq<char>, bool)>, is_dir: bool)
    ensures
        select_kind(flat, true).len() + select_kind(flat, false).len() == flat.len(),
        forall|k: int|
            #![trigger select_kind(flat, is_dir)[k]]
            0 <= k < select_kind(flat, is_dir).len() ==> exists|i: int|
                0 <= i < flat.len() && #[trigger] flat[i] == (select_kind(flat, is_dir)[k], is_dir),
    decreases flat.len(),
{
    if flat.len() > 0 {
        let init = flat.drop_last();
        law_kinds_partition_the_artifacts(init, is_dir);
        let s = select_kind(flat, is_dir);
        let p = select_kind(init, is_dir);
        assert forall|k: int| #![trigger s[k]] 0 <= k < s.len() implies exists|i: int|
            0 <= i < flat.len() && #[trigger] flat[i] == (s[k], is_dir) by {
            if k < p.len() {
                assert(s[k] == p[k]);
                let i = choose|i: int| 0 <= i < init.len() && #[trigger] init[i] == (p[k], is_dir);
                assert(flat[i] == init[i]);
            } else {
                assert(flat.last().1 == is_dir);
                assert(flat[flat.len() - 1] == (s[k], is_dir));
            }
        }
    }
}

/// Per-file artifacts are grouped by the file they are versions of: every
/// artifact is among the versions of its relative path with the suffix
/// stripped, and every version of an item has that item as its stripped
/// relative path.
pub proof fn law_versions_group_by_item(per_file: Seq<(Seq<char>, Seq<char>)>, key: Seq<char>)
    ensures
        forall|i: int|
            0 <= i < per_file.len() ==> group_members(
                per_file,
                spec_strip_rel_suffix(#[trigger] per_file[i].1),
            ).contains(per_file[i].0),
        forall|k: int|
            #![trigger group_members(per_file, key)[k]]
            0 <= k < group_members(per_file, key).len() ==> exists|i: int|
                0 <= i < per_file.len() && #[trigger] per_file[i].0 == group_members(
                    per_file,
                    key,
                )[k] && spec_strip_rel_suffix(per_file[i].1) == key,
    decreases per_file.len(),
{
    if per_file.len() > 0 {
        let init = per_file.drop_last();
        law_versions_group_by_item(init, key);
        assert forall|i: int| 0 <= i < per_file.len() implies group_members(
            per_file,
            spec_strip_rel_suffix(#[trigger] per_file[i].1),
        ).contains(per_file[i].0) by {
            let k2 = spec_strip_rel_suffix(per_file[i].1);
            if i < init.len() {
                law_versions_group_by_item(init, k2);
                assert(init[i] == per_file[i]);
                let g = group_members(init, k2);
                assert(g.contains(init[i].0));
                let m = choose|m: int| 0 <= m < g.len() && g[m] == init[i].0;
                let full = group_members(per_file, k2);
                assert(full[m] == g[m]);
            } else {
                let full = group_members(per_file, k2);
                assert(full[full.len() - 1] == per_file[i].0);
            }
        }
        let g = group_members(init, key);
        let full = group_members(per_file, key);
        assert forall|k: int| #![trigger full[k]] 0 <= k < full.len() implies exists|i: int|
            0 <= i < per_file.len() && #[trigger] per_file[i].0 == full[k]
                && spec_strip_rel_suffix(per_file[i].1) == key by {
            if k < g.len() {
                assert(full[k] == g[k]);
                let i = choose|i: int|
                    0 <= i < init.len() && #[trigger] init[i].0 == g[k] && spec_strip_rel_suffix(
                        init[i].1,
                    ) == key;
                assert(per_file[i] == init[i]);
            } else {
                assert(per_file[per_file.len() - 1].0 == full[k]);
            }
        }
    }
}

} // verus!

verus! {

/// `--days` removes exactly the artifacts modified before the cutoff: each
/// artifact whose time is known and earlier is selected, and everything
/// selected is such an artifact.
pub proof fn law_stale_means_older_than_cutoff(
    paths: Seq<Seq<char>>,
    times: Seq<Option<Timestamp>>,
    cutoff: Timestamp,
)
    requires
        paths.len() == times.len(),
    ensures
        forall|i: int|
            0 <= i < paths.len() && (#[trigger] times[i] matches Some(t) && earlier(t, cutoff))
                ==> stale_paths(paths, times, cutoff).contains(paths[i]),
        forall|k: int|
            #![trigger stale_paths(paths, times, cutoff)[k]]
            0 <= k < stale_paths(paths, times, cutoff).len() ==> exists|i: int|
                0 <= i < paths.len() && paths[i] == stale_paths(paths, times, cutoff)[k] && (
                #[trigger] times[i] matches Some(t) && earlier(t, cutoff)),
    decreases paths.len(),
{
    if paths.len() > 0 {
        let ip = paths.drop_last();
        let it = times.drop_last();
        law_stale_means_older_than_cutoff(ip, it, cutoff);
        let prev = stale_paths(ip, it, cutoff);
        let all = stale_paths(paths, times, cutoff);
        assert forall|i: int|
            0 <= i < paths.len() && (#[trigger] times[i] matches Some(t) && earlier(
                t,
                cutoff,
            )) implies all.contains(paths[i]) by {
            if i < ip.len() {
                assert(it[i] == times[i]);
                assert(prev.contains(ip[i]));
                let m = choose|m: int| 0 <= m < prev.len() && prev[m] == ip[i];
                assert(all[m] == prev[m]);
            } else {
                assert(all[all.len() - 1] == paths[i]);
            }
        }
        assert forall|k: int| #![trigger all[k]] 0 <= k < all.len() implies exists|i: int|
            0 <= i < paths.len() && paths[i] == all[k] && (#[trigger] times[i] matches Some(t)
                && earlier(t, cutoff)) by {
            if k < prev.len() {
                assert(all[k] == prev[k]);
                let i = choose|i: int|
                    0 <= i < ip.len() && ip[i] == prev[k] && (#[trigger] it[i] matches Some(t)
                        && earlier(t, cutoff));
                assert(times[i] == it[i]);
                assert(paths[i] == ip[i]);
            } else {
                let j = paths.len() - 1;
                assert(times[j] == times.last());
                assert(all[k] == paths[j]);
            }
        }
    }
}

} // verus!
