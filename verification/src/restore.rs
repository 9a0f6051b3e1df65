//! Restore decisions (`-s`): which backup to restore for an original path.
//!
//! Without `--at`, the newest version wins (greatest name in the path order
//! — the same rule cleanup uses). With `--at WHEN`, the version whose suffix
//! date-time is closest to `WHEN` wins; ties prefer the greater name.

use chrono::{Datelike, NaiveDate, NaiveDateTime, Timelike};
use vstd::prelude::*;

use crate::backup::{law_backup_is_found, spec_backup_target, SourceKind};
use crate::list::{entry_matches, select_matching, spec_scope};
use crate::naming::{
    is_plain_segment, law_suffix_name_last_sep, lemma_components_append_plain, spec_mirror_path,
    spec_suffix_name, Platform,
};
use crate::cleanup::{
    flat_views, group_keys, group_members, group_versions, has_key, pair_views, select_flat,
    select_kind, survivors,
};
use crate::naming::{
    file_name, join_path, last_sep, last_sep_index, lemma_last_sep_index_bounds, spec_file_name,
    spec_join_path,
};
use crate::text::{
    chars_of, concat, lemma_path_lt_asymmetric, lemma_path_lt_connected,
    lemma_path_lt_transitive, lemma_path_order_total, path_le, path_less, path_lt, path_order,
    push_char, string_of, views,
};

verus! {

/// A local wall-clock date-time, held as `chrono::NaiveDateTime` holds it:
/// the day counted from January 1 of year 1 (day 1), the seconds since
/// midnight, and the nanoseconds (1,000,000,000 and above only during a leap
/// second).
#[derive(Debug, Clone, Copy, PartialEq, Eq, Structural)]
pub struct LocalDateTime {
    pub days_ce: i32,
    pub secs: u32,
    pub frac: u32,
}

/// The ranges chrono documents for the parts of a date-time.
pub open spec fn wf_datetime(t: LocalDateTime) -> bool {
    t.secs < 86_400 && t.frac < 2_000_000_000
}

pub open spec fn parts_of(t: LocalDateTime) -> (i32, u32, u32) {
    (t.days_ce, t.secs, t.frac)
}

pub open spec fn from_parts(p: (i32, u32, u32)) -> LocalDateTime {
    LocalDateTime { days_ce: p.0, secs: p.1, frac: p.2 }
}

/// What `chrono::NaiveDateTime::parse_from_str(s, fmt)` gives, as
/// (day of the common era, seconds since midnight, nanoseconds).
pub uninterp spec fn spec_parse_naive_datetime(s: Seq<char>, fmt: Seq<char>) -> Option<
    (i32, u32, u32),
>;

/// What `chrono::NaiveDate::parse_from_str(s, fmt)` gives, as the day of the
/// common era.
pub uninterp spec fn spec_parse_naive_date(s: Seq<char>, fmt: Seq<char>) -> Option<i32>;

/// What `format!("{:?}", s)` gives for a string: `s` quoted and escaped.
pub uninterp spec fn spec_debug_text(s: Seq<char>) -> Seq<char>;

/// Calls `chrono::NaiveDateTime::parse_from_str(s, fmt)`. Claimed: the
/// outcome depends on `s` and `fmt` alone; a parsed value's seconds since
/// midnight are below 86,400 and its nanoseconds below 2,000,000,000 (the
/// ranges of `Timelike::num_seconds_from_midnight` and `nanosecond`). What
/// strings parse is left to chrono.
#[verifier::external_body]
fn parse_naive_datetime(s: &str, fmt: &str) -> (r: Option<LocalDateTime>)
    ensures
        match r {
            Some(t) => spec_parse_naive_datetime(s@, fmt@) == Some(parts_of(t)) && wf_datetime(t),
            None => spec_parse_naive_datetime(s@, fmt@) is None,
        },
{
    match NaiveDateTime::parse_from_str(s, fmt) {
        Ok(dt) => Some(
            LocalDateTime {
                days_ce: dt.date().num_days_from_ce(),
                secs: dt.time().num_seconds_from_midnight(),
                frac: dt.time().nanosecond(),
            },
        ),
        Err(_) => None,
    }
}

/// Calls `chrono::NaiveDate::parse_from_str(s, fmt)`. Claimed: the outcome
/// depends on `s` and `fmt` alone. What strings parse is left to chrono.
#[verifier::external_body]
fn parse_naive_date(s: &str, fmt: &str) -> (r: Option<i32>)
    ensures
        r == spec_parse_naive_date(s@, fmt@),
{
    match NaiveDate::parse_from_str(s, fmt) {
        Ok(d) => Some(d.num_days_from_ce()),
        Err(_) => None,
    }
}

/// `format!("{:?}", s)` (std's `Debug` for `str`). Claimed: the text depends
/// on `s` alone; its exact escaping is left to std.
#[verifier::external_body]
fn debug_text(s: &str) -> (r: String)
    ensures
        r@ == spec_debug_text(s@),
{
    format!("{:?}", s)
}

/// Date-time formats tried, in order, after the template.
pub open spec fn datetime_formats(template: Seq<char>) -> Seq<Seq<char>> {
    seq![
        template,
        "%Y-%m-%d %H:%M:%S"@,
        "%Y-%m-%d %H:%M"@,
        "%Y/%m/%d %H:%M:%S"@,
        "%Y/%m/%d %H:%M"@,
        "%Y%m%d_%H%M%S"@,
        "%Y-%m-%dT%H:%M:%S"@,
    ]
}

/// Date-only formats tried, in order, after the template.
pub open spec fn date_formats(template: Seq<char>) -> Seq<Seq<char>> {
    seq![template, "%Y-%m-%d"@, "%Y%m%d"@, "%Y/%m/%d"@]
}

/// The date-time parsed by the first format that accepts `s`.
pub open spec fn first_datetime(s: Seq<char>, fmts: Seq<Seq<char>>) -> Option<(i32, u32, u32)>
    decreases fmts.len(),
{
    if fmts.len() == 0 {
        None
    } else {
        match spec_parse_naive_datetime(s, fmts[0]) {
            Some(x) => Some(x),
            None => first_datetime(s, fmts.drop_first()),
        }
    }
}

/// The date parsed by the first format that accepts `s`.
pub open spec fn first_date(s: Seq<char>, fmts: Seq<Seq<char>>) -> Option<i32>
    decreases fmts.len(),
{
    if fmts.len() == 0 {
        None
    } else {
        match spec_parse_naive_date(s, fmts[0]) {
            Some(x) => Some(x),
            None => first_date(s, fmts.drop_first()),
        }
    }
}

/// A user-supplied date-time (or a backup suffix) as a local wall-clock
/// date-time: the template first, then the common date-time formats; a date
/// alone means its midnight.
pub open spec fn spec_parse_when(s: Seq<char>, template: Seq<char>) -> Option<(i32, u32, u32)> {
    match first_datetime(s, datetime_formats(template)) {
        Some(x) => Some(x),
        None => match first_date(s, date_formats(template)) {
            Some(d) => Some((d, 0u32, 0u32)),
            None => None,
        },
    }
}

fn datetime_format_list(template: &str) -> (r: Vec<&str>)
    ensures
        r@.len() == 7,
        forall|i: int| 0 <= i < 7 ==> (#[trigger] r@[i])@ == datetime_formats(template@)[i],
{
    let mut r: Vec<&str> = Vec::new();
    r.push(template);
    r.push("%Y-%m-%d %H:%M:%S");
    r.push("%Y-%m-%d %H:%M");
    r.push("%Y/%m/%d %H:%M:%S");
    r.push("%Y/%m/%d %H:%M");
    r.push("%Y%m%d_%H%M%S");
    r.push("%Y-%m-%dT%H:%M:%S");
    r
}

fn date_format_list(template: &str) -> (r: Vec<&str>)
    ensures
        r@.len() == 4,
        forall|i: int| 0 <= i < 4 ==> (#[trigger] r@[i])@ == date_formats(template@)[i],
{
    let mut r: Vec<&str> = Vec::new();
    r.push(template);
    r.push("%Y-%m-%d");
    r.push("%Y%m%d");
    r.push("%Y/%m/%d");
    r
}

/// Parses a date-time the way [`spec_parse_when`] describes.
pub fn parse_when(s: &str, template: &str) -> (r: Option<LocalDateTime>)
    ensures
        match r {
            Some(t) => spec_parse_when(s@, template@) == Some(parts_of(t)) && wf_datetime(t),
            None => spec_parse_when(s@, template@) is None,
        },
{
    let dts = datetime_format_list(template);
    let ghost fmts = datetime_formats(template@);
    let mut i: usize = 0;
    assert(fmts.skip(0) =~= fmts);
    while i < dts.len()
        invariant
            i <= dts@.len() == 7,
            fmts == datetime_formats(template@),
            forall|k: int| 0 <= k < 7 ==> (#[trigger] dts@[k])@ == fmts[k],
            first_datetime(s@, fmts) == first_datetime(s@, fmts.skip(i as int)),
        decreases dts.len() - i,
    {
        assert(fmts.skip(i as int)[0] == dts@[i as int]@);
        assert(fmts.skip(i as int).drop_first() =~= fmts.skip(i + 1));
        match parse_naive_datetime(s, dts[i]) {
            Some(t) => {
                return Some(t);
            },
            None => {},
        }
        i += 1;
    }
    assert(fmts.skip(7) =~= Seq::<Seq<char>>::empty());
    let ds = date_format_list(template);
    let ghost dfmts = date_formats(template@);
    let mut j: usize = 0;
    assert(dfmts.skip(0) =~= dfmts);
    while j < ds.len()
        invariant
            j <= ds@.len() == 4,
            dfmts == date_formats(template@),
            forall|k: int| 0 <= k < 4 ==> (#[trigger] ds@[k])@ == dfmts[k],
            first_date(s@, dfmts) == first_date(s@, dfmts.skip(j as int)),
            first_datetime(s@, datetime_formats(template@)) is None,
        decreases ds.len() - j,
    {
        assert(dfmts.skip(j as int)[0] == ds@[j as int]@);
        assert(dfmts.skip(j as int).drop_first() =~= dfmts.skip(j + 1));
        match parse_naive_date(s, ds[j]) {
            Some(d) => {
                return Some(LocalDateTime { days_ce: d, secs: 0, frac: 0 });
            },
            None => {},
        }
        j += 1;
    }
    assert(dfmts.skip(4) =~= Seq::<Seq<char>>::empty());
    None
}

/// Parse a user-supplied date-time into a local wall-clock date-time; the
/// error gives examples of accepted inputs.
pub fn parse_target_datetime(s: &str, template: &str) -> (r: Result<LocalDateTime, String>)
    ensures
        match r {
            Ok(t) => spec_parse_when(s@, template@) == Some(parts_of(t)) && wf_datetime(t),
            Err(e) => spec_parse_when(s@, template@) is None && e@ == "cannot parse date-time "@
                + spec_debug_text(s@)
                + "; examples: \"2026-09-20 14:30\", \"2026-09-20 14:30:05\", \"2026-09-20\" (midnight), \"20260920_143000\""@,
        },
{
    match parse_when(s, template) {
        Some(t) => Ok(t),
        None => {
            let mut e = "cannot parse date-time ".to_owned();
            let q = debug_text(s);
            e.append(q.as_str());
            e.append(
                "; examples: \"2026-09-20 14:30\", \"2026-09-20 14:30:05\", \"2026-09-20\" (midnight), \"20260920_143000\"",
            );
            Err(e)
        },
    }
}

/// chrono's leap-second correction when subtracting times of day: a leap
/// second still to be counted between the two.
pub open spec fn leap_adjust(a: LocalDateTime, b: LocalDateTime) -> int {
    if a.secs > b.secs && b.frac >= 1_000_000_000 {
        1
    } else if a.secs < b.secs && a.frac >= 1_000_000_000 {
        -1
    } else {
        0
    }
}

/// `a - b` in nanoseconds, as `NaiveDateTime` subtraction counts it.
pub open spec fn diff_nanos(a: LocalDateTime, b: LocalDateTime) -> int {
    ((a.days_ce - b.days_ce) * 86_400 + (a.secs - b.secs) + leap_adjust(a, b)) * 1_000_000_000 + (
    a.frac - b.frac)
}

pub open spec fn abs_int(x: int) -> int {
    if x < 0 {
        -x
    } else {
        x
    }
}

/// The whole seconds between `a` and `b`, i.e.
/// `(a - b).num_seconds().unsigned_abs()` (the seconds are truncated
/// toward zero before the sign is dropped).
pub open spec fn spec_distance(a: LocalDateTime, b: LocalDateTime) -> int {
    abs_int(diff_nanos(a, b)) / 1_000_000_000
}

/// The whole seconds between two date-times.
pub fn distance_seconds(a: LocalDateTime, b: LocalDateTime) -> (r: u64)
    ensures
        r == spec_distance(a, b),
{
    let days: i128 = a.days_ce as i128 - b.days_ce as i128;
    let secs: i128 = a.secs as i128 - b.secs as i128;
    let adj: i128 = if a.secs > b.secs && b.frac >= 1_000_000_000 {
        1
    } else if a.secs < b.secs && a.frac >= 1_000_000_000 {
        -1
    } else {
        0
    };
    let frac: i128 = a.frac as i128 - b.frac as i128;
    assert(-4_294_967_296 <= days <= 4_294_967_296);
    assert(-4_294_967_296 <= secs <= 4_294_967_296);
    assert(-4_294_967_296 <= frac <= 4_294_967_296);
    assert(-400_000_000_000_000 <= days * 86_400 <= 400_000_000_000_000) by (nonlinear_arith)
        requires
            -4_294_967_296 <= days <= 4_294_967_296,
    ;
    let whole: i128 = days * 86_400 + secs + adj;
    assert(-500_000_000_000_000 <= whole <= 500_000_000_000_000);
    assert(-500_000_000_000_000_000_000_000 <= whole * 1_000_000_000
        <= 500_000_000_000_000_000_000_000) by (nonlinear_arith)
        requires
            -500_000_000_000_000 <= whole <= 500_000_000_000_000,
    ;
    let n: i128 = whole * 1_000_000_000 + frac;
    assert(n == diff_nanos(a, b));
    let m: i128 = if n < 0 {
        -n
    } else {
        n
    };
    let q: i128 = m / 1_000_000_000;
    assert(0 <= q <= 600_000_000_000_000) by (nonlinear_arith)
        requires
            0 <= m <= 600_000_000_000_000_000_000_000,
            q == m / 1_000_000_000,
    ;
    q as u64
}

/// The digit `d` (0 to 9) as a character.
pub open spec fn digit_char(d: int) -> char {
    if d == 0 {
        '0'
    } else if d == 1 {
        '1'
    } else if d == 2 {
        '2'
    } else if d == 3 {
        '3'
    } else if d == 4 {
        '4'
    } else if d == 5 {
        '5'
    } else if d == 6 {
        '6'
    } else if d == 7 {
        '7'
    } else if d == 8 {
        '8'
    } else {
        '9'
    }
}

/// The decimal notation of `n`.
pub open spec fn spec_decimal(n: nat) -> Seq<char>
    decreases n,
{
    if n < 10 {
        seq![digit_char(n as int)]
    } else {
        spec_decimal(n / 10).push(digit_char((n % 10) as int))
    }
}

fn digit(d: usize) -> (c: char)
    requires
        d < 10,
    ensures
        c == digit_char(d as int),
{
    if d == 0 {
        '0'
    } else if d == 1 {
        '1'
    } else if d == 2 {
        '2'
    } else if d == 3 {
        '3'
    } else if d == 4 {
        '4'
    } else if d == 5 {
        '5'
    } else if d == 6 {
        '6'
    } else if d == 7 {
        '7'
    } else if d == 8 {
        '8'
    } else {
        '9'
    }
}

/// `n` written in decimal.
pub fn decimal(n: usize) -> (s: String)
    ensures
        s@ == spec_decimal(n as nat),
    decreases n,
{
    if n < 10 {
        let mut s = String::new();
        push_char(&mut s, digit(n));
        assert(s@ =~= seq![digit_char(n as int)]);
        s
    } else {
        let mut s = decimal(n / 10);
        push_char(&mut s, digit(n % 10));
        s
    }
}

/// The suffix of a candidate's file name: what follows its last `~`.
pub open spec fn candidate_suffix(c: Seq<char>) -> Option<Seq<char>> {
    match spec_file_name(c) {
        Some(f) => if last_sep_index(f) >= 0 {
            Some(f.skip(last_sep_index(f) + 1))
        } else {
            None
        },
        None => None,
    }
}

/// The date-time of a candidate, parsed from its suffix.
pub open spec fn candidate_time(c: Seq<char>, template: Seq<char>) -> Option<(i32, u32, u32)> {
    match candidate_suffix(c) {
        Some(sfx) => spec_parse_when(sfx, template),
        None => None,
    }
}

/// How far a (parseable) candidate lies from the target, in whole seconds.
pub open spec fn cand_distance(c: Seq<char>, template: Seq<char>, target: LocalDateTime) -> int {
    spec_distance(from_parts(candidate_time(c, template).unwrap()), target)
}

/// `p` ranks at least as well as `c`: nearer to the target, or as near and
/// not smaller in the path order.
pub open spec fn ranks_first(
    p: Seq<char>,
    c: Seq<char>,
    template: Seq<char>,
    target: LocalDateTime,
) -> bool {
    cand_distance(p, template, target) < cand_distance(c, template, target) || (cand_distance(
        p,
        template,
        target,
    ) == cand_distance(c, template, target) && path_le(c, p))
}

/// `p` is the candidate chosen among `cands`: the greatest in the path order
/// without a target; with one, the parseable candidate nearest to it, ties
/// going to the greater.
pub open spec fn is_pick(
    cands: Seq<Seq<char>>,
    at: Option<LocalDateTime>,
    template: Seq<char>,
    p: Seq<char>,
) -> bool {
    &&& cands.contains(p)
    &&& match at {
        None => forall|i: int| 0 <= i < cands.len() ==> path_le(#[trigger] cands[i], p),
        Some(t) => {
            &&& candidate_time(p, template) is Some
            &&& forall|i: int|
                0 <= i < cands.len() && (#[trigger] candidate_time(cands[i], template)) is Some
                    ==> ranks_first(p, cands[i], template, t)
        },
    }
}

/// With a target, no candidate has a parseable suffix.
pub open spec fn pick_fails(
    cands: Seq<Seq<char>>,
    at: Option<LocalDateTime>,
    template: Seq<char>,
) -> bool {
    at is Some && cands.len() > 0 && forall|i: int|
        0 <= i < cands.len() ==> (#[trigger] candidate_time(cands[i], template)) is None
}

/// The error reported when no candidate's suffix parses.
pub open spec fn pick_error_text(total: nat, template: Seq<char>) -> Seq<char> {
    "--at: none of the "@ + spec_decimal(total)
        + " backup candidate(s) has a date-time suffix parseable with template "@
        + spec_debug_text(template)
}

/// The date-time of the candidate `c`, parsed from its suffix.
fn time_of_candidate(c: &str, template: &str) -> (r: Option<LocalDateTime>)
    ensures
        match r {
            Some(t) => candidate_time(c@, template@) == Some(parts_of(t)),
            None => candidate_time(c@, template@) is None,
        },
{
    match file_name(c) {
        Ok(f) => {
            let fv = chars_of(f.as_str());
            match last_sep(&fv) {
                Some(i) => {
                    proof {
                        lemma_last_sep_index_bounds(fv@);
                    }
                    let sfx = string_of(&fv, i + 1, fv.len());
                    assert(sfx@ =~= f@.skip(i + 1));
                    parse_when(sfx.as_str(), template)
                },
                None => None,
            }
        },
        Err(_) => None,
    }
}

/// Choose among candidate backup artifacts: the suffix date-time nearest to
/// `at` when given (ties to the greater name), otherwise the greatest name
/// ("latest"). `None` when there is no candidate; an error when `at` is given
/// and no candidate's suffix parses.
pub fn pick(candidates: Vec<String>, at: Option<LocalDateTime>, template: &str) -> (r: Result<
    Option<String>,
    String,
>)
    ensures
        candidates@.len() == 0 ==> r matches Ok(None),
        pick_fails(views(candidates@), at, template@) ==> (r matches Err(e) && e@ == pick_error_text(
            candidates@.len(),
            template@,
        )),
        candidates@.len() > 0 && !pick_fails(views(candidates@), at, template@) ==> (r matches Ok(
            Some(p),
        ) && is_pick(views(candidates@), at, template@, p@)),
{
    let ghost cv = views(candidates@);
    let n = candidates.len();
    if n == 0 {
        return Ok(None);
    }
    match at {
        None => {
            let mut best: usize = 0;
            let mut i: usize = 1;
            while i < n
                invariant
                    n == candidates@.len(),
                    cv == views(candidates@),
                    1 <= i <= n,
                    best < i,
                    forall|k: int| 0 <= k < i ==> path_le(#[trigger] cv[k], cv[best as int]),
                decreases n - i,
            {
                if !path_less(candidates[i].as_str(), candidates[best].as_str()) {
                    proof {
                        lemma_path_lt_connected(cv[i as int], cv[best as int]);
                        assert forall|k: int| 0 <= k < i + 1 implies path_le(#[trigger] cv[k], cv[i as int]) by {
                            if k < i && cv[k] != cv[best as int] && cv[best as int] != cv[i as int] {
                                lemma_path_lt_transitive(cv[k], cv[best as int], cv[i as int]);
                            }
                        }
                    }
                    best = i;
                } else {
                    assert(path_le(cv[i as int], cv[best as int]));
                }
                i += 1;
            }
            let p = candidates[best].clone();
            assert(cv[best as int] == p@);
            Ok(Some(p))
        },
        Some(target) => {
            let mut best: Option<(u64, usize)> = None;
            let mut i: usize = 0;
            while i < n
                invariant
                    n == candidates@.len(),
                    cv == views(candidates@),
                    i <= n,
                    at == Some(target),
                    match best {
                        None => forall|k: int|
                            0 <= k < i ==> (#[trigger] candidate_time(cv[k], template@)) is None,
                        Some((d, b)) => {
                            &&& b < i
                            &&& candidate_time(cv[b as int], template@) is Some
                            &&& d == cand_distance(cv[b as int], template@, target)
                            &&& forall|k: int|
                                0 <= k < i && (#[trigger] candidate_time(cv[k], template@)) is Some
                                    ==> ranks_first(cv[b as int], cv[k], template@, target)
                        },
                    },
                decreases n - i,
            {
                match time_of_candidate(candidates[i].as_str(), template) {
                    None => {},
                    Some(t) => {
                        let dist = distance_seconds(t, target);
                        assert(from_parts(candidate_time(cv[i as int], template@).unwrap()) == t);
                        let better = match best {
                            None => true,
                            Some((d, b)) => dist < d || (dist == d && path_less(
                                candidates[b].as_str(),
                                candidates[i].as_str(),
                            )),
                        };
                        if better {
                            proof {
                                assert forall|k: int|
                                    0 <= k < i + 1 && (#[trigger] candidate_time(
                                        cv[k],
                                        template@,
                                    )) is Some implies ranks_first(
                                    cv[i as int],
                                    cv[k],
                                    template@,
                                    target,
                                ) by {
                                    if k == i {
                                    } else {
                                        match best {
                                            None => {},
                                            Some((d, b)) => {
                                                assert(ranks_first(cv[b as int], cv[k], template@, target));
                                                if dist == d && path_lt(cv[b as int], cv[i as int]) {
                                                    if cv[k] != cv[b as int] && cand_distance(cv[k], template@, target) == d {
                                                        lemma_path_lt_transitive(cv[k], cv[b as int], cv[i as int]);
                                                    }
                                                }
                                            },
                                        }
                                    }
                                }
                            }
                            best = Some((dist, i));
                        } else {
                            proof {
                                match best {
                                    None => {},
                                    Some((d, b)) => {
                                        lemma_path_lt_connected(cv[b as int], cv[i as int]);
                                        assert(ranks_first(cv[b as int], cv[i as int], template@, target));
                                    },
                                }
                            }
                        }
                    },
                }
                i += 1;
            }
            match best {
                Some((_, b)) => {
                    let p = candidates[b].clone();
                    assert(cv[b as int] == p@);
                    Ok(Some(p))
                },
                None => {
                    let mut e = "--at: none of the ".to_owned();
                    let total = decimal(n);
                    e.append(total.as_str());
                    e.append(" backup candidate(s) has a date-time suffix parseable with template ");
                    let q = debug_text(template);
                    e.append(q.as_str());
                    Err(e)
                },
            }
        },
    }
}

/// At most one candidate satisfies [`is_pick`] (up to equal names): the
/// choice of restore is determined by the candidates, the target and the
/// template.
pub proof fn law_pick_unique(
    cands: Seq<Seq<char>>,
    at: Option<LocalDateTime>,
    template: Seq<char>,
    p: Seq<char>,
    q: Seq<char>,
)
    requires
        is_pick(cands, at, template, p),
        is_pick(cands, at, template, q),
    ensures
        p == q,
{
    let i = choose|i: int| 0 <= i < cands.len() && cands[i] == p;
    let j = choose|j: int| 0 <= j < cands.len() && cands[j] == q;
    match at {
        None => {
            assert(path_le(cands[i], q));
            assert(path_le(cands[j], p));
            if p != q {
                crate::text::lemma_path_lt_asymmetric(p, q);
            }
        },
        Some(t) => {
            assert(candidate_time(cands[j], template) is Some);
            assert(candidate_time(cands[i], template) is Some);
            assert(ranks_first(p, cands[j], template, t));
            assert(ranks_first(q, cands[i], template, t));
            if p != q {
                crate::text::lemma_path_lt_asymmetric(p, q);
            }
        },
    }
}

/// Restore and cleanup rank versions by one rule: the version that restore
/// picks without `--at` is exactly the version that `--keep 1` leaves.
pub proof fn law_latest_is_kept(cands: Seq<Seq<char>>, template: Seq<char>, p: Seq<char>)
    requires
        is_pick(cands, None, template, p),
    ensures
        survivors(cands, 1) == seq![p],
{
    broadcast use vstd::seq_lib::group_to_multiset_ensures;

    let i = choose|i: int| 0 <= i < cands.len() && cands[i] == p;
    if cands.len() <= 1 {
        lemma_path_order_total();
        cands.lemma_sort_by_ensures(path_order());
        let s = cands.sort_by(path_order());
        vstd::seq_lib::to_multiset_len(cands);
        vstd::seq_lib::to_multiset_len(s);
        assert(s.contains(s[0]));
        assert(cands.contains(s[0]));
        assert(s =~= seq![p]);
    } else {
        lemma_path_order_total();
        cands.lemma_sort_by_ensures(path_order());
        let s = cands.sort_by(path_order());
        let n = cands.len() as int;
        vstd::seq_lib::to_multiset_len(cands);
        vstd::seq_lib::to_multiset_len(s);
        assert(s.len() == n);
        let top = s[n - 1];
        assert(s.contains(top));
        assert(cands.contains(top));
        let j = choose|j: int| 0 <= j < n && cands[j] == top;
        assert(path_le(cands[j], p));
        assert(cands.to_multiset().count(p) > 0);
        assert(s.contains(p));
        let k = choose|k: int| 0 <= k < n && s[k] == p;
        if k < n - 1 {
            assert(path_order()(s[k], s[n - 1]));
        }
        assert(path_le(p, top));
        if p != top {
            lemma_path_lt_asymmetric(p, top);
        }
        assert(s.skip(n - 1) =~= seq![p]);
    }
}

/// Restoring right after a single-file backup restores that backup: when
/// the directory searched holds the backup alone, it is the one artifact
/// found, and without `--at` it is the version picked.
pub proof fn law_restore_finds_the_backup(
    src: Seq<char>,
    dest: Seq<char>,
    suffix: Seq<char>,
    template: Seq<char>,
    platform: Platform,
)
    requires
        spec_mirror_path(src, platform) is Ok,
        !suffix.contains('/'),
        !suffix.contains('~'),
    ensures
        spec_scope(src, dest, platform) is Ok,
        spec_backup_target(src, dest, suffix, SourceKind::File, platform) is Ok,
        ({
            let prefix = spec_scope(src, dest, platform)->Ok_0.1;
            let t = spec_backup_target(src, dest, suffix, SourceKind::File, platform)->Ok_0;
            &&& select_matching(seq![t].sort_by(path_order()), prefix) == seq![t]
            &&& is_pick(seq![t], None, template, t)
        }),
{
    law_backup_is_found(src, dest, suffix, SourceKind::File, platform);
    let t = spec_backup_target(src, dest, suffix, SourceKind::File, platform)->Ok_0;
    let one = seq![t];
    lemma_path_order_total();
    one.lemma_sort_by_ensures(path_order());
    let s = one.sort_by(path_order());
    vstd::seq_lib::to_multiset_len(one);
    vstd::seq_lib::to_multiset_len(s);
    assert(s.contains(s[0]));
    assert(one.contains(s[0]));
    assert(s =~= one);
    assert(one.drop_last() =~= Seq::<Seq<char>>::empty());
    assert(one[0] == t);
    let prefix = spec_scope(src, dest, platform)->Ok_0.1;
    assert(entry_matches(t, prefix));
    assert(select_matching(one.drop_last(), prefix) =~= Seq::<Seq<char>>::empty());
    assert(select_matching(one, prefix) =~= seq![t]);
    assert(one.contains(t));
    assert(is_pick(one, None, template, t));
}

/// The whole-directory backups among the flat artifacts.
pub open spec fn flat_dirs(flat: Seq<(String, bool)>) -> Seq<Seq<char>> {
    select_kind(flat_views(flat), true)
}

/// The single-file backups among the flat artifacts.
pub open spec fn flat_files(flat: Seq<(String, bool)>) -> Seq<Seq<char>> {
    select_kind(flat_views(flat), false)
}

/// Where a restore takes its data from.
pub enum RestorePlan {
    /// A whole-directory backup, copied back file by file.
    WholeDir(String),
    /// The per-file layout, each file from its own chosen version.
    PerFile,
    /// A single-file backup.
    SingleFile(String),
}

/// Decides where to restore the source `src` from. A missing source or a
/// directory is restored preferably from a whole-directory backup, else from
/// the per-file layout when it exists; a missing source or a file is
/// restored from a single-file backup.
pub fn plan_restore(
    src: &str,
    flat: &Vec<(String, bool)>,
    src_missing: bool,
    src_is_dir: bool,
    layout_is_dir: bool,
    at: Option<LocalDateTime>,
    template: &str,
) -> (r: Result<RestorePlan, String>)
    ensures
        (src_missing || src_is_dir) && flat_dirs(flat@).len() > 0 ==> (if pick_fails(
            flat_dirs(flat@),
            at,
            template@,
        ) {
            r matches Err(e) && e@ == pick_error_text(flat_dirs(flat@).len(), template@)
        } else {
            r matches Ok(RestorePlan::WholeDir(b)) && is_pick(flat_dirs(flat@), at, template@, b@)
        }),
        (src_missing || src_is_dir) && flat_dirs(flat@).len() == 0 && layout_is_dir ==> r matches Ok(
            RestorePlan::PerFile,
        ),
        !((src_missing || src_is_dir) && (flat_dirs(flat@).len() > 0 || layout_is_dir)) && (
        src_missing || !src_is_dir) && flat_files(flat@).len() > 0 ==> (if pick_fails(
            flat_files(flat@),
            at,
            template@,
        ) {
            r matches Err(e) && e@ == pick_error_text(flat_files(flat@).len(), template@)
        } else {
            r matches Ok(RestorePlan::SingleFile(b)) && is_pick(flat_files(flat@), at, template@, b@)
        }),
        !((src_missing || src_is_dir) && (flat_dirs(flat@).len() > 0 || layout_is_dir)) && !((
        src_missing || !src_is_dir) && flat_files(flat@).len() > 0) ==> (r matches Err(e) && e@
            == "no backup found for "@ + src@),
{
    if src_missing || src_is_dir {
        let dirs = select_flat(flat, true);
        match pick(dirs, at, template) {
            Err(e) => {
                return Err(e);
            },
            Ok(Some(best)) => {
                return Ok(RestorePlan::WholeDir(best));
            },
            Ok(None) => {},
        }
        if layout_is_dir {
            return Ok(RestorePlan::PerFile);
        }
    }
    if src_missing || !src_is_dir {
        let files = select_flat(flat, false);
        match pick(files, at, template) {
            Err(e) => {
                return Err(e);
            },
            Ok(Some(best)) => {
                return Ok(RestorePlan::SingleFile(best));
            },
            Ok(None) => {},
        }
    }
    Err(concat("no backup found for ", src))
}

/// Copies for restoring a whole-directory backup: each file (absolute,
/// relative to the backup) goes to the same relative path under `src`.
pub fn dir_restore_jobs(src: &str, files: &Vec<(String, String)>) -> (r: Vec<(String, String)>)
    ensures
        r@.len() == files@.len(),
        forall|i: int|
            0 <= i < files@.len() ==> (#[trigger] r@[i]).0@ == files@[i].0@ && r@[i].1@
                == spec_join_path(src@, files@[i].1@),
{
    let mut r: Vec<(String, String)> = Vec::new();
    let mut i: usize = 0;
    while i < files.len()
        invariant
            i <= files@.len(),
            r@.len() == i,
            forall|k: int|
                0 <= k < i ==> (#[trigger] r@[k]).0@ == files@[k].0@ && r@[k].1@ == spec_join_path(
                    src@,
                    files@[k].1@,
                ),
        decreases files.len() - i,
    {
        let to = join_path(src, files[i].1.as_str());
        r.push((files[i].0.clone(), to));
        i += 1;
    }
    r
}

pub proof fn lemma_group_members_present(s: Seq<(Seq<char>, Seq<char>)>, k: Seq<char>)
    requires
        has_key(s, k),
    ensures
        group_members(s, k).len() > 0,
    decreases s.len(),
{
    let init = s.drop_last();
    if crate::naming::spec_strip_rel_suffix(s.last().1) != k {
        assert(has_key(init, k)) by {
            let i = choose|i: int| 0 <= i < s.len() && crate::naming::spec_strip_rel_suffix(#[trigger] s[i].1) == k;
            assert(i < s.len() - 1);
            assert(init[i] == s[i]);
        }
        lemma_group_members_present(init, k);
    }
}

/// Copies for restoring from the per-file layout: for every item (in path
/// order) its chosen version goes to the item's relative path under `src`.
pub fn layout_restore_jobs(
    src: &str,
    per_file: &Vec<(String, String)>,
    at: Option<LocalDateTime>,
    template: &str,
) -> (r: Result<Vec<(String, String)>, String>)
    ensures
        group_keys(pair_views(per_file@)).len() == 0 ==> (r matches Err(e) && e@
            == "no backup found for "@ + src@),
        (forall|j: int|
            0 <= j < group_keys(pair_views(per_file@)).len() ==> !pick_fails(
                group_members(pair_views(per_file@), #[trigger] group_keys(pair_views(per_file@))[j]),
                at,
                template@,
            )) && group_keys(pair_views(per_file@)).len() > 0 ==> (r matches Ok(jobs) && jobs@.len()
            == group_keys(pair_views(per_file@)).len() && forall|j: int|
            0 <= j < jobs@.len() ==> (#[trigger] jobs@[j]).1@ == spec_join_path(
                src@,
                group_keys(pair_views(per_file@))[j],
            ) && is_pick(
                group_members(pair_views(per_file@), group_keys(pair_views(per_file@))[j]),
                at,
                template@,
                jobs@[j].0@,
            )),
        (exists|j: int|
            0 <= j < group_keys(pair_views(per_file@)).len() && pick_fails(
                group_members(pair_views(per_file@), #[trigger] group_keys(pair_views(per_file@))[j]),
                at,
                template@,
            )) ==> r is Err,
        match r {
            Err(e) => group_keys(pair_views(per_file@)).len() > 0 ==> exists|j: int|
                0 <= j < group_keys(pair_views(per_file@)).len() && pick_fails(
                    group_members(pair_views(per_file@), #[trigger] group_keys(pair_views(per_file@))[j]),
                    at,
                    template@,
                ) && e@ == pick_error_text(
                    group_members(pair_views(per_file@), group_keys(pair_views(per_file@))[j]).len(),
                    template@,
                ) && forall|k: int|
                    0 <= k < j ==> !pick_fails(
                        group_members(
                            pair_views(per_file@),
                            #[trigger] group_keys(pair_views(per_file@))[k],
                        ),
                        at,
                        template@,
                    ),
            Ok(_) => true,
        },
{
    let ghost pv = pair_views(per_file@);
    let (keys, members) = group_versions(per_file);
    let ghost kv = views(keys@);
    assert(crate::cleanup::is_key_order(pv, kv));
    let mut jobs: Vec<(String, String)> = Vec::new();
    let mut j: usize = 0;
    while j < keys.len()
        invariant
            j <= keys@.len(),
            members@.len() == keys@.len(),
            kv == views(keys@),
            kv == group_keys(pv),
            crate::cleanup::is_key_order(pv, kv),
            pv == pair_views(per_file@),
            forall|m: int|
                0 <= m < keys@.len() ==> views(#[trigger] members@[m]@) == group_members(pv, keys@[m]@),
            jobs@.len() == j,
            forall|m: int|
                0 <= m < j ==> !pick_fails(group_members(pv, #[trigger] kv[m]), at, template@),
            forall|m: int|
                0 <= m < j ==> (#[trigger] jobs@[m]).1@ == spec_join_path(src@, kv[m]) && is_pick(
                    group_members(pv, kv[m]),
                    at,
                    template@,
                    jobs@[m].0@,
                ),
        decreases keys.len() - j,
    {
        assert(views(members@[j as int]@) == group_members(pv, kv[j as int]));
        proof {
            assert(kv.to_set().contains(kv[j as int]));
            assert(crate::cleanup::group_key_set(pv).contains(kv[j as int]));
            lemma_group_members_present(pv, kv[j as int]);
        }
        let versions = members[j].clone();
        assert(versions@ =~= members@[j as int]@);
        match pick(versions, at, template) {
            Err(e) => {
                return Err(e);
            },
            Ok(Some(best)) => {
                let to = join_path(src, keys[j].as_str());
                jobs.push((best, to));
            },
            Ok(None) => {
                assert(false);
            },
        }
        j += 1;
    }
    if jobs.len() == 0 {
        return Err(concat("no backup found for ", src));
    }
    Ok(jobs)
}

} // verus!

verus! {

/// The conversion letters of a date-time format, in order (`%Y-%m-%d` →
/// `Ymd`).
pub open spec fn conversions(f: Seq<char>) -> Seq<char>
    decreases f.len(),
{
    if f.len() < 2 {
        Seq::empty()
    } else if f[0] == '%' {
        seq![f[1]] + conversions(f.skip(2))
    } else {
        conversions(f.drop_first())
    }
}

/// `f` with every `/` written as `-`.
pub open spec fn dashed(f: Seq<char>) -> Seq<char> {
    f.map_values(|c: char| if c == '/' { '-' } else { c })
}

/// Every fixed form that `--at` and backup suffixes are read with takes the
/// year, then the month, then the day (then hours and minutes, with seconds
/// where given), and the slash forms are the dashed forms with `/`: a
/// `Y/M/D h:m` string is read field for field as `Y-M-D h:m` is.
pub proof fn law_formats_read_year_month_day(template: Seq<char>)
    ensures
        forall|i: int|
            1 <= i < 7 ==> (#[trigger] conversions(datetime_formats(template)[i])).take(5) == seq![
                'Y',
                'm',
                'd',
                'H',
                'M',
            ],
        forall|i: int|
            1 <= i < 4 ==> #[trigger] conversions(date_formats(template)[i]) == seq!['Y', 'm', 'd'],
        dashed(datetime_formats(template)[3]) == datetime_formats(template)[1],
        dashed(datetime_formats(template)[4]) == datetime_formats(template)[2],
        dashed(date_formats(template)[3]) == date_formats(template)[1],
{
    reveal_strlit("%Y-%m-%d %H:%M:%S");
    reveal_strlit("%Y-%m-%d %H:%M");
    reveal_strlit("%Y/%m/%d %H:%M:%S");
    reveal_strlit("%Y/%m/%d %H:%M");
    reveal_strlit("%Y%m%d_%H%M%S");
    reveal_strlit("%Y-%m-%dT%H:%M:%S");
    reveal_strlit("%Y-%m-%d");
    reveal_strlit("%Y%m%d");
    reveal_strlit("%Y/%m/%d");
    reveal_with_fuel(conversions, 20);
    assert(dashed("%Y/%m/%d %H:%M:%S"@) =~= "%Y-%m-%d %H:%M:%S"@);
    assert(dashed("%Y/%m/%d %H:%M"@) =~= "%Y-%m-%d %H:%M"@);
    assert(dashed("%Y/%m/%d"@) =~= "%Y-%m-%d"@);
    assert(conversions("%Y-%m-%d %H:%M:%S"@).take(5) =~= seq!['Y', 'm', 'd', 'H', 'M']);
    assert(conversions("%Y-%m-%d %H:%M"@).take(5) =~= seq!['Y', 'm', 'd', 'H', 'M']);
    assert(conversions("%Y/%m/%d %H:%M:%S"@).take(5) =~= seq!['Y', 'm', 'd', 'H', 'M']);
    assert(conversions("%Y/%m/%d %H:%M"@).take(5) =~= seq!['Y', 'm', 'd', 'H', 'M']);
    assert(conversions("%Y%m%d_%H%M%S"@).take(5) =~= seq!['Y', 'm', 'd', 'H', 'M']);
    assert(conversions("%Y-%m-%dT%H:%M:%S"@).take(5) =~= seq!['Y', 'm', 'd', 'H', 'M']);
    assert(conversions("%Y-%m-%d"@) =~= seq!['Y', 'm', 'd']);
    assert(conversions("%Y%m%d"@) =~= seq!['Y', 'm', 'd']);
    assert(conversions("%Y/%m/%d"@) =~= seq!['Y', 'm', 'd']);
}

} // verus!

verus! {

/// A backup named `<name>~<suffix>` (in any directory, the name may hold
/// `~` itself) stands for exactly the date-time its suffix is read as, time
/// of day included; so with `--at` its distance to the target is measured
/// from that full date-time.
pub proof fn law_candidate_time_is_its_suffix(
    dir: Seq<char>,
    name: Seq<char>,
    suffix: Seq<char>,
    template: Seq<char>,
)
    requires
        is_plain_segment(name),
        !suffix.contains('~'),
        !suffix.contains('/'),
    ensures
        candidate_time(spec_join_path(dir, spec_suffix_name(name, suffix)), template)
            == spec_parse_when(suffix, template),
{
    let x = spec_suffix_name(name, suffix);
    law_suffix_name_last_sep(name, suffix);
    assert(!x.contains('/')) by {
        if x.contains('/') {
            let k = choose|k: int| 0 <= k < x.len() && x[k] == '/';
            if k < name.len() {
                assert(name[k] == '/');
            } else if k > name.len() {
                assert(suffix[k - name.len() - 1] == '/');
            }
        }
    }
    assert(x[name.len() as int] == '~');
    assert(is_plain_segment(x));
    lemma_components_append_plain(dir, x);
    assert(spec_file_name(spec_join_path(dir, x)) == Some(x));
    assert(x.skip(name.len() + 1int) =~= suffix);
}

} // verus!

verus! {

/// The distance between two date-times does not depend on their order, is
/// zero from a date-time to itself, and, away from leap seconds and with
/// equal fractions, is the plain number of seconds between them.
pub proof fn law_distance_is_seconds_apart(a: LocalDateTime, b: LocalDateTime)
    ensures
        spec_distance(a, b) == spec_distance(b, a),
        spec_distance(a, a) == 0,
        a.frac == b.frac && a.frac < 1_000_000_000 ==> spec_distance(a, b) == abs_int(
            (a.days_ce - b.days_ce) * 86_400 + (a.secs - b.secs),
        ),
{
    assert(diff_nanos(a, b) == -diff_nanos(b, a));
    assert(abs_int(diff_nanos(a, b)) == abs_int(diff_nanos(b, a)));
    assert(diff_nanos(a, a) == 0);
    if a.frac == b.frac && a.frac < 1_000_000_000 {
        let x = (a.days_ce - b.days_ce) * 86_400 + (a.secs - b.secs);
        assert(leap_adjust(a, b) == 0);
        assert(diff_nanos(a, b) == x * 1_000_000_000);
        assert(abs_int(x * 1_000_000_000) / 1_000_000_000 == abs_int(x)) by (nonlinear_arith);
    }
}

} // verus!

verus! {

/// The value of a decimal digit character (its code point above `0`).
pub open spec fn digit_value(c: char) -> int {
    (c as int) - ('0' as int)
}

/// The number a string of decimal digits denotes.
pub open spec fn decimal_value(s: Seq<char>) -> int
    decreases s.len(),
{
    if s.len() == 0 {
        0
    } else {
        decimal_value(s.drop_last()) * 10 + digit_value(s.last())
    }
}

/// Each digit character stands for its digit.
proof fn lemma_digit_value(d: int)
    requires
        0 <= d < 10,
    ensures
        digit_value(digit_char(d)) == d,
        '0' <= digit_char(d) <= '9',
{
}

/// The count in an error message is written in decimal: a non-empty string
/// of digits, without a leading zero, that denotes exactly the count.
pub proof fn law_decimal_denotes_the_number(n: nat)
    ensures
        spec_decimal(n).len() > 0,
        spec_decimal(n).len() == 1 <==> n < 10,
        forall|i: int|
            0 <= i < spec_decimal(n).len() ==> '0' <= #[trigger] spec_decimal(n)[i] <= '9',
        spec_decimal(n).len() > 1 ==> spec_decimal(n)[0] != '0',
        decimal_value(spec_decimal(n)) == n,
    decreases n,
{
    if n >= 10 {
        law_decimal_denotes_the_number(n / 10);
        let s = spec_decimal(n);
        let p = spec_decimal(n / 10);
        assert(s.drop_last() =~= p);
        assert(s[0] == p[0]);
        lemma_digit_value((n % 10) as int);
        assert forall|i: int| 0 <= i < s.len() implies '0' <= #[trigger] s[i] <= '9' by {
            if i < p.len() {
                assert(s[i] == p[i]);
            }
        }
        if p.len() == 1 {
            assert(p[0] == digit_char((n / 10) as int));
            lemma_digit_value((n / 10) as int);
        }
        assert(s.last() == digit_char((n % 10) as int));
        assert(decimal_value(s) == decimal_value(p) * 10 + digit_value(s.last()));
        assert((n / 10) * 10 + n % 10 == n);
    } else {
        lemma_digit_value(n as int);
        let s = spec_decimal(n);
        assert(s.drop_last() =~= Seq::<char>::empty());
        assert(decimal_value(s.drop_last()) == 0);
        assert(decimal_value(s) == digit_value(s.last()));
    }
}

} // verus!
