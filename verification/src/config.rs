//! Backup root and suffix-template resolution. The environment itself is
//! read by the caller; these functions decide from the values it found.

use vstd::prelude::*;

use crate::naming::{join_path, spec_join_path};

verus! {

/// Environment variable naming the backup root.
pub const ENV_DEST: &'static str = "BUK_PATH";

/// Environment variable holding the fallback suffix template.
pub const ENV_TEMPLATE: &'static str = "BUK_SUFFIX_TEMPLATE";

/// Suffix template used when neither `-t` nor `$BUK_SUFFIX_TEMPLATE` gives one.
pub const DEFAULT_TEMPLATE: &'static str = "%Y%m%d_%H%M%S";

/// The text of a set, non-empty variable value.
pub open spec fn non_empty(v: Option<Seq<char>>) -> Option<Seq<char>> {
    match v {
        Some(t) => if t.len() > 0 {
            Some(t)
        } else {
            None
        },
        None => None,
    }
}

pub open spec fn opt_view(v: Option<String>) -> Option<Seq<char>> {
    match v {
        Some(t) => Some(t@),
        None => None,
    }
}

/// The backup root chosen from `$BUK_PATH` and the home directory.
pub open spec fn spec_resolve_root(buk_path: Option<Seq<char>>, home: Option<Seq<char>>) -> Result<
    Seq<char>,
    Seq<char>,
> {
    match non_empty(buk_path) {
        Some(v) => Ok(v),
        None => match non_empty(home) {
            Some(h) => Ok(spec_join_path(h, ".buk"@)),
            None => Err(
                "cannot determine backup root: BUK_PATH is not set and the home directory is unknown"@,
            ),
        },
    }
}

/// The suffix template chosen from `-t` and `$BUK_SUFFIX_TEMPLATE`.
pub open spec fn spec_resolve_template(arg: Option<Seq<char>>, env: Option<Seq<char>>) -> Seq<char> {
    match arg {
        Some(t) => t,
        None => match non_empty(env) {
            Some(t) => t,
            None => DEFAULT_TEMPLATE@,
        },
    }
}

/// Backup root: `buk_path` (the value of `$BUK_PATH`) if set and non-empty,
/// else `<home>/.buk`; an error when neither is known.
pub fn resolve_root(buk_path: Option<String>, home: Option<String>) -> (r: Result<String, String>)
    ensures
        match r {
            Ok(root) => spec_resolve_root(opt_view(buk_path), opt_view(home)) == Ok::<
                Seq<char>,
                Seq<char>,
            >(root@),
            Err(e) => spec_resolve_root(opt_view(buk_path), opt_view(home)) == Err::<
                Seq<char>,
                Seq<char>,
            >(e@),
        },
{
    if let Some(v) = buk_path {
        if !v.as_str().is_empty() {
            return Ok(v);
        }
    }
    match home {
        Some(h) => {
            if !h.as_str().is_empty() {
                Ok(join_path(h.as_str(), ".buk"))
            } else {
                Err(
                    "cannot determine backup root: BUK_PATH is not set and the home directory is unknown".to_owned(),
                )
            }
        },
        None => Err(
            "cannot determine backup root: BUK_PATH is not set and the home directory is unknown".to_owned(),
        ),
    }
}

/// Template precedence: `-t` argument > `env` (the value of
/// `$BUK_SUFFIX_TEMPLATE`, when set and non-empty) > [`DEFAULT_TEMPLATE`].
pub fn resolve_template(arg: Option<&str>, env: Option<String>) -> (r: String)
    ensures
        r@ == spec_resolve_template(
            match arg {
                Some(t) => Some(t@),
                None => None,
            },
            opt_view(env),
        ),
{
    if let Some(t) = arg {
        return t.to_owned();
    }
    match env {
        Some(t) => {
            if !t.as_str().is_empty() {
                t
            } else {
                DEFAULT_TEMPLATE.to_owned()
            }
        },
        None => DEFAULT_TEMPLATE.to_owned(),
    }
}

} // verus!

verus! {

/// Where backups go: a non-empty `$BUK_PATH` as it is, otherwise `.buk` in
/// a non-empty home directory, and nowhere (an error) without either.
pub proof fn law_root_precedence(buk_path: Seq<char>, home: Seq<char>)
    ensures
        buk_path.len() > 0 ==> spec_resolve_root(Some(buk_path), Some(home))
            == Ok::<Seq<char>, Seq<char>>(buk_path),
        buk_path.len() > 0 ==> spec_resolve_root(Some(buk_path), None) == Ok::<
            Seq<char>,
            Seq<char>,
        >(buk_path),
        home.len() > 0 && home.last() != '/' ==> spec_resolve_root(None, Some(home)) == Ok::<
            Seq<char>,
            Seq<char>,
        >(home + seq!['/', '.', 'b', 'u', 'k']),
        home.len() > 0 && home.last() != '/' ==> spec_resolve_root(Some(Seq::empty()), Some(home))
            == Ok::<Seq<char>, Seq<char>>(home + seq!['/', '.', 'b', 'u', 'k']),
        spec_resolve_root(None, None) is Err,
        spec_resolve_root(Some(Seq::empty()), Some(Seq::empty())) is Err,
{
    reveal_strlit(".buk");
    assert(home + seq!['/'] + ".buk"@ =~= home + seq!['/', '.', 'b', 'u', 'k']);
}

/// The suffix template: `-t` wins whatever it holds, then a non-empty
/// `$BUK_SUFFIX_TEMPLATE`, then `%Y%m%d_%H%M%S`.
pub proof fn law_template_precedence(arg: Seq<char>, env: Seq<char>)
    ensures
        spec_resolve_template(Some(arg), Some(env)) == arg,
        spec_resolve_template(Some(arg), None) == arg,
        env.len() > 0 ==> spec_resolve_template(None, Some(env)) == env,
        spec_resolve_template(None, None) == seq!['%', 'Y', '%', 'm', '%', 'd', '_', '%', 'H', '%', 'M', '%', 'S'],
        spec_resolve_template(None, Some(Seq::empty())) == spec_resolve_template(None, None),
{
    reveal_strlit("%Y%m%d_%H%M%S");
    assert("%Y%m%d_%H%M%S"@ =~= seq!['%', 'Y', '%', 'm', '%', 'd', '_', '%', 'H', '%', 'M', '%', 'S']);
}

} // verus!
