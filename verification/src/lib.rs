//! `buk` core library: decisions behind backup, list, restore and cleanup.
//!
//! The program around it parses the command line, resolves the backup root,
//! touches the filesystem and reports; everything it decides comes from here.

pub mod backup;
pub mod cleanup;
pub mod config;
pub mod drive;
pub mod fsutil;
pub mod list;
pub mod naming;
pub mod restore;
pub mod text;

use vstd::prelude::*;

pub use config::{resolve_root, resolve_template, DEFAULT_TEMPLATE, ENV_DEST, ENV_TEMPLATE};

use cleanup::{Criterion, DEFAULT_KEEP};

verus! {

/// Command-line options.
#[derive(Debug)]
pub struct Opt {
    /// File or directory to back up, list, or restore
    pub path: String,
    /// When the path is a directory, back up each sub-file individually
    pub recursive: bool,
    /// Restore the most recent backup for the given path
    pub restore: bool,
    /// Restore the backup nearest to this date-time (requires --restore)
    pub at: Option<String>,
    /// Date-time template for the backup suffix (falls back to
    /// $BUK_SUFFIX_TEMPLATE, then %Y%m%d_%H%M%S)
    pub template: Option<String>,
    /// List backup file information for the given path
    pub list: bool,
    /// Clean up backups; requires exactly one of --days, --keep, --orphan
    pub cleanup: bool,
    /// Cleanup criterion: remove backups older than DAYS (by mtime)
    pub days: Option<u64>,
    /// Cleanup criterion: keep only the newest KEEP versions per item (default: 5)
    pub keep: Option<Option<u64>>,
    /// Cleanup criterion: remove backups whose original source no longer exists
    pub orphan: bool,
}

/// The operation a set of options asks for.
#[derive(Debug, Clone, Copy, PartialEq, Eq, Structural)]
pub enum Command {
    List,
    Restore,
    Cleanup(Criterion),
    Backup,
}

/// The cleanup criterion the options give, or why they give none.
pub open spec fn spec_cleanup_criterion(opt: Opt) -> Result<Criterion, Seq<char>> {
    if !opt.cleanup {
        Err("--days/--keep/--orphan require --cleanup"@)
    } else if opt.list || opt.restore {
        Err("--cleanup cannot be combined with --list/--restore"@)
    } else {
        match (opt.days, opt.keep, opt.orphan) {
            (Some(d), None, false) => Ok(Criterion::Days(d)),
            (None, Some(k), false) => Ok(
                Criterion::Keep(
                    match k {
                        Some(n) => n,
                        None => DEFAULT_KEEP,
                    },
                ),
            ),
            (None, None, true) => Ok(Criterion::Orphan),
            (None, None, false) => Err(
                "cleanup requires a criterion: --days N, --keep [N], or --orphan"@,
            ),
            _ => Err("cleanup accepts only one of --days, --keep, --orphan"@),
        }
    }
}

/// The operation the options select, or why they are inconsistent.
pub open spec fn spec_select_command(opt: Opt) -> Result<Command, Seq<char>> {
    if opt.list && opt.restore {
        Err("--list and --restore cannot be combined"@)
    } else if opt.at is Some && !opt.restore {
        Err("--at requires --restore"@)
    } else if opt.cleanup || opt.days is Some || opt.keep is Some || opt.orphan {
        match spec_cleanup_criterion(opt) {
            Ok(c) => Ok(Command::Cleanup(c)),
            Err(e) => Err(e),
        }
    } else if opt.list {
        Ok(Command::List)
    } else if opt.restore {
        Ok(Command::Restore)
    } else {
        Ok(Command::Backup)
    }
}

/// The cleanup criterion: `-c` with exactly one of `--days N`, `--keep [N]`
/// (bare `--keep` keeps 5) and `--orphan`, and neither `-l` nor `-s`.
pub fn run_cleanup(opt: &Opt) -> (r: Result<Criterion, String>)
    ensures
        match r {
            Ok(c) => spec_cleanup_criterion(*opt) == Ok::<Criterion, Seq<char>>(c),
            Err(e) => spec_cleanup_criterion(*opt) == Err::<Criterion, Seq<char>>(e@),
        },
{
    if !opt.cleanup {
        return Err("--days/--keep/--orphan require --cleanup".to_owned());
    }
    if opt.list || opt.restore {
        return Err("--cleanup cannot be combined with --list/--restore".to_owned());
    }
    match (opt.days, opt.keep, opt.orphan) {
        (Some(d), None, false) => Ok(Criterion::Days(d)),
        (None, Some(k), false) => Ok(
            Criterion::Keep(
                match k {
                    Some(n) => n,
                    None => DEFAULT_KEEP,
                },
            ),
        ),
        (None, None, true) => Ok(Criterion::Orphan),
        (None, None, false) => Err(
            "cleanup requires a criterion: --days N, --keep [N], or --orphan".to_owned(),
        ),
        _ => Err("cleanup accepts only one of --days, --keep, --orphan".to_owned()),
    }
}

/// Dispatch on flags: `-l` and `-s` exclude each other, `--at` needs `-s`,
/// any cleanup flag selects cleanup, then list, restore, or (default) backup.
pub fn select_command(opt: &Opt) -> (r: Result<Command, String>)
    ensures
        match r {
            Ok(c) => spec_select_command(*opt) == Ok::<Command, Seq<char>>(c),
            Err(e) => spec_select_command(*opt) == Err::<Command, Seq<char>>(e@),
        },
{
    if opt.list && opt.restore {
        return Err("--list and --restore cannot be combined".to_owned());
    }
    if opt.at.is_some() && !opt.restore {
        return Err("--at requires --restore".to_owned());
    }
    if opt.cleanup || opt.days.is_some() || opt.keep.is_some() || opt.orphan {
        return match run_cleanup(opt) {
            Ok(c) => Ok(Command::Cleanup(c)),
            Err(e) => Err(e),
        };
    }
    if opt.list {
        return Ok(Command::List);
    }
    if opt.restore {
        return Ok(Command::Restore);
    }
    Ok(Command::Backup)
}

/// Cleanup needs exactly one criterion: with `-c` and neither `-l` nor `-s`,
/// the options are accepted exactly when one of `--days`, `--keep`,
/// `--orphan` is given.
pub proof fn law_exactly_one_criterion(opt: Opt)
    requires
        opt.cleanup,
        !opt.list,
        !opt.restore,
    ensures
        spec_cleanup_criterion(opt) is Ok <==> (if opt.days is Some {
            1int
        } else {
            0
        }) + (if opt.keep is Some {
            1int
        } else {
            0
        }) + (if opt.orphan {
            1int
        } else {
            0
        }) == 1,
{
}

/// Without cleanup flags the flags choose the operation directly: `-l`
/// lists, `-s` restores (with or without `--at`), and no flag backs up.
pub proof fn law_flags_select_operation(opt: Opt)
    requires
        !opt.cleanup,
        opt.days is None,
        opt.keep is None,
        !opt.orphan,
        !(opt.list && opt.restore),
        opt.at is Some ==> opt.restore,
    ensures
        opt.list ==> spec_select_command(opt) == Ok::<Command, Seq<char>>(Command::List),
        opt.restore ==> spec_select_command(opt) == Ok::<Command, Seq<char>>(Command::Restore),
        !opt.list && !opt.restore ==> spec_select_command(opt) == Ok::<Command, Seq<char>>(
            Command::Backup,
        ),
{
}

/// With `-c` (and neither `-l`, `-s` nor `--at`) the single criterion given
/// is the one carried out, with the very count the user passed: `--days d`
/// removes what is older than `d` days, `--keep n` keeps `n` versions, a
/// bare `--keep` keeps 5, and `--orphan` removes orphans.
pub proof fn law_cleanup_carries_the_given_count(opt: Opt)
    requires
        opt.cleanup,
        !opt.list,
        !opt.restore,
        opt.at is None,
    ensures
        opt.days is Some && opt.keep is None && !opt.orphan ==> spec_select_command(opt) == Ok::<
            Command,
            Seq<char>,
        >(Command::Cleanup(Criterion::Days(opt.days->0))),
        opt.keep is Some && opt.keep->0 is Some && opt.days is None && !opt.orphan
            ==> spec_select_command(opt) == Ok::<Command, Seq<char>>(
            Command::Cleanup(Criterion::Keep(opt.keep->0->0)),
        ),
        opt.keep == Some(None::<u64>) && opt.days is None && !opt.orphan ==> spec_select_command(
            opt,
        ) == Ok::<Command, Seq<char>>(Command::Cleanup(Criterion::Keep(5))),
        opt.orphan && opt.days is None && opt.keep is None ==> spec_select_command(opt) == Ok::<
            Command,
            Seq<char>,
        >(Command::Cleanup(Criterion::Orphan)),
{
}

} // verus!
