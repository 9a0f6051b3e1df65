# buk

A small command-line tool that backs up files and directories under a backup
root (`$BUK_PATH`, default `~/.buk`) with a date-time suffix, and lists,
restores and cleans up those backups.

Every decision the tool makes is written in Verus and proved against its
contract; the program around it only reads the command line and the
environment, touches the filesystem, and prints.

## Layout

- `src/` — the verified library
  - `naming.rs`: the `<name>~<suffix>` convention, lexical normalization of
    paths, mirroring of absolute paths under the backup root
  - `drive.rs`: Windows path prefixes, `\` as a separator, volume tokens
  - `backup.rs`: where a backup goes
  - `list.rs`: where a source's artifacts are looked for, and which entries
    are artifacts
  - `restore.rs`: choosing the version to restore (latest, or nearest to
    `--at`), and the restore plan
  - `cleanup.rs`: `--days`, `--keep` and `--orphan` decisions
  - `config.rs`: backup root and suffix template precedence
  - `fsutil.rs`: sizing of the parallel copy pool, the error it reports
  - `text.rs`: strings as character sequences, the path order, sorting
  - `lib.rs`: options and the choice of operation
- `tests/` — scenarios and edge cases, run against the compiled library
- `app/` — the program: argument parsing, environment, directory walking,
  copying, removal, threads and output

Paths are handled as UTF-8 strings, under the path rules of the platform
the program runs on, which it hands to the library: Unix (`/` alone) or
Windows (prefixes such as `C:` or `\\server\share`, `\` and `/` both
separating).
