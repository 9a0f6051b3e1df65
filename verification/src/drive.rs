//! Windows paths: their prefixes (`C:`, `\\server\share`, `\\.\name` and the
//! verbatim `\\?\` forms), `\` as a second separator, and the volume token
//! that stands for a prefix in a mirrored path.

use vstd::prelude::*;

verus! {

/// An ASCII letter, as a drive letter is.
pub open spec fn is_drive_letter(c: char) -> bool {
    ('A' <= c && c <= 'Z') || ('a' <= c && c <= 'z')
}

/// `p` starts with a drive prefix such as `C:`.
pub open spec fn has_drive(p: Seq<char>) -> bool {
    p.len() >= 2 && is_drive_letter(p[0]) && p[1] == ':'
}

/// A separator of a Windows path: `\` or `/`.
pub open spec fn is_win_sep(c: char) -> bool {
    c == '/' || c == '\\'
}

/// `s` with every `\` written as `/`.
pub open spec fn slashed(s: Seq<char>) -> Seq<char> {
    s.map_values(|c: char| if c == '\\' { '/' } else { c })
}

/// `s` with every `/` written as `\`.
pub open spec fn backslashed(s: Seq<char>) -> Seq<char> {
    s.map_values(|c: char| if c == '/' { '\\' } else { c })
}

/// A character kept in a volume token: a lowercase ASCII letter or a digit.
pub open spec fn is_token_char(c: char) -> bool {
    ('a' <= c && c <= 'z') || ('0' <= c && c <= '9')
}

/// The ASCII lowercase of an uppercase ASCII letter.
pub open spec fn ascii_lower(c: char) -> char {
    ((c as int) + 32) as char
}

/// The ASCII letters and digits that `s` holds once lowercased, in order.
/// Lowercasing yields ASCII only from `A`–`Z`, the Kelvin sign (`k`) and the
/// dotted capital I (`i` followed by a combining dot).
pub open spec fn token_chars(s: Seq<char>) -> Seq<char>
    decreases s.len(),
{
    if s.len() == 0 {
        Seq::empty()
    } else {
        let prev = token_chars(s.drop_last());
        let c = s.last();
        if 'A' <= c && c <= 'Z' {
            prev.push(ascii_lower(c))
        } else if is_token_char(c) {
            prev.push(c)
        } else if c == '\u{212A}' {
            prev.push('k')
        } else if c == '\u{130}' {
            prev.push('i')
        } else {
            prev
        }
    }
}

/// The token a volume prefix becomes in a mirrored path: the ASCII letters
/// and digits of its lowercase form, or `vol` when there are none
/// (`C:` → `c`).
pub open spec fn spec_sanitize_volume(p: Seq<char>) -> Seq<char> {
    if token_chars(p).len() == 0 {
        "vol"@
    } else {
        token_chars(p)
    }
}

/// Whether `v` starts with a drive prefix.
pub fn has_drive_prefix(v: &Vec<char>) -> (r: bool)
    ensures
        r == has_drive(v@),
{
    v.len() >= 2 && (('A' <= v[0] && v[0] <= 'Z') || ('a' <= v[0] && v[0] <= 'z')) && v[1] == ':'
}

/// `v[from..]` with every `\` written as `/`.
pub fn slashed_from(v: &Vec<char>, from: usize) -> (r: Vec<char>)
    requires
        from <= v.len(),
    ensures
        r@ == slashed(v@.skip(from as int)),
{
    let mut r: Vec<char> = Vec::new();
    let mut i = from;
    while i < v.len()
        invariant
            from <= i <= v.len(),
            r@ == slashed(v@.skip(from as int).take(i - from)),
        decreases v.len() - i,
    {
        let c = if v[i] == '\\' {
            '/'
        } else {
            v[i]
        };
        r.push(c);
        assert(v@.skip(from as int).take(i + 1 - from) =~= v@.skip(from as int).take(i - from).push(
            v@[i as int],
        ));
        assert(r@ =~= slashed(v@.skip(from as int).take(i + 1 - from)));
        i += 1;
    }
    assert(v@.skip(from as int).take(i - from) =~= v@.skip(from as int));
    r
}

/// `v` with every `/` written as `\`.
pub fn backslashed_all(v: &Vec<char>) -> (r: Vec<char>)
    ensures
        r@ == backslashed(v@),
{
    let mut r: Vec<char> = Vec::new();
    let mut i: usize = 0;
    while i < v.len()
        invariant
            i <= v.len(),
            r@ == backslashed(v@.take(i as int)),
        decreases v.len() - i,
    {
        let c = if v[i] == '/' {
            '\\'
        } else {
            v[i]
        };
        r.push(c);
        assert(v@.take(i + 1) =~= v@.take(i as int).push(v@[i as int]));
        assert(r@ =~= backslashed(v@.take(i + 1)));
        i += 1;
    }
    assert(v@.take(i as int) =~= v@);
    r
}

/// The lowercase of an uppercase ASCII letter.
fn lower_letter(c: char) -> (r: char)
    requires
        'A' <= c && c <= 'Z',
    ensures
        r == ascii_lower(c),
{
    let b: u8 = c as u8;
    let l: u8 = b + 32;
    l as char
}

/// The volume token of a prefix (see [`spec_sanitize_volume`]): `C:` → `c`.
pub fn sanitize_volume(p: &Vec<char>) -> (r: Vec<char>)
    ensures
        r@ == spec_sanitize_volume(p@),
{
    let mut r: Vec<char> = Vec::new();
    let mut i: usize = 0;
    while i < p.len()
        invariant
            i <= p.len(),
            r@ == token_chars(p@.take(i as int)),
        decreases p.len() - i,
    {
        let c = p[i];
        assert(p@.take(i + 1).drop_last() =~= p@.take(i as int));
        if 'A' <= c && c <= 'Z' {
            r.push(lower_letter(c));
        } else if ('a' <= c && c <= 'z') || ('0' <= c && c <= '9') {
            r.push(c);
        } else if c == '\u{212A}' {
            r.push('k');
        } else if c == '\u{130}' {
            r.push('i');
        }
        i += 1;
    }
    assert(p@.take(i as int) =~= p@);
    if r.len() == 0 {
        let mut v: Vec<char> = Vec::new();
        v.push('v');
        v.push('o');
        v.push('l');
        proof {
            reveal_strlit("vol");
        }
        assert(v@ =~= "vol"@);
        v
    } else {
        r
    }
}

/// Every character of a token is a lowercase ASCII letter or a digit.
pub proof fn lemma_token_chars(s: Seq<char>)
    ensures
        forall|i: int| 0 <= i < token_chars(s).len() ==> is_token_char(#[trigger] token_chars(s)[i]),
    decreases s.len(),
{
    if s.len() > 0 {
        lemma_token_chars(s.drop_last());
        let c = s.last();
        let prev = token_chars(s.drop_last());
        if 'A' <= c && c <= 'Z' {
            assert((ascii_lower(c) as int) == (c as int) + 32);
            assert(is_token_char(ascii_lower(c)));
            assert(token_chars(s) == prev.push(ascii_lower(c)));
        } else if is_token_char(c) {
            assert(token_chars(s) == prev.push(c));
        } else if c == '\u{212A}' {
            assert(token_chars(s) == prev.push('k'));
        } else if c == '\u{130}' {
            assert(token_chars(s) == prev.push('i'));
        }
        assert forall|i: int| 0 <= i < token_chars(s).len() implies is_token_char(
            #[trigger] token_chars(s)[i],
        ) by {
            if i < prev.len() {
                assert(token_chars(s)[i] == prev[i]);
            }
        }
    }
}

/// A volume token is a non-empty run of lowercase ASCII letters and digits.
pub proof fn lemma_volume_token(p: Seq<char>)
    ensures
        spec_sanitize_volume(p).len() > 0,
        forall|i: int|
            0 <= i < spec_sanitize_volume(p).len() ==> is_token_char(
                #[trigger] spec_sanitize_volume(p)[i],
            ),
{
    lemma_token_chars(p);
    reveal_strlit("vol");
}

/// The token of a drive prefix is its lowercased letter.
pub proof fn lemma_drive_token(p: Seq<char>)
    requires
        has_drive(p),
        p.len() == 2,
    ensures
        spec_sanitize_volume(p) == seq![
            if 'A' <= p[0] && p[0] <= 'Z' {
                ascii_lower(p[0])
            } else {
                p[0]
            },
        ],
{
    let p1 = p.drop_last();
    assert(p1 =~= seq![p[0]]);
    assert(p1.drop_last() =~= Seq::<char>::empty());
    assert(token_chars(p1.drop_last()) =~= Seq::<char>::empty());
    assert(p.last() == ':');
    assert(!is_token_char(':'));
    assert(token_chars(p) == token_chars(p1));
    if 'A' <= p[0] && p[0] <= 'Z' {
        assert(token_chars(p1) =~= seq![ascii_lower(p[0])]);
    } else {
        assert(is_token_char(p[0]));
        assert(token_chars(p1) =~= seq![p[0]]);
    }
}

} // verus!

verus! {

/// A separator of a Windows path: `\`, and `/` too unless the path is
/// verbatim.
pub open spec fn is_sep_in(c: char, verbatim: bool) -> bool {
    c == '\\' || (!verbatim && c == '/')
}

/// The length of the component `s` starts with: up to its first separator.
pub open spec fn comp_len(s: Seq<char>, verbatim: bool) -> int
    decreases s.len(),
{
    if s.len() == 0 || is_sep_in(s[0], verbatim) {
        0
    } else {
        1 + comp_len(s.drop_first(), verbatim)
    }
}

/// `p` starts with `\\?\`, the mark of a verbatim prefix.
pub open spec fn verbatim_start(p: Seq<char>) -> bool {
    p.len() >= 4 && p[0] == '\\' && p[1] == '\\' && p[2] == '?' && p[3] == '\\'
}

/// `p` starts with `\\.\`, the mark of a device namespace prefix.
pub open spec fn device_start(p: Seq<char>) -> bool {
    p.len() >= 4 && p[0] == '\\' && p[1] == '\\' && p[2] == '.' && p[3] == '\\'
}

/// The prefix of a Windows path, as (length, verbatim, plain drive):
/// `\\?\UNC\server\share`, `\\?\C:`, `\\?\name` (verbatim: only `\`
/// separates after them), `\\.\name`, `\\server\share` (both parts
/// non-empty) and `C:`; length 0 when the path has none.
pub open spec fn win_prefix(p: Seq<char>) -> (int, bool, bool) {
    if verbatim_start(p) {
        if p.len() >= 8 && p[4] == 'U' && p[5] == 'N' && p[6] == 'C' && p[7] == '\\' {
            let a = comp_len(p.skip(8), true);
            if 8 + a < p.len() {
                (9 + a + comp_len(p.skip(9 + a), true), true, false)
            } else {
                (8 + a, true, false)
            }
        } else if p.len() >= 6 && is_drive_letter(p[4]) && p[5] == ':' && (p.len() == 6 || p[6]
            == '\\') {
            (6, true, false)
        } else {
            (4 + comp_len(p.skip(4), true), true, false)
        }
    } else if device_start(p) {
        (4 + comp_len(p.skip(4), false), false, false)
    } else if p.len() >= 2 && p[0] == '\\' && p[1] == '\\' {
        let a = comp_len(p.skip(2), false);
        if a > 0 && 2 + a < p.len() && comp_len(p.skip(3 + a), false) > 0 {
            (3 + a + comp_len(p.skip(3 + a), false), false, false)
        } else {
            (0, false, false)
        }
    } else if has_drive(p) {
        (2, false, true)
    } else {
        (0, false, false)
    }
}

/// `s` with `\` and `/` exchanged.
pub open spec fn swapped(s: Seq<char>) -> Seq<char> {
    s.map_values(
        |c: char|
            if c == '\\' {
                '/'
            } else if c == '/' {
                '\\'
            } else {
                c
            },
    )
}

/// The length of the component starting at `v[from]`.
pub fn comp_len_at(v: &Vec<char>, from: usize, verbatim: bool) -> (r: usize)
    requires
        from <= v.len(),
    ensures
        r == comp_len(v@.skip(from as int), verbatim),
        from + r <= v.len(),
{
    let mut i = from;
    assert(v@.skip(from as int) =~= v@.skip(i as int));
    while i < v.len() && !(v[i] == '\\' || (!verbatim && v[i] == '/'))
        invariant
            from <= i <= v.len(),
            comp_len(v@.skip(from as int), verbatim) == (i - from) + comp_len(
                v@.skip(i as int),
                verbatim,
            ),
        decreases v.len() - i,
    {
        assert(v@.skip(i as int).drop_first() =~= v@.skip(i + 1));
        assert(v@.skip(i as int)[0] == v@[i as int]);
        i += 1;
    }
    if i < v.len() {
        assert(v@.skip(i as int)[0] == v@[i as int]);
    } else {
        assert(v@.skip(i as int).len() == 0);
    }
    i - from
}

/// The prefix of a Windows path (see [`win_prefix`]).
pub fn win_prefix_of(v: &Vec<char>) -> (r: (usize, bool, bool))
    ensures
        (r.0 as int, r.1, r.2) == win_prefix(v@),
        r.0 <= v.len(),
{
    let n = v.len();
    if n >= 4 && v[0] == '\\' && v[1] == '\\' && v[2] == '?' && v[3] == '\\' {
        if n >= 8 && v[4] == 'U' && v[5] == 'N' && v[6] == 'C' && v[7] == '\\' {
            let a = comp_len_at(v, 8, true);
            if 8 + a < n {
                let b = comp_len_at(v, 9 + a, true);
                (9 + a + b, true, false)
            } else {
                (8 + a, true, false)
            }
        } else if n >= 6 && (('A' <= v[4] && v[4] <= 'Z') || ('a' <= v[4] && v[4] <= 'z')) && v[5]
            == ':' && (n == 6 || v[6] == '\\') {
            (6, true, false)
        } else {
            let a = comp_len_at(v, 4, true);
            (4 + a, true, false)
        }
    } else if n >= 4 && v[0] == '\\' && v[1] == '\\' && v[2] == '.' && v[3] == '\\' {
        let a = comp_len_at(v, 4, false);
        (4 + a, false, false)
    } else if n >= 2 && v[0] == '\\' && v[1] == '\\' {
        let a = comp_len_at(v, 2, false);
        if a > 0 && 2 + a < n {
            let b = comp_len_at(v, 3 + a, false);
            if b > 0 {
                (3 + a + b, false, false)
            } else {
                (0, false, false)
            }
        } else {
            (0, false, false)
        }
    } else if has_drive_prefix(v) {
        (2, false, true)
    } else {
        (0, false, false)
    }
}

/// `v[from..]` with `\` and `/` exchanged.
pub fn swapped_from(v: &Vec<char>, from: usize) -> (r: Vec<char>)
    requires
        from <= v.len(),
    ensures
        r@ == swapped(v@.skip(from as int)),
{
    let mut r: Vec<char> = Vec::new();
    let mut i = from;
    while i < v.len()
        invariant
            from <= i <= v.len(),
            r@ == swapped(v@.skip(from as int).take(i - from)),
        decreases v.len() - i,
    {
        let c = if v[i] == '\\' {
            '/'
        } else if v[i] == '/' {
            '\\'
        } else {
            v[i]
        };
        r.push(c);
        assert(v@.skip(from as int).take(i + 1 - from) =~= v@.skip(from as int).take(i - from).push(
            v@[i as int],
        ));
        assert(r@ =~= swapped(v@.skip(from as int).take(i + 1 - from)));
        i += 1;
    }
    assert(v@.skip(from as int).take(i - from) =~= v@.skip(from as int));
    r
}

/// `v` with `\` and `/` exchanged.
pub fn swapped_all(v: &Vec<char>) -> (r: Vec<char>)
    ensures
        r@ == swapped(v@),
{
    let r = swapped_from(v, 0);
    assert(v@.skip(0) =~= v@);
    r
}

} // verus!
