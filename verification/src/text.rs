//! Character-level helpers shared by the path logic: conversion between
//! strings and character vectors, the ordering of paths, sorting and
//! de-duplication of path lists.

use vstd::prelude::*;
use vstd::relations::*;

verus! {

broadcast use vstd::seq_lib::group_to_multiset_ensures;

/// `String::push` appends one character at the end of the string.
#[verifier::external_body]
pub(crate) fn push_char(s: &mut String, c: char)
    ensures
        final(s)@ == old(s)@.push(c),
{
    s.push(c);
}

/// The characters of `s`, in order.
pub fn chars_of(s: &str) -> (v: Vec<char>)
    ensures
        v@ == s@,
{
    broadcast use vstd::string::axiom_spec_iter;

    let mut v: Vec<char> = Vec::new();
    for c in it: s.chars()
        invariant
            v@ == it.seq().take(it.index()),
    {
        v.push(c);
    }
    v
}

/// A string holding the characters `v[from..to]`.
pub fn string_of(v: &Vec<char>, from: usize, to: usize) -> (s: String)
    requires
        from <= to <= v.len(),
    ensures
        s@ == v@.subrange(from as int, to as int),
{
    let mut s = String::new();
    let mut i = from;
    while i < to
        invariant
            from <= i <= to <= v.len(),
            s@ == v@.subrange(from as int, i as int),
        decreases to - i,
    {
        push_char(&mut s, v[i]);
        assert(v@.subrange(from as int, i + 1) =~= v@.subrange(from as int, i as int).push(v@[i as int]));
        i += 1;
    }
    s
}

/// A string holding the characters of `v`.
pub fn string_from(v: &Vec<char>) -> (s: String)
    ensures
        s@ == v@,
{
    let s = string_of(v, 0, v.len());
    assert(v@.subrange(0, v@.len() as int) =~= v@);
    s
}

/// A copy of a character vector.
pub fn copy_chars(v: &Vec<char>) -> (r: Vec<char>)
    ensures
        r@ == v@,
{
    let mut r: Vec<char> = Vec::new();
    let mut i: usize = 0;
    while i < v.len()
        invariant
            i <= v.len(),
            r@ == v@.take(i as int),
        decreases v.len() - i,
    {
        r.push(v[i]);
        assert(v@.take(i + 1) =~= v@.take(i as int).push(v@[i as int]));
        i += 1;
    }
    assert(v@.take(i as int) =~= v@);
    r
}

/// `a` followed by `b`, as a new string.
pub fn concat(a: &str, b: &str) -> (s: String)
    ensures
        s@ == a@ + b@,
{
    let mut s = a.to_owned();
    s.append(b);
    s
}

/// The views of a list of strings.
pub open spec fn views(v: Seq<String>) -> Seq<Seq<char>> {
    v.map_values(|s: String| s@)
}

/// Rank of a character in the path order: the separator `/` comes before
/// every other character, the others keep their code-point order. This is the
/// order in which `std::path::Path` compares the component lists of clean
/// paths.
pub open spec fn rank(c: char) -> int {
    if c == '/' {
        -1
    } else {
        c as int
    }
}

/// Strict lexicographic path order over character sequences.
pub open spec fn path_lt(a: Seq<char>, b: Seq<char>) -> bool
    decreases a.len(),
{
    if b.len() == 0 {
        false
    } else if a.len() == 0 {
        true
    } else if rank(a[0]) != rank(b[0]) {
        rank(a[0]) < rank(b[0])
    } else {
        path_lt(a.drop_first(), b.drop_first())
    }
}

pub open spec fn path_le(a: Seq<char>, b: Seq<char>) -> bool {
    a == b || path_lt(a, b)
}

/// The (non-strict) path order as a relation.
pub open spec fn path_order() -> spec_fn(Seq<char>, Seq<char>) -> bool {
    |a: Seq<char>, b: Seq<char>| path_le(a, b)
}

/// The strict path order as a relation.
pub open spec fn path_strict_order() -> spec_fn(Seq<char>, Seq<char>) -> bool {
    |a: Seq<char>, b: Seq<char>| path_lt(a, b)
}

/// Distinct characters have distinct ranks.
pub proof fn lemma_rank_injective(c: char, d: char)
    ensures
        rank(c) == rank(d) ==> c == d,
        c != '/' ==> rank(c) >= 0,
        c < d && c != '/' && d != '/' ==> rank(c) < rank(d),
{
}

pub proof fn lemma_path_lt_irreflexive(a: Seq<char>)
    ensures
        !path_lt(a, a),
    decreases a.len(),
{
    if a.len() > 0 {
        lemma_path_lt_irreflexive(a.drop_first());
    }
}

pub proof fn lemma_path_lt_asymmetric(a: Seq<char>, b: Seq<char>)
    ensures
        path_lt(a, b) ==> !path_lt(b, a),
    decreases a.len(),
{
    if a.len() > 0 && b.len() > 0 {
        lemma_path_lt_asymmetric(a.drop_first(), b.drop_first());
    }
}

pub proof fn lemma_path_lt_transitive(a: Seq<char>, b: Seq<char>, c: Seq<char>)
    requires
        path_lt(a, b),
        path_lt(b, c),
    ensures
        path_lt(a, c),
    decreases a.len(),
{
    if a.len() > 0 && rank(a[0]) == rank(b[0]) && rank(b[0]) == rank(c[0]) {
        lemma_path_lt_transitive(a.drop_first(), b.drop_first(), c.drop_first());
    }
}

pub proof fn lemma_path_lt_connected(a: Seq<char>, b: Seq<char>)
    ensures
        a == b || path_lt(a, b) || path_lt(b, a),
    decreases a.len(),
{
    if a.len() == 0 {
        if b.len() == 0 {
            assert(a =~= b);
        }
    } else if b.len() > 0 && rank(a[0]) == rank(b[0]) {
        lemma_path_lt_connected(a.drop_first(), b.drop_first());
        lemma_rank_injective(a[0], b[0]);
        if a.drop_first() == b.drop_first() {
            assert(a[0] == b[0]);
            assert(a =~= seq![a[0]] + a.drop_first());
            assert(b =~= seq![b[0]] + b.drop_first());
        }
    }
}

/// The path order is a total order.
pub proof fn lemma_path_order_total()
    ensures
        total_ordering(path_order()),
        strict_total_ordering(path_strict_order()),
{
    assert forall|a: Seq<char>| #[trigger] path_order()(a, a) by {}
    assert forall|a: Seq<char>, b: Seq<char>|
        #[trigger] path_order()(a, b) && #[trigger] path_order()(b, a) implies a == b by {
        lemma_path_lt_asymmetric(a, b);
    }
    assert forall|a: Seq<char>, b: Seq<char>, c: Seq<char>|
        #[trigger] path_order()(a, b) && #[trigger] path_order()(b, c) implies path_order()(a, c) by {
        if a != b && b != c {
            lemma_path_lt_transitive(a, b, c);
        }
    }
    assert forall|a: Seq<char>, b: Seq<char>|
        #[trigger] path_order()(a, b) || #[trigger] path_order()(b, a) by {
        lemma_path_lt_connected(a, b);
    }
    assert forall|a: Seq<char>| !#[trigger] path_strict_order()(a, a) by {
        lemma_path_lt_irreflexive(a);
    }
    assert forall|a: Seq<char>, b: Seq<char>|
        #[trigger] path_strict_order()(a, b) && #[trigger] path_strict_order()(b, a) implies a == b by {
        lemma_path_lt_asymmetric(a, b);
    }
    assert forall|a: Seq<char>, b: Seq<char>, c: Seq<char>|
        #[trigger] path_strict_order()(a, b) && #[trigger] path_strict_order()(b, c) implies path_strict_order()(a, c) by {
        lemma_path_lt_transitive(a, b, c);
    }
    assert forall|a: Seq<char>, b: Seq<char>|
        a != b implies #[trigger] path_strict_order()(a, b) || #[trigger] path_strict_order()(b, a) by {
        lemma_path_lt_connected(a, b);
    }
}

/// `a` comes strictly before `b` in the path order.
pub fn path_less(a: &str, b: &str) -> (r: bool)
    ensures
        r == path_lt(a@, b@),
{
    let x = chars_of(a);
    let y = chars_of(b);
    let mut i: usize = 0;
    assert(x@.skip(0) =~= x@);
    assert(y@.skip(0) =~= y@);
    while i < x.len() && i < y.len()
        invariant
            i <= x.len(),
            i <= y.len(),
            x@ == a@,
            y@ == b@,
            path_lt(x@, y@) == path_lt(x@.skip(i as int), y@.skip(i as int)),
        decreases x.len() - i,
    {
        if x[i] != y[i] {
            let cx = x[i];
            let cy = y[i];
            let r = if cx == '/' {
                true
            } else if cy == '/' {
                false
            } else {
                cx < cy
            };
            assert(x@.skip(i as int)[0] == cx);
            assert(y@.skip(i as int)[0] == cy);
            proof {
                lemma_rank_injective(cx, cy);
                lemma_rank_injective(cy, cx);
            }
            assert(r == (rank(cx) < rank(cy)));
            return r;
        }
        assert(x@.skip(i as int).drop_first() =~= x@.skip(i + 1));
        assert(y@.skip(i as int).drop_first() =~= y@.skip(i + 1));
        i += 1;
    }
    i < y.len()
}

/// `a` and `b` hold the same characters.
pub fn same_text(a: &str, b: &str) -> (r: bool)
    ensures
        r == (a@ == b@),
{
    let x = chars_of(a);
    let y = chars_of(b);
    if x.len() != y.len() {
        return false;
    }
    let mut i: usize = 0;
    while i < x.len()
        invariant
            i <= x.len() == y.len(),
            x@ == a@,
            y@ == b@,
            x@.take(i as int) == y@.take(i as int),
        decreases x.len() - i,
    {
        if x[i] != y[i] {
            assert(x@[i as int] != y@[i as int]);
            return false;
        }
        assert(x@.take(i + 1) =~= x@.take(i as int).push(x@[i as int]));
        assert(y@.take(i + 1) =~= y@.take(i as int).push(y@[i as int]));
        i += 1;
    }
    assert(x@ =~= x@.take(i as int));
    assert(y@ =~= y@.take(i as int));
    true
}

/// Sorts a list of paths in the path order (stable insertion sort).
pub fn sort_paths(v: Vec<String>) -> (r: Vec<String>)
    ensures
        views(r@) == views(v@).sort_by(path_order()),
        r@.to_multiset() == v@.to_multiset(),
        r@.len() == v@.len(),
{
    proof {
        lemma_path_order_total();
    }
    let mut r: Vec<String> = Vec::new();
    let n = v.len();
    let mut i: usize = 0;
    while i < n
        invariant
            n == v.len(),
            i <= n,
            sorted_by(views(r@), path_order()),
            r@.to_multiset() == v@.take(i as int).to_multiset(),
            views(r@).to_multiset() == views(v@.take(i as int)).to_multiset(),
            total_ordering(path_order()),
        decreases n - i,
    {
        let x = v[i].clone();
        let mut p = r.len();
        while p > 0 && path_less(x.as_str(), r[p - 1].as_str())
            invariant
                p <= r.len(),
                forall|k: int| p <= k < r.len() ==> path_lt(x@, #[trigger] r@[k]@),
            decreases p,
        {
            p -= 1;
        }
        assert forall|k: int| 0 <= k < p implies path_le(#[trigger] r@[k]@, x@) by {
            lemma_path_lt_connected(r@[k]@, x@);
            if p > 0 && k < p - 1 {
                assert(path_order()(views(r@)[k], views(r@)[p - 1]));
                if path_lt(x@, r@[k]@) {
                    if r@[k]@ != r@[p - 1]@ {
                        lemma_path_lt_transitive(x@, r@[k]@, r@[p - 1]@);
                    }
                }
            }
        }
        let ghost old_r = r@;
        r.insert(p, x);
        assert(views(r@) =~= views(old_r).insert(p as int, x@));
        assert forall|a: int, b: int| 0 <= a < b < r@.len() implies #[trigger] path_order()(
            views(r@)[a],
            views(r@)[b],
        ) by {
            if a < p && b > p {
                assert(path_order()(views(old_r)[a], views(old_r)[b - 1]));
            } else if a == p {
                assert(path_lt(x@, old_r[b - 1]@));
            } else if b == p {
                assert(path_le(old_r[a]@, x@));
            } else if b < p {
                assert(path_order()(views(old_r)[a], views(old_r)[b]));
            } else {
                assert(path_order()(views(old_r)[a - 1], views(old_r)[b - 1]));
            }
        }
        assert(v@.take(i + 1) =~= v@.take(i as int).push(v@[i as int]));
        assert(views(v@.take(i + 1)) =~= views(v@.take(i as int)).push(v@[i as int]@));
        i += 1;
    }
    proof {
        assert(v@.take(n as int) =~= v@);
        views(v@).lemma_sort_by_ensures(path_order());
        vstd::seq_lib::lemma_sorted_unique(views(r@), views(v@).sort_by(path_order()), path_order());
        vstd::seq_lib::to_multiset_len(r@);
        vstd::seq_lib::to_multiset_len(v@);
    }
    r
}

/// Strictly sorted sequences holding the same elements are equal.
pub proof fn lemma_strictly_sorted_unique(x: Seq<Seq<char>>, y: Seq<Seq<char>>)
    requires
        sorted_by(x, path_strict_order()),
        sorted_by(y, path_strict_order()),
        x.to_set() == y.to_set(),
    ensures
        x == y,
    decreases x.len(),
{
    if x.len() == 0 {
        if y.len() > 0 {
            assert(y.to_set().contains(y[0]));
        }
        assert(x =~= y);
    } else {
        assert(x.to_set().contains(x[0]));
        assert(y.len() > 0);
        assert(y.to_set().contains(x[0]));
        assert(x.to_set().contains(y[0]));
        let i = choose|i: int| 0 <= i < y.len() && y[i] == x[0];
        let j = choose|j: int| 0 <= j < x.len() && x[j] == y[0];
        if i > 0 && j > 0 {
            assert(path_strict_order()(y[0], y[i]));
            assert(path_strict_order()(x[0], x[j]));
            lemma_path_lt_asymmetric(y[0], x[0]);
        }
        if i > 0 && j == 0 {
            assert(path_strict_order()(y[0], y[i]));
            lemma_path_lt_irreflexive(x[0]);
        }
        if j > 0 && i == 0 {
            assert(path_strict_order()(x[0], x[j]));
            lemma_path_lt_irreflexive(y[0]);
        }
        assert(x[0] == y[0]);
        let x1 = x.drop_first();
        let y1 = y.drop_first();
        assert(sorted_by(x1, path_strict_order())) by {
            assert forall|a: int, b: int| 0 <= a < b < x1.len() implies #[trigger] path_strict_order()(x1[a], x1[b]) by {
                assert(path_strict_order()(x[a + 1], x[b + 1]));
            }
        }
        assert(sorted_by(y1, path_strict_order())) by {
            assert forall|a: int, b: int| 0 <= a < b < y1.len() implies #[trigger] path_strict_order()(y1[a], y1[b]) by {
                assert(path_strict_order()(y[a + 1], y[b + 1]));
            }
        }
        assert(x1.to_set() =~= y1.to_set()) by {
            assert forall|e: Seq<char>| x1.to_set().contains(e) implies y1.to_set().contains(e) by {
                let k = choose|k: int| 0 <= k < x1.len() && x1[k] == e;
                assert(path_strict_order()(x[0], x[k + 1]));
                lemma_path_lt_irreflexive(e);
                assert(x.to_set().contains(e));
                let m = choose|m: int| 0 <= m < y.len() && y[m] == e;
                assert(m != 0);
                assert(y1[m - 1] == e);
            }
            assert forall|e: Seq<char>| y1.to_set().contains(e) implies x1.to_set().contains(e) by {
                let k = choose|k: int| 0 <= k < y1.len() && y1[k] == e;
                assert(path_strict_order()(y[0], y[k + 1]));
                lemma_path_lt_irreflexive(e);
                assert(y.to_set().contains(e));
                let m = choose|m: int| 0 <= m < x.len() && x[m] == e;
                assert(m != 0);
                assert(x1[m - 1] == e);
            }
        }
        lemma_strictly_sorted_unique(x1, y1);
        assert(x =~= seq![x[0]] + x1);
        assert(y =~= seq![y[0]] + y1);
    }
}

/// Sorts a list of paths in the path order and drops repeated entries.
pub fn sort_dedup_paths(v: Vec<String>) -> (r: Vec<String>)
    ensures
        sorted_by(views(r@), path_strict_order()),
        views(r@).to_set() == views(v@).to_set(),
{
    let ghost orig = v@;
    let s = sort_paths(v);
    proof {
        lemma_path_order_total();
        views(orig).lemma_sort_by_ensures(path_order());
    }
    let mut r: Vec<String> = Vec::new();
    let mut i: usize = 0;
    while i < s.len()
        invariant
            i <= s.len(),
            sorted_by(views(s@), path_order()),
            sorted_by(views(r@), path_strict_order()),
            views(r@).to_set() == views(s@).take(i as int).to_set(),
            i > 0 ==> r@.len() > 0 && r@.last()@ == s@[i - 1]@,
            r@.len() <= i,
            total_ordering(path_order()),
            strict_total_ordering(path_strict_order()),
        decreases s.len() - i,
    {
        let dup = r.len() > 0 && same_text(r[r.len() - 1].as_str(), s[i].as_str());
        let ghost old_r = r@;
        assert(views(s@).take(i + 1) =~= views(s@).take(i as int).push(s@[i as int]@));
        if !dup {
            if i > 0 {
                assert(path_order()(views(s@)[i - 1], views(s@)[i as int]));
                assert(old_r[old_r.len() - 1]@ == s@[i - 1]@);
                assert(path_lt(old_r[old_r.len() - 1]@, s@[i as int]@));
            }
            r.push(s[i].clone());
            assert(views(r@) =~= views(old_r).push(s@[i as int]@));
            assert forall|a: int, b: int| 0 <= a < b < r@.len() implies #[trigger] path_strict_order()(
                views(r@)[a],
                views(r@)[b],
            ) by {
                if b == r@.len() - 1 && a == b - 1 {
                    assert(views(r@)[a] == old_r[old_r.len() - 1]@);
                } else if b == r@.len() - 1 && a < b - 1 {
                    assert(path_strict_order()(views(old_r)[a], views(old_r)[b - 1]));
                    lemma_path_lt_transitive(old_r[a]@, old_r[b - 1]@, s@[i as int]@);
                } else if b < r@.len() - 1 {
                    assert(path_strict_order()(views(old_r)[a], views(old_r)[b]));
                }
            }
            proof {
                views(old_r).lemma_push_to_set_commute(s@[i as int]@);
                views(s@).take(i as int).lemma_push_to_set_commute(s@[i as int]@);
            }
        } else {
            assert(views(old_r).to_set().contains(s@[i as int]@)) by {
                assert(views(old_r)[old_r.len() - 1] == s@[i as int]@);
            }
            proof {
                views(s@).take(i as int).lemma_push_to_set_commute(s@[i as int]@);
            }
            assert(views(old_r).to_set().insert(s@[i as int]@) =~= views(old_r).to_set());
        }
        i += 1;
    }
    proof {
        assert(views(s@).take(i as int) =~= views(s@));
        assert forall|e: Seq<char>| views(s@).to_set().contains(e) <==> views(orig).to_set().contains(
            e,
        ) by {
            vstd::seq_lib::to_multiset_contains(views(s@), e);
            vstd::seq_lib::to_multiset_contains(views(orig), e);
        }
        assert(views(s@).to_set() =~= views(orig).to_set());
    }
    r
}

/// The elements of `v` in reverse order.
pub fn reversed(v: Vec<String>) -> (r: Vec<String>)
    ensures
        r@ == v@.reverse(),
{
    let mut r: Vec<String> = Vec::new();
    let mut i = v.len();
    while i > 0
        invariant
            i <= v.len(),
            r@ == v@.skip(i as int).reverse(),
        decreases i,
    {
        i -= 1;
        r.push(v[i].clone());
        assert(r@ =~= v@.skip(i as int).reverse());
    }
    assert(v@.skip(0) =~= v@);
    r
}

} // verus!

verus! {

/// Paths compare component by component, as `std::path::Path` orders clean
/// paths: where two paths first differ, a separator sorts before any other
/// character, so `a/b` comes before `a-b` and `a.txt`.
pub proof fn law_separator_sorts_first(a: Seq<char>, c: char, x: Seq<char>, y: Seq<char>)
    requires
        c != '/',
    ensures
        path_lt(a + seq!['/'] + x, a + seq![c] + y),
    decreases a.len(),
{
    if a.len() > 0 {
        law_separator_sorts_first(a.drop_first(), c, x, y);
        assert((a + seq!['/'] + x).drop_first() =~= a.drop_first() + seq!['/'] + x);
        assert((a + seq![c] + y).drop_first() =~= a.drop_first() + seq![c] + y);
    } else {
        assert((a + seq!['/'] + x)[0] == '/');
        assert((a + seq![c] + y)[0] == c);
    }
}

/// Otherwise characters compare by code point: where two paths first differ
/// in two characters other than the separator, the smaller character comes
/// first.
pub proof fn law_characters_sort_by_code_point(
    a: Seq<char>,
    c: char,
    d: char,
    x: Seq<char>,
    y: Seq<char>,
)
    requires
        c != '/',
        d != '/',
        c < d,
    ensures
        path_lt(a + seq![c] + x, a + seq![d] + y),
    decreases a.len(),
{
    if a.len() > 0 {
        law_characters_sort_by_code_point(a.drop_first(), c, d, x, y);
        assert((a + seq![c] + x).drop_first() =~= a.drop_first() + seq![c] + x);
        assert((a + seq![d] + y).drop_first() =~= a.drop_first() + seq![d] + y);
    } else {
        assert((a + seq![c] + x)[0] == c);
        assert((a + seq![d] + y)[0] == d);
    }
}

} // verus!
