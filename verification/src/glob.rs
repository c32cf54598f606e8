//! File name patterns.
//!
//! In a pattern `*` stands for any run of characters, `?` for one character, and
//! `[..]` for one of the listed characters, where `a-z` lists a range and a
//! leading `!` all others. None of them stands for a `/`, but `**/` may stand for
//! nothing at all.
use vstd::prelude::*;

use crate::text::{chars_of, find_chars, find_from, lemma_find_from_range, occurs_at, stands_at};

verus! {

/// The list, read from `k` on, holds the character.
pub open spec fn lists(list: Seq<char>, k: int, c: char) -> bool
    decreases list.len() - k,
{
    if k < 0 || k >= list.len() {
        false
    } else if k + 2 < list.len() && list[k + 1] == '-' {
        list[k] <= c <= list[k + 2] || lists(list, k + 3, c)
    } else {
        list[k] == c || lists(list, k + 1, c)
    }
}

/// The character is one of those that the text between brackets allows.
pub open spec fn class_allows(class: Seq<char>, c: char) -> bool {
    if class.len() > 0 && class[0] == '!' {
        !lists(class, 1, c)
    } else {
        lists(class, 0, c)
    }
}

/// The bracket that closes the one at `i`. The first character behind the
/// opening one, or behind its `!`, is listed, whatever it is.
pub open spec fn class_end(p: Seq<char>, i: int) -> Option<int> {
    if i + 1 < p.len() && p[i + 1] == '!' {
        if i + 3 <= p.len() {
            find_from(p, "]"@, i + 3)
        } else {
            None
        }
    } else if i + 2 <= p.len() {
        find_from(p, "]"@, i + 2)
    } else {
        None
    }
}

/// The pattern from `i` on matches the name from `j` on.
pub open spec fn matches_from(p: Seq<char>, i: int, n: Seq<char>, j: int) -> bool
    decreases p.len() - i, n.len() - j,
    via matches_from_decreases
{
    if i < 0 || j < 0 || i >= p.len() {
        i == p.len() && j == n.len()
    } else if p[i] == '*' {
        ||| matches_from(p, i + 1, n, j)
        ||| j < n.len() && n[j] != '/' && matches_from(p, i, n, j + 1)
        ||| occurs_at(p, "**/"@, i) && matches_from(p, i + 3, n, j)
    } else if j >= n.len() || n[j] == '/' && p[i] != '/' {
        false
    } else if p[i] == '?' {
        matches_from(p, i + 1, n, j + 1)
    } else if p[i] == '[' {
        match class_end(p, i) {
            Some(end) => class_allows(p.subrange(i + 1, end), n[j]) && matches_from(
                p,
                end + 1,
                n,
                j + 1,
            ),
            None => false,
        }
    } else {
        p[i] == n[j] && matches_from(p, i + 1, n, j + 1)
    }
}

#[via_fn]
proof fn matches_from_decreases(p: Seq<char>, i: int, n: Seq<char>, j: int) {
    reveal_strlit("**/");
    reveal_strlit("]");
    if i >= 0 && i + 2 <= p.len() {
        lemma_find_from_range(p, "]"@, i + 2);
    }
    if i >= 0 && i + 3 <= p.len() {
        lemma_find_from_range(p, "]"@, i + 3);
    }
}

fn is_listed(cs: &Vec<char>, from: usize, to: usize, c: char) -> (r: bool)
    requires
        from <= to <= cs.len(),
    ensures
        r == lists(cs@.subrange(0, to as int), from as int, c),
{
    let ghost list = cs@.subrange(0, to as int);
    let mut k: usize = from;
    while k < to
        invariant
            from <= k <= to <= cs.len(),
            list == cs@.subrange(0, to as int),
            lists(list, from as int, c) == lists(list, k as int, c),
        decreases to - k,
    {
        if to - k > 2 && cs[k + 1] == '-' {
            if cs[k] <= c && c <= cs[k + 2] {
                return true;
            }
            k += 3;
        } else {
            if cs[k] == c {
                return true;
            }
            k += 1;
        }
    }
    false
}

fn is_allowed(class: &Vec<char>, c: char) -> (r: bool)
    ensures
        r == class_allows(class@, c),
{
    let n: usize = class.len();
    assert(class@.subrange(0, n as int) =~= class@);
    if n > 0 && class[0] == '!' {
        !is_listed(class, 1, n, c)
    } else {
        is_listed(class, 0, n, c)
    }
}

fn find_class_end(p: &Vec<char>, i: usize) -> (r: Option<usize>)
    requires
        i < p.len(),
    ensures
        match r {
            Some(end) => class_end(p@, i as int) == Some(end as int) && i < end < p.len(),
            None => class_end(p@, i as int) is None,
        },
{
    let close = chars_of("]");
    proof {
        reveal_strlit("]");
    }
    let skip: usize = if p.len() - i > 1 && p[i + 1] == '!' {
        3
    } else {
        2
    };
    if p.len() - i < skip {
        return None;
    }
    proof {
        lemma_find_from_range(p@, "]"@, i + skip);
    }
    find_chars(p.as_slice(), close.as_slice(), i + skip)
}

fn copy_between(cs: &Vec<char>, from: usize, to: usize) -> (r: Vec<char>)
    requires
        from <= to <= cs.len(),
    ensures
        r@ == cs@.subrange(from as int, to as int),
{
    let mut out: Vec<char> = Vec::new();
    let mut k: usize = from;
    assert(out@ =~= cs@.subrange(from as int, from as int));
    while k < to
        invariant
            from <= k <= to <= cs.len(),
            out@ == cs@.subrange(from as int, k as int),
        decreases to - k,
    {
        out.push(cs[k]);
        assert(out@ =~= cs@.subrange(from as int, k + 1));
        k += 1;
    }
    out
}

fn match_from(p: &Vec<char>, i: usize, n: &Vec<char>, j: usize) -> (r: bool)
    requires
        i <= p.len(),
        j <= n.len(),
    ensures
        r == matches_from(p@, i as int, n@, j as int),
    decreases p.len() - i, n.len() - j,
{
    if i == p.len() {
        return j == n.len();
    }
    let c = p[i];
    if c == '*' {
        if match_from(p, i + 1, n, j) {
            return true;
        }
        if j < n.len() && n[j] != '/' && match_from(p, i, n, j + 1) {
            return true;
        }
        proof {
            reveal_strlit("**/");
        }
        let dirs = chars_of("**/");
        return stands_at(p, &dirs, i) && match_from(p, i + 3, n, j);
    }
    if j == n.len() || (n[j] == '/' && c != '/') {
        return false;
    }
    if c == '?' {
        match_from(p, i + 1, n, j + 1)
    } else if c == '[' {
        match find_class_end(p, i) {
            Some(end) => {
                let class = copy_between(p, i + 1, end);
                is_allowed(&class, n[j]) && match_from(p, end + 1, n, j + 1)
            },
            None => false,
        }
    } else {
        c == n[j] && match_from(p, i + 1, n, j + 1)
    }
}

/// Does a file name match a pattern?
pub fn glob_matches(pattern: &str, name: &str) -> (r: bool)
    ensures
        r == matches_from(pattern@, 0, name@, 0),
{
    let p = chars_of(pattern);
    let n = chars_of(name);
    match_from(&p, 0, &n, 0)
}

// ─── laws ───────────────────────────────────────────────────────────────────
/// No character of the pattern from `i` on stands for others.
pub open spec fn is_literal(p: Seq<char>, i: int) -> bool {
    forall|k: int| i <= k < p.len() ==> #[trigger] p[k] != '*' && p[k] != '?' && p[k] != '['
}

proof fn lemma_literal_matches(p: Seq<char>, i: int, n: Seq<char>, j: int)
    requires
        0 <= i <= p.len(),
        0 <= j <= n.len(),
        is_literal(p, i),
    ensures
        matches_from(p, i, n, j) == (p.skip(i) == n.skip(j)),
    decreases p.len() - i,
{
    let a = p.skip(i);
    let b = n.skip(j);
    if i == p.len() {
        assert(a.len() == 0 && b.len() == n.len() - j);
        if j == n.len() {
            assert(a =~= b);
        }
    } else if j == n.len() {
        assert(a.len() > 0 && b.len() == 0);
    } else {
        lemma_literal_matches(p, i + 1, n, j + 1);
        assert(a =~= seq![p[i]] + p.skip(i + 1));
        assert(b =~= seq![n[j]] + n.skip(j + 1));
        assert(a[0] == p[i] && b[0] == n[j]);
        if a == b {
            assert(p.skip(i + 1) =~= a.skip(1));
            assert(n.skip(j + 1) =~= b.skip(1));
        }
    }
}

/// A pattern that stands for no other characters matches itself and no other name.
pub proof fn literal_patterns_match_themselves(p: Seq<char>, n: Seq<char>)
    requires
        is_literal(p, 0),
    ensures
        matches_from(p, 0, n, 0) == (p == n),
{
    lemma_literal_matches(p, 0, n, 0);
    assert(p.skip(0) =~= p);
    assert(n.skip(0) =~= n);
}

proof fn lemma_star_matches(p: Seq<char>, n: Seq<char>, j: int)
    requires
        p.len() > 0,
        p[0] == '*',
        is_literal(p, 1),
        0 <= j <= n.len(),
        !n.contains('/'),
    ensures
        matches_from(p, 0, n, j) == (n.len() - j >= p.len() - 1 && n.skip(n.len() - p.len() + 1)
            == p.skip(1)),
    decreases n.len() - j,
{
    reveal_strlit("**/");
    if occurs_at(p, "**/"@, 0) {
        assert(p.subrange(0, 3)[1] == '*');
        assert(p[1] == '*');
    }
    lemma_literal_matches(p, 1, n, j);
    if j < n.len() {
        assert(n.contains(n[j]));
        lemma_star_matches(p, n, j + 1);
    }
    let tail = p.skip(1);
    if n.skip(j) == tail {
        assert(n.skip(j).len() == tail.len());
    }
}

/// A `*` before literal characters matches the names that end with these.
pub proof fn star_matches_any_start(p: Seq<char>, n: Seq<char>)
    requires
        p.len() > 0,
        p[0] == '*',
        is_literal(p, 1),
        !n.contains('/'),
    ensures
        matches_from(p, 0, n, 0) == (n.len() >= p.len() - 1 && n.skip(n.len() - p.len() + 1)
            == p.skip(1)),
{
    lemma_star_matches(p, n, 0);
}

/// A `?` stands for one character, but not for a `/`.
pub proof fn question_marks_match_one(p: Seq<char>, i: int, n: Seq<char>, j: int)
    requires
        0 <= i < p.len(),
        p[i] == '?',
        0 <= j <= n.len(),
    ensures
        matches_from(p, i, n, j) == (j < n.len() && n[j] != '/' && matches_from(
            p,
            i + 1,
            n,
            j + 1,
        )),
{
}

/// A `*` stands for nothing, or for one more character that is no `/`; `**/` may
/// stand for nothing.
pub proof fn stars_match_any_run(p: Seq<char>, i: int, n: Seq<char>, j: int)
    requires
        0 <= i < p.len(),
        p[i] == '*',
        0 <= j <= n.len(),
    ensures
        matches_from(p, i + 1, n, j) ==> matches_from(p, i, n, j),
        j < n.len() && n[j] != '/' && matches_from(p, i, n, j + 1) ==> matches_from(p, i, n, j),
        i + 2 < p.len() && p[i + 1] == '*' && p[i + 2] == '/' && matches_from(p, i + 3, n, j)
            ==> matches_from(p, i, n, j),
        matches_from(p, i, n, j) ==> matches_from(p, i + 1, n, j) || (j < n.len() && n[j] != '/'
            && matches_from(p, i, n, j + 1)) || (i + 2 < p.len() && p[i + 1] == '*' && p[i + 2]
            == '/' && matches_from(p, i + 3, n, j)),
{
    reveal_strlit("**/");
    if i + 2 < p.len() && p[i + 1] == '*' && p[i + 2] == '/' {
        assert(p.subrange(i, i + 3) =~= "**/"@);
    }
    if occurs_at(p, "**/"@, i) {
        assert(p.subrange(i, i + 3)[1] == '*' && p.subrange(i, i + 3)[2] == '/');
    }
}

/// Brackets stand for one of the characters listed in them, or, behind a `!`, for one
/// that is not listed.
pub proof fn brackets_match_one_of_a_list(c: char, a: char, b: char)
    requires
        a != '-' && b != '-' && a != '!',
    ensures
        lists(Seq::empty(), 0, c) == false,
        class_allows(seq![a], c) == (c == a),
        class_allows(seq!['!', a], c) == (c != a),
        class_allows(seq![a, '-', b], c) == (a <= c && c <= b),
        class_allows(seq!['!', a, '-', b], c) == !(a <= c && c <= b),
        class_allows(seq![a, b], c) == (c == a || c == b),
{
    reveal_with_fuel(lists, 3);
}

/// A bracket is closed by the next one behind at least one listed character, and one
/// that does not close matches nothing.
pub proof fn brackets_read_to_their_end(p: Seq<char>, i: int, n: Seq<char>, j: int, end: int)
    requires
        0 <= i,
        i + 2 <= end < p.len(),
        p[i] == '[',
        p[i + 1] != '!',
        p[end] == ']',
        forall|k: int| i + 2 <= k < end ==> #[trigger] p[k] != ']',
        0 <= j < n.len(),
        n[j] != '/',
    ensures
        matches_from(p, i, n, j) == (class_allows(p.subrange(i + 1, end), n[j]) && matches_from(
            p,
            end + 1,
            n,
            j + 1,
        )),
{
    reveal_strlit("]");
    assert(p.subrange(end, end + 1) =~= "]"@);
    assert forall|k: int| i + 2 <= k < end implies !occurs_at(p, "]"@, k) by {
        if occurs_at(p, "]"@, k) {
            assert(p.subrange(k, k + 1)[0] == ']');
            assert(p[k] != ']');
        }
    }
    lemma_find_from_range(p, "]"@, i + 2);
    assert(occurs_at(p, "]"@, end));
    assert(class_end(p, i) == Some(end));
}

} // verus!
