//! Text operations on sequences of characters.
//!
//! Every operation is stated over the character view of a string, and the
//! executable functions are proved to compute exactly that statement.
use vstd::prelude::*;

verus! {

/// `String::push` appends the given character to the end of the string.
pub assume_specification[ String::push ](s: &mut String, c: char)
    ensures
        final(s)@ == old(s)@.push(c),
;

// ─── character classes ──────────────────────────────────────────────────────
/// The Unicode `White_Space` property.
pub open spec fn is_space(c: char) -> bool {
    let u = c as u32;
    ||| 0x9 <= u <= 0xd
    ||| u == 0x20 || u == 0x85 || u == 0xa0 || u == 0x1680
    ||| 0x2000 <= u <= 0x200a
    ||| u == 0x2028 || u == 0x2029 || u == 0x202f || u == 0x205f || u == 0x3000
}

pub fn space(c: char) -> (r: bool)
    ensures
        r == is_space(c),
{
    let u: u32 = c as u32;
    (0x9 <= u && u <= 0xd) || u == 0x20 || u == 0x85 || u == 0xa0 || u == 0x1680 || (0x2000 <= u
        && u <= 0x200a) || u == 0x2028 || u == 0x2029 || u == 0x202f || u == 0x205f || u == 0x3000
}

/// An ASCII decimal digit.
pub open spec fn is_digit(c: char) -> bool {
    '0' <= c && c <= '9'
}

/// An ASCII letter.
pub open spec fn is_letter(c: char) -> bool {
    ('a' <= c && c <= 'z') || ('A' <= c && c <= 'Z')
}

/// An ASCII letter, an ASCII digit or `_`.
pub open spec fn is_word(c: char) -> bool {
    is_letter(c) || is_digit(c) || c == '_'
}

pub fn digit(c: char) -> (r: bool)
    ensures
        r == is_digit(c),
{
    '0' <= c && c <= '9'
}

pub fn letter(c: char) -> (r: bool)
    ensures
        r == is_letter(c),
{
    ('a' <= c && c <= 'z') || ('A' <= c && c <= 'Z')
}

pub fn word(c: char) -> (r: bool)
    ensures
        r == is_word(c),
{
    letter(c) || digit(c) || c == '_'
}

/// ASCII lower-casing of one character; other characters stay as they are.
pub open spec fn lower_char(c: char) -> char {
    if 'A' <= c && c <= 'Z' {
        (((c as u8) + 32) as u8) as char
    } else {
        c
    }
}

// ─── views of string lists ──────────────────────────────────────────────────
/// The character views of a list of strings.
pub open spec fn texts(v: Seq<String>) -> Seq<Seq<char>> {
    Seq::new(v.len(), |i: int| v[i]@)
}

pub proof fn lemma_texts_push(v: Seq<String>, s: String)
    ensures
        texts(v.push(s)) == texts(v).push(s@),
{
    assert(texts(v.push(s)) =~= texts(v).push(s@));
}

/// The text of an optional string.
pub open spec fn opt_text(s: Option<String>) -> Option<Seq<char>> {
    match s {
        Some(s) => Some(s@),
        None => None,
    }
}

// ─── characters and substrings ──────────────────────────────────────────────
/// The characters of `s`, in order.
pub fn chars_of(s: &str) -> (r: Vec<char>)
    ensures
        r@ == s@,
{
    let mut out: Vec<char> = Vec::new();
    for c in it: s.chars()
        invariant
            out@ == it.seq().take(it.index()),
            it.seq() == s@,
    {
        assert(it.seq().take(it.index() + 1) =~= it.seq().take(it.index()).push(c));
        out.push(c);
    }
    assert(s@.take(s@.len() as int) =~= s@);
    out
}

/// The string made of `cs[from..to]`.
pub fn substring(cs: &[char], from: usize, to: usize) -> (r: String)
    requires
        from <= to <= cs@.len(),
    ensures
        r@ == cs@.subrange(from as int, to as int),
{
    let mut out = String::new();
    let mut i: usize = from;
    while i < to
        invariant
            from <= i <= to <= cs@.len(),
            out@ == cs@.subrange(from as int, i as int),
        decreases to - i,
    {
        assert(cs@.subrange(from as int, i as int + 1) =~= cs@.subrange(
            from as int,
            i as int,
        ).push(cs@[i as int]));
        out.push(cs[i]);
        i += 1;
    }
    out
}

/// A fresh copy of `s`.
pub fn copy_of(s: &str) -> (r: String)
    ensures
        r@ == s@,
{
    s.to_owned()
}

/// Appends `tail` to `s`.
pub fn push_text(s: &mut String, tail: &str)
    ensures
        final(s)@ == old(s)@ + tail@,
{
    s.append(tail);
}

/// `a` followed by `b`.
pub fn cat2(a: &str, b: &str) -> (r: String)
    ensures
        r@ == a@ + b@,
{
    let mut out = copy_of(a);
    out.append(b);
    out
}

/// `a`, `b` and `c`, one after the other.
pub fn cat3(a: &str, b: &str, c: &str) -> (r: String)
    ensures
        r@ == a@ + b@ + c@,
{
    let mut out = cat2(a, b);
    out.append(c);
    out
}

/// `a`, `b`, `c` and `d`, one after the other.
pub fn cat4(a: &str, b: &str, c: &str, d: &str) -> (r: String)
    ensures
        r@ == a@ + b@ + c@ + d@,
{
    let mut out = cat3(a, b, c);
    out.append(d);
    out
}

/// `a`, `b`, `c`, `d` and `e`, one after the other.
pub fn cat5(a: &str, b: &str, c: &str, d: &str, e: &str) -> (r: String)
    ensures
        r@ == a@ + b@ + c@ + d@ + e@,
{
    let mut out = cat4(a, b, c, d);
    out.append(e);
    out
}

/// Equality of the two character sequences.
pub fn same(a: &str, b: &str) -> (r: bool)
    ensures
        r == (a@ == b@),
{
    let x = chars_of(a);
    let y = chars_of(b);
    if x.len() != y.len() {
        return false;
    }
    let mut i: usize = 0;
    while i < x.len()
        invariant
            x@ == a@,
            y@ == b@,
            x.len() == y.len(),
            i <= x.len(),
            forall|k: int| 0 <= k < i ==> x@[k] == y@[k],
        decreases x.len() - i,
    {
        if x[i] != y[i] {
            return false;
        }
        i += 1;
    }
    assert(x@ =~= y@);
    true
}

// ─── trimming ───────────────────────────────────────────────────────────────
/// `s` without its leading white space.
pub open spec fn trim_start(s: Seq<char>) -> Seq<char>
    decreases s.len(),
{
    if s.len() > 0 && is_space(s[0]) {
        trim_start(s.skip(1))
    } else {
        s
    }
}

/// `s` without its trailing white space.
pub open spec fn trim_end(s: Seq<char>) -> Seq<char>
    decreases s.len(),
{
    if s.len() > 0 && is_space(s.last()) {
        trim_end(s.drop_last())
    } else {
        s
    }
}

/// `s` without leading and trailing white space.
pub open spec fn trimmed(s: Seq<char>) -> Seq<char> {
    trim_end(trim_start(s))
}

proof fn lemma_trim_start_at(s: Seq<char>, lo: int)
    requires
        0 <= lo <= s.len(),
        forall|k: int| 0 <= k < lo ==> is_space(#[trigger] s[k]),
        lo < s.len() ==> !is_space(s[lo]),
    ensures
        trim_start(s) == s.skip(lo),
    decreases lo,
{
    if lo == 0 {
        assert(s.skip(0) =~= s);
    } else {
        let t = s.skip(1);
        assert forall|k: int| 0 <= k < lo - 1 implies is_space(#[trigger] t[k]) by {
            assert(t[k] == s[k + 1]);
        }
        lemma_trim_start_at(t, lo - 1);
        assert(t.skip(lo - 1) =~= s.skip(lo));
    }
}

proof fn lemma_trim_end_at(s: Seq<char>, hi: int)
    requires
        0 <= hi <= s.len(),
        forall|k: int| hi <= k < s.len() ==> is_space(#[trigger] s[k]),
        hi > 0 ==> !is_space(s[hi - 1]),
    ensures
        trim_end(s) == s.take(hi),
    decreases s.len() - hi,
{
    if hi == s.len() {
        assert(s.take(hi) =~= s);
    } else {
        let t = s.drop_last();
        assert forall|k: int| hi <= k < t.len() implies is_space(#[trigger] t[k]) by {
            assert(t[k] == s[k]);
        }
        assert(is_space(s[s.len() - 1]));
        lemma_trim_end_at(t, hi);
        assert(t.take(hi) =~= s.take(hi));
    }
}

/// Removes leading and trailing white space.
pub fn trim(s: &str) -> (r: String)
    ensures
        r@ == trimmed(s@),
{
    let cs = chars_of(s);
    let mut lo: usize = 0;
    while lo < cs.len() && space(cs[lo])
        invariant
            lo <= cs.len(),
            forall|k: int| 0 <= k < lo ==> is_space(#[trigger] cs@[k]),
        decreases cs.len() - lo,
    {
        lo += 1;
    }
    let mut hi: usize = cs.len();
    while hi > lo && space(cs[hi - 1])
        invariant
            lo <= hi <= cs.len(),
            forall|k: int| hi <= k < cs.len() ==> is_space(#[trigger] cs@[k]),
        decreases hi,
    {
        hi -= 1;
    }
    proof {
        lemma_trim_start_at(cs@, lo as int);
        let t = cs@.skip(lo as int);
        assert forall|k: int| hi - lo <= k < t.len() implies is_space(#[trigger] t[k]) by {
            assert(t[k] == cs@[k + lo]);
        }
        lemma_trim_end_at(t, hi - lo);
        assert(t.take(hi - lo) =~= cs@.subrange(lo as int, hi as int));
    }
    substring(&cs, lo, hi)
}

/// Removes leading white space.
pub fn trim_left(s: &str) -> (r: String)
    ensures
        r@ == trim_start(s@),
{
    let cs = chars_of(s);
    let mut lo: usize = 0;
    while lo < cs.len() && space(cs[lo])
        invariant
            lo <= cs.len(),
            forall|k: int| 0 <= k < lo ==> is_space(#[trigger] cs@[k]),
        decreases cs.len() - lo,
    {
        lo += 1;
    }
    proof {
        lemma_trim_start_at(cs@, lo as int);
    }
    substring(&cs, lo, cs.len())
}

/// `s` without its leading occurrences of `c`.
pub open spec fn without_leading(s: Seq<char>, c: char) -> Seq<char>
    decreases s.len(),
{
    if s.len() > 0 && s[0] == c {
        without_leading(s.skip(1), c)
    } else {
        s
    }
}

/// `s` without its trailing occurrences of `c`.
pub open spec fn without_trailing(s: Seq<char>, c: char) -> Seq<char>
    decreases s.len(),
{
    if s.len() > 0 && s.last() == c {
        without_trailing(s.drop_last(), c)
    } else {
        s
    }
}

proof fn lemma_without_leading_at(s: Seq<char>, c: char, lo: int)
    requires
        0 <= lo <= s.len(),
        forall|k: int| 0 <= k < lo ==> s[k] == c,
        lo < s.len() ==> s[lo] != c,
    ensures
        without_leading(s, c) == s.skip(lo),
    decreases lo,
{
    if lo == 0 {
        assert(s.skip(0) =~= s);
    } else {
        lemma_without_leading_at(s.skip(1), c, lo - 1);
        assert(s.skip(1).skip(lo - 1) =~= s.skip(lo));
    }
}

proof fn lemma_without_trailing_at(s: Seq<char>, c: char, hi: int)
    requires
        0 <= hi <= s.len(),
        forall|k: int| hi <= k < s.len() ==> s[k] == c,
        hi > 0 ==> s[hi - 1] != c,
    ensures
        without_trailing(s, c) == s.take(hi),
    decreases s.len() - hi,
{
    if hi == s.len() {
        assert(s.take(hi) =~= s);
    } else {
        lemma_without_trailing_at(s.drop_last(), c, hi);
        assert(s.drop_last().take(hi) =~= s.take(hi));
    }
}

/// Removes every leading occurrence of `c`.
pub fn strip_leading(s: &str, c: char) -> (r: String)
    ensures
        r@ == without_leading(s@, c),
{
    let cs = chars_of(s);
    let mut lo: usize = 0;
    while lo < cs.len() && cs[lo] == c
        invariant
            lo <= cs.len(),
            forall|k: int| 0 <= k < lo ==> cs@[k] == c,
        decreases cs.len() - lo,
    {
        lo += 1;
    }
    proof {
        lemma_without_leading_at(cs@, c, lo as int);
    }
    substring(&cs, lo, cs.len())
}

/// Removes every trailing occurrence of `c`.
pub fn strip_trailing(s: &str, c: char) -> (r: String)
    ensures
        r@ == without_trailing(s@, c),
{
    let cs = chars_of(s);
    let mut hi: usize = cs.len();
    while hi > 0 && cs[hi - 1] == c
        invariant
            hi <= cs.len(),
            forall|k: int| hi <= k < cs.len() ==> cs@[k] == c,
        decreases hi,
    {
        hi -= 1;
    }
    proof {
        lemma_without_trailing_at(cs@, c, hi as int);
    }
    substring(&cs, 0, hi)
}

// ─── lower-casing ───────────────────────────────────────────────────────────
/// `s` with its ASCII capitals in lower case.
pub open spec fn lowered(s: Seq<char>) -> Seq<char> {
    Seq::new(s.len(), |i: int| lower_char(s[i]))
}

pub fn lower(s: &str) -> (r: String)
    ensures
        r@ == lowered(s@),
{
    let cs = chars_of(s);
    let mut out = String::new();
    let mut i: usize = 0;
    while i < cs.len()
        invariant
            i <= cs.len(),
            cs@ == s@,
            out@ == lowered(s@).take(i as int),
        decreases cs.len() - i,
    {
        let c = cs[i];
        let l = if 'A' <= c && c <= 'Z' {
            ((c as u8) + 32) as char
        } else {
            c
        };
        assert(lowered(s@).take(i as int + 1) =~= lowered(s@).take(i as int).push(l));
        out.push(l);
        i += 1;
    }
    assert(lowered(s@).take(s@.len() as int) =~= lowered(s@));
    out
}

// ─── searching ──────────────────────────────────────────────────────────────
/// `p` stands in `s` at position `i`.
pub open spec fn occurs_at(s: Seq<char>, p: Seq<char>, i: int) -> bool {
    0 <= i && i + p.len() <= s.len() && s.subrange(i, i + p.len()) == p
}

pub open spec fn has_prefix(s: Seq<char>, p: Seq<char>) -> bool {
    occurs_at(s, p, 0)
}

pub open spec fn has_suffix(s: Seq<char>, p: Seq<char>) -> bool {
    occurs_at(s, p, s.len() - p.len())
}

/// The first position at or after `i` where `p` stands in `s`.
pub open spec fn find_from(s: Seq<char>, p: Seq<char>, i: int) -> Option<int>
    decreases s.len() - i + 1,
{
    if i < 0 || i + p.len() > s.len() {
        None
    } else if occurs_at(s, p, i) {
        Some(i)
    } else {
        find_from(s, p, i + 1)
    }
}

/// The last position at or before `i` where `p` stands in `s`.
pub open spec fn find_back(s: Seq<char>, p: Seq<char>, i: int) -> Option<int>
    decreases i + 1,
{
    if i < 0 {
        None
    } else if occurs_at(s, p, i) {
        Some(i)
    } else {
        find_back(s, p, i - 1)
    }
}

/// `p` stands somewhere in `s`.
pub open spec fn has_text(s: Seq<char>, p: Seq<char>) -> bool {
    find_from(s, p, 0) is Some
}

pub proof fn lemma_find_from_range(s: Seq<char>, p: Seq<char>, i: int)
    requires
        0 <= i,
    ensures
        find_from(s, p, i) matches Some(j) ==> i <= j && occurs_at(s, p, j) && forall|k: int|
            i <= k < j ==> !occurs_at(s, p, k),
        find_from(s, p, i) is None ==> forall|k: int| i <= k ==> !occurs_at(s, p, k),
    decreases s.len() - i + 1,
{
    if i + p.len() <= s.len() && !occurs_at(s, p, i) {
        lemma_find_from_range(s, p, i + 1);
    }
}

pub proof fn lemma_find_back_range(s: Seq<char>, p: Seq<char>, i: int)
    ensures
        find_back(s, p, i) matches Some(j) ==> 0 <= j <= i && occurs_at(s, p, j) && forall|k: int|
            j < k <= i ==> !occurs_at(s, p, k),
        find_back(s, p, i) is None ==> forall|k: int| k <= i ==> !occurs_at(s, p, k),
    decreases i + 1,
{
    if i >= 0 && !occurs_at(s, p, i) {
        lemma_find_back_range(s, p, i - 1);
    }
}

/// Does `p` stand in `cs` at `i`?
pub fn stands_at(cs: &[char], p: &[char], i: usize) -> (r: bool)
    requires
        i <= cs@.len(),
    ensures
        r == occurs_at(cs@, p@, i as int),
{
    let n: usize = cs.len();
    if p.len() > n - i {
        return false;
    }
    let mut k: usize = 0;
    while k < p.len()
        invariant
            k <= p@.len(),
            n == cs@.len(),
            i + p@.len() <= n,
            forall|j: int| 0 <= j < k ==> cs@[i + j] == p@[j],
        decreases p@.len() - k,
    {
        if cs[i + k] != p[k] {
            assert(cs@.subrange(i as int, i + p@.len())[k as int] != p@[k as int]);
            return false;
        }
        k += 1;
    }
    assert(cs@.subrange(i as int, i + p@.len()) =~= p@);
    true
}

pub fn starts_with(s: &str, p: &str) -> (r: bool)
    ensures
        r == has_prefix(s@, p@),
{
    let cs = chars_of(s);
    let ps = chars_of(p);
    stands_at(&cs, &ps, 0)
}

pub fn ends_with(s: &str, p: &str) -> (r: bool)
    ensures
        r == has_suffix(s@, p@),
{
    let cs = chars_of(s);
    let ps = chars_of(p);
    if ps.len() > cs.len() {
        return false;
    }
    stands_at(&cs, &ps, cs.len() - ps.len())
}

/// The first position at or after `from` where `p` stands in `cs`.
pub fn find_chars(cs: &[char], p: &[char], from: usize) -> (r: Option<usize>)
    requires
        from <= cs@.len(),
    ensures
        r is Some == find_from(cs@, p@, from as int) is Some,
        r matches Some(j) ==> find_from(cs@, p@, from as int) == Some(j as int) && j + p@.len()
            <= cs@.len(),
{
    let mut i: usize = from;
    loop
        invariant
            from <= i <= cs@.len(),
            find_from(cs@, p@, from as int) == find_from(cs@, p@, i as int),
        decreases cs@.len() - i,
    {
        if p.len() > cs.len() - i {
            return None;
        }
        if stands_at(cs, p, i) {
            return Some(i);
        }
        if i == cs.len() {
            assert(find_from(cs@, p@, i + 1) is None);
            return None;
        }
        i += 1;
    }
}

/// The first position where `p` stands in `s`.
pub fn find(s: &str, p: &str) -> (r: Option<usize>)
    ensures
        r is Some == find_from(s@, p@, 0) is Some,
        r matches Some(j) ==> find_from(s@, p@, 0) == Some(j as int) && j + p@.len() <= s@.len(),
{
    let cs = chars_of(s);
    let ps = chars_of(p);
    find_chars(&cs, &ps, 0)
}

/// The last position where `p` stands in `s`.
pub fn rfind(s: &str, p: &str) -> (r: Option<usize>)
    ensures
        r is Some == find_back(s@, p@, s@.len() as int) is Some,
        r matches Some(j) ==> find_back(s@, p@, s@.len() as int) == Some(j as int) && j + p@.len()
            <= s@.len(),
{
    let cs = chars_of(s);
    let ps = chars_of(p);
    let mut i: usize = cs.len();
    loop
        invariant
            i <= cs@.len(),
            cs@ == s@,
            ps@ == p@,
            find_back(s@, p@, s@.len() as int) == find_back(s@, p@, i as int),
        decreases i,
    {
        if stands_at(&cs, &ps, i) {
            return Some(i);
        }
        if i == 0 {
            assert(find_back(s@, p@, -1) is None);
            return None;
        }
        i -= 1;
    }
}

pub fn contains(s: &str, p: &str) -> (r: bool)
    ensures
        r == has_text(s@, p@),
{
    find(s, p).is_some()
}

pub fn contains_char(s: &str, c: char) -> (r: bool)
    ensures
        r == s@.contains(c),
{
    let cs = chars_of(s);
    let mut i: usize = 0;
    while i < cs.len()
        invariant
            i <= cs.len(),
            cs@ == s@,
            forall|k: int| 0 <= k < i ==> cs@[k] != c,
        decreases cs.len() - i,
    {
        if cs[i] == c {
            return true;
        }
        i += 1;
    }
    false
}

/// What follows the prefix `p` of `s`, where `s` has it.
pub open spec fn after_prefix(s: Seq<char>, p: Seq<char>) -> Option<Seq<char>> {
    if has_prefix(s, p) {
        Some(s.skip(p.len() as int))
    } else {
        None
    }
}

pub fn strip_prefix(s: &str, p: &str) -> (r: Option<String>)
    ensures
        match r {
            Some(t) => after_prefix(s@, p@) == Some(t@),
            None => after_prefix(s@, p@) is None,
        },
{
    let cs = chars_of(s);
    let ps = chars_of(p);
    if stands_at(&cs, &ps, 0) {
        Some(substring(&cs, ps.len(), cs.len()))
    } else {
        None
    }
}

/// What stands before the suffix `p` of `s`, where `s` has it.
pub open spec fn before_suffix(s: Seq<char>, p: Seq<char>) -> Option<Seq<char>> {
    if has_suffix(s, p) {
        Some(s.take(s.len() - p.len()))
    } else {
        None
    }
}

/// The two sides of the first `sep` in `s`.
pub open spec fn split_first(s: Seq<char>, sep: Seq<char>) -> Option<(Seq<char>, Seq<char>)> {
    match find_from(s, sep, 0) {
        Some(i) => Some((s.take(i), s.skip(i + sep.len()))),
        None => None,
    }
}

pub fn split_once(s: &str, sep: &str) -> (r: Option<(String, String)>)
    ensures
        match r {
            Some((a, b)) => split_first(s@, sep@) == Some((a@, b@)),
            None => split_first(s@, sep@) is None,
        },
{
    let cs = chars_of(s);
    let ps = chars_of(sep);
    match find_chars(&cs, &ps, 0) {
        Some(i) => {
            assert(cs.len() == s@.len());
            let a = substring(&cs, 0, i);
            let b = substring(&cs, i + ps.len(), cs.len());
            assert(a@ =~= s@.take(i as int));
            assert(b@ =~= s@.skip(i + sep@.len()));
            Some((a, b))
        },
        None => None,
    }
}

/// `s` without its leading occurrences of `p`.
pub open spec fn without_leading_text(s: Seq<char>, p: Seq<char>) -> Seq<char>
    decreases s.len(),
{
    if p.len() > 0 && has_prefix(s, p) {
        without_leading_text(s.skip(p.len() as int), p)
    } else {
        s
    }
}

/// Removes every leading occurrence of `p`.
pub fn strip_leading_text(s: &str, p: &str) -> (r: String)
    requires
        p@.len() > 0,
    ensures
        r@ == without_leading_text(s@, p@),
    decreases s@.len(),
{
    match strip_prefix(s, p) {
        Some(rest) => strip_leading_text(rest.as_str(), p),
        None => copy_of(s),
    }
}

/// `s` without its trailing occurrences of `p`.
pub open spec fn without_trailing_text(s: Seq<char>, p: Seq<char>) -> Seq<char>
    decreases s.len(),
{
    if p.len() > 0 && has_suffix(s, p) {
        without_trailing_text(s.take(s.len() - p.len()), p)
    } else {
        s
    }
}

/// Removes every trailing occurrence of `p`.
pub fn strip_trailing_text(s: &str, p: &str) -> (r: String)
    requires
        p@.len() > 0,
    ensures
        r@ == without_trailing_text(s@, p@),
    decreases s@.len(),
{
    if ends_with(s, p) {
        let cs = chars_of(s);
        let n: usize = cs.len() - chars_of(p).len();
        assert(cs@.subrange(0, n as int) =~= s@.take(s@.len() - p@.len()));
        let rest = substring(&cs, 0, n);
        strip_trailing_text(rest.as_str(), p)
    } else {
        copy_of(s)
    }
}

// ─── replacing ──────────────────────────────────────────────────────────────
/// `s[i..]` with each occurrence of `p`, taken from the left and without
/// overlap, replaced by `r`.
pub open spec fn replaced_from(s: Seq<char>, p: Seq<char>, r: Seq<char>, i: int) -> Seq<char>
    decreases s.len() - i,
{
    if i < 0 || i >= s.len() {
        Seq::empty()
    } else if p.len() > 0 && occurs_at(s, p, i) {
        r + replaced_from(s, p, r, i + p.len())
    } else {
        seq![s[i]] + replaced_from(s, p, r, i + 1)
    }
}

/// `s` with each occurrence of the non-empty `p` replaced by `r`.
pub open spec fn replaced(s: Seq<char>, p: Seq<char>, r: Seq<char>) -> Seq<char> {
    replaced_from(s, p, r, 0)
}

pub fn replace(s: &str, p: &str, by: &str) -> (r: String)
    requires
        p@.len() > 0,
    ensures
        r@ == replaced(s@, p@, by@),
{
    let cs = chars_of(s);
    let ps = chars_of(p);
    let mut out = String::new();
    let mut i: usize = 0;
    while i < cs.len()
        invariant
            i <= cs.len(),
            cs@ == s@,
            ps@ == p@,
            p@.len() > 0,
            out@ + replaced_from(s@, p@, by@, i as int) == replaced(s@, p@, by@),
        decreases cs.len() - i,
    {
        let ghost before = out@;
        if stands_at(&cs, &ps, i) {
            push_text(&mut out, by);
            proof {
                assert(before + replaced_from(s@, p@, by@, i as int) =~= out@ + replaced_from(
                    s@,
                    p@,
                    by@,
                    i + p@.len(),
                ));
            }
            i += ps.len();
        } else {
            out.push(cs[i]);
            assert(before + replaced_from(s@, p@, by@, i as int) =~= out@ + replaced_from(
                s@,
                p@,
                by@,
                i + 1,
            ));
            i += 1;
        }
    }
    assert(out@ =~= out@ + replaced_from(s@, p@, by@, i as int));
    out
}

// ─── splitting and joining ──────────────────────────────────────────────────
/// The pieces of `s[i..]` between the occurrences of the non-empty `sep`.
pub open spec fn split_from(s: Seq<char>, sep: Seq<char>, i: int) -> Seq<Seq<char>>
    decreases s.len() - i,
{
    if i < 0 || i > s.len() || sep.len() == 0 {
        Seq::empty()
    } else {
        match find_from(s, sep, i) {
            Some(j) => if i <= j && j + sep.len() <= s.len() {
                seq![s.subrange(i, j)] + split_from(s, sep, j + sep.len())
            } else {
                Seq::empty()
            },
            None => seq![s.skip(i)],
        }
    }
}

/// The pieces of `s` between the occurrences of `sep`.
pub open spec fn split_on(s: Seq<char>, sep: Seq<char>) -> Seq<Seq<char>> {
    split_from(s, sep, 0)
}

pub fn split(s: &str, sep: &str) -> (r: Vec<String>)
    requires
        sep@.len() > 0,
    ensures
        texts(r@) == split_on(s@, sep@),
{
    let cs = chars_of(s);
    let ps = chars_of(sep);
    let mut out: Vec<String> = Vec::new();
    let mut i: usize = 0;
    loop
        invariant
            i <= cs@.len(),
            cs@ == s@,
            ps@ == sep@,
            sep@.len() > 0,
            texts(out@) + split_from(s@, sep@, i as int) == split_on(s@, sep@),
        decreases cs@.len() - i,
    {
        let ghost before = out@;
        proof {
            lemma_find_from_range(s@, sep@, i as int);
        }
        match find_chars(&cs, &ps, i) {
            Some(j) => {
                assert(cs.len() == s@.len());
                let piece = substring(&cs, i, j);
                proof {
                    lemma_texts_push(before, piece);
                    assert(texts(before) + split_from(s@, sep@, i as int) =~= texts(
                        before.push(piece),
                    ) + split_from(s@, sep@, j + sep@.len()));
                }
                out.push(piece);
                i = j + ps.len();
            },
            None => {
                let piece = substring(&cs, i, cs.len());
                proof {
                    lemma_texts_push(before, piece);
                    assert(piece@ =~= s@.skip(i as int));
                    assert(texts(before) + split_from(s@, sep@, i as int) =~= texts(
                        before.push(piece),
                    ));
                }
                out.push(piece);
                return out;
            },
        }
    }
}

/// The parts in order, with `sep` between neighbours.
pub open spec fn joined(parts: Seq<Seq<char>>, sep: Seq<char>) -> Seq<char>
    decreases parts.len(),
{
    if parts.len() == 0 {
        Seq::empty()
    } else if parts.len() == 1 {
        parts[0]
    } else {
        joined(parts.drop_last(), sep) + sep + parts.last()
    }
}

pub fn join(parts: &Vec<String>, sep: &str) -> (r: String)
    ensures
        r@ == joined(texts(parts@), sep@),
{
    let mut out = String::new();
    let mut i: usize = 0;
    while i < parts.len()
        invariant
            i <= parts.len(),
            out@ == joined(texts(parts@).take(i as int), sep@),
        decreases parts.len() - i,
    {
        if i > 0 {
            push_text(&mut out, sep);
        }
        push_text(&mut out, parts[i].as_str());
        proof {
            let t = texts(parts@);
            assert(t.take(i + 1).drop_last() =~= t.take(i as int));
            assert(t.take(i + 1).last() == t[i as int]);
            if i == 0 {
                assert(out@ =~= t[0]);
            }
        }
        i += 1;
    }
    assert(texts(parts@).take(parts@.len() as int) =~= texts(parts@));
    out
}

/// The pieces, each trimmed.
pub open spec fn all_trimmed(parts: Seq<Seq<char>>) -> Seq<Seq<char>> {
    Seq::new(parts.len(), |i: int| trimmed(parts[i]))
}

/// Splits on `sep` and trims every piece.
pub fn split_trimmed(s: &str, sep: &str) -> (r: Vec<String>)
    requires
        sep@.len() > 0,
    ensures
        texts(r@) == all_trimmed(split_on(s@, sep@)),
{
    let raw = split(s, sep);
    let mut out: Vec<String> = Vec::new();
    let mut i: usize = 0;
    while i < raw.len()
        invariant
            i <= raw.len(),
            texts(raw@) == split_on(s@, sep@),
            texts(out@) == all_trimmed(split_on(s@, sep@)).take(i as int),
        decreases raw.len() - i,
    {
        let t = trim(raw[i].as_str());
        proof {
            lemma_texts_push(out@, t);
            assert(texts(raw@)[i as int] == raw@[i as int]@);
            assert(all_trimmed(split_on(s@, sep@)).take(i + 1) =~= all_trimmed(
                split_on(s@, sep@),
            ).take(i as int).push(t@));
        }
        out.push(t);
        i += 1;
    }
    assert(all_trimmed(split_on(s@, sep@)).take(raw@.len() as int) =~= all_trimmed(
        split_on(s@, sep@),
    ));
    out
}

pub proof fn lemma_joined_head(head: Seq<char>, rest: Seq<Seq<char>>, sep: Seq<char>)
    requires
        rest.len() > 0,
    ensures
        joined(seq![head] + rest, sep) == head + sep + joined(rest, sep),
    decreases rest.len(),
{
    let all = seq![head] + rest;
    if rest.len() == 1 {
        assert(all.drop_last() =~= seq![head]);
        assert(all.last() == rest[0]);
        assert(joined(seq![head], sep) == head);
        assert(joined(rest, sep) == rest[0]);
    } else {
        lemma_joined_head(head, rest.drop_last(), sep);
        assert(all.drop_last() =~= seq![head] + rest.drop_last());
        assert(all.last() == rest.last());
        assert(joined(all, sep) == joined(all.drop_last(), sep) + sep + rest.last());
        assert(head + sep + joined(rest.drop_last(), sep) + sep + rest.last() =~= head + sep
            + joined(rest, sep));
    }
}

proof fn lemma_split_from_joins(s: Seq<char>, sep: Seq<char>, i: int)
    requires
        0 <= i <= s.len(),
        sep.len() > 0,
    ensures
        split_from(s, sep, i).len() > 0,
        joined(split_from(s, sep, i), sep) == s.skip(i),
    decreases s.len() - i,
{
    lemma_find_from_range(s, sep, i);
    match find_from(s, sep, i) {
        Some(j) => {
            let rest = split_from(s, sep, j + sep.len());
            lemma_split_from_joins(s, sep, j + sep.len());
            lemma_joined_head(s.subrange(i, j), rest, sep);
            assert(s.subrange(i, j) + sep + s.skip(j + sep.len()) =~= s.skip(i)) by {
                assert(s.subrange(j, j + sep.len()) == sep);
                assert forall|k: int| 0 <= k < s.len() - i implies #[trigger] (s.subrange(i, j)
                    + sep + s.skip(j + sep.len()))[k] == s.skip(i)[k] by {
                    if j - i <= k < j - i + sep.len() {
                        assert(s.subrange(j, j + sep.len())[k - (j - i)] == s[i + k]);
                    }
                }
            }
        },
        None => {},
    }
}

/// The pieces of a text, joined again, are the text.
pub proof fn split_text_joins_again(s: Seq<char>, sep: Seq<char>)
    requires
        sep.len() > 0,
    ensures
        joined(split_on(s, sep), sep) == s,
{
    lemma_split_from_joins(s, sep, 0);
    assert(s.skip(0) =~= s);
}

pub proof fn lemma_find_behind(a: Seq<char>, b: Seq<char>, p: Seq<char>, i: int)
    requires
        0 <= i,
    ensures
        find_from(a + b, p, a.len() + i) == match find_from(b, p, i) {
            Some(j) => Some(a.len() + j),
            None => None,
        },
    decreases b.len() - i + 1,
{
    let t = a + b;
    if i + p.len() <= b.len() {
        assert(t.subrange(a.len() + i, a.len() + i + p.len()) =~= b.subrange(i, i + p.len()));
        if b.subrange(i, i + p.len()) != p {
            lemma_find_behind(a, b, p, i + 1);
        }
    }
}

proof fn lemma_split_behind(a: Seq<char>, b: Seq<char>, sep: Seq<char>, i: int)
    requires
        0 <= i <= b.len(),
        sep.len() > 0,
    ensures
        split_from(a + b, sep, a.len() + i) == split_from(b, sep, i),
    decreases b.len() - i,
{
    let t = a + b;
    lemma_find_behind(a, b, sep, i);
    lemma_find_from_range(b, sep, i);
    match find_from(b, sep, i) {
        Some(j) => {
            lemma_split_behind(a, b, sep, j + sep.len());
            assert(t.subrange(a.len() + i, a.len() + j) =~= b.subrange(i, j));
        },
        None => {
            assert(t.skip(a.len() + i) =~= b.skip(i));
        },
    }
}

/// Texts without the separator, joined by it, come apart again.
pub proof fn joined_texts_split_again(parts: Seq<Seq<char>>, sep: char)
    requires
        parts.len() > 0,
        forall|k: int| 0 <= k < parts.len() ==> !(#[trigger] parts[k]).contains(sep),
    ensures
        split_on(joined(parts, seq![sep]), seq![sep]) == parts,
    decreases parts.len(),
{
    let p = seq![sep];
    let first = parts[0];
    assert(!first.contains(sep));
    if parts.len() == 1 {
        lemma_find_from_range(first, p, 0);
        if let Some(j) = find_from(first, p, 0) {
            assert(first.subrange(j, j + 1)[0] == sep);
            assert(first[j] == sep);
        }
        assert(first.skip(0) =~= first);
        assert(split_on(first, p) =~= parts);
    } else {
        let rest = parts.skip(1);
        assert forall|k: int| 0 <= k < rest.len() implies !(#[trigger] rest[k]).contains(sep) by {
            assert(rest[k] == parts[k + 1]);
        }
        joined_texts_split_again(rest, sep);
        assert(parts =~= seq![first] + rest);
        lemma_joined_head(first, rest, p);
        let tail = joined(rest, p);
        let head = first + p;
        let s = head + tail;
        assert(joined(parts, p) =~= s);
        let n = first.len() as int;
        assert(s.subrange(n, n + 1) =~= p);
        lemma_find_from_range(s, p, 0);
        assert(occurs_at(s, p, n));
        let j = find_from(s, p, 0)->0;
        if j < n {
            assert(s.subrange(j, j + 1)[0] == sep);
            assert(first[j] == sep);
        }
        assert(j == n);
        lemma_split_behind(head, tail, p, 0);
        assert(s.subrange(0, n) =~= first);
    }
}

/// Replacing one character by a text is done part by part.
pub proof fn lemma_replace_char_in_parts(a: Seq<char>, b: Seq<char>, c: char, r: Seq<char>)
    ensures
        replaced(a + b, seq![c], r) == replaced(a, seq![c], r) + replaced(b, seq![c], r),
{
    lemma_replace_char_from(a, b, c, r, 0);
}

proof fn lemma_replace_char_from(a: Seq<char>, b: Seq<char>, c: char, r: Seq<char>, i: int)
    requires
        0 <= i <= a.len(),
    ensures
        replaced_from(a + b, seq![c], r, i) == replaced_from(a, seq![c], r, i) + replaced(
            b,
            seq![c],
            r,
        ),
    decreases a.len() - i,
{
    let s = a + b;
    if i == a.len() {
        lemma_replace_char_behind(a, b, c, r, 0);
    } else {
        lemma_replace_char_from(a, b, c, r, i + 1);
        assert(s.subrange(i, i + 1) =~= a.subrange(i, i + 1));
        let head = if occurs_at(a, seq![c], i) {
            r
        } else {
            seq![a[i]]
        };
        let rest = replaced_from(a, seq![c], r, i + 1);
        assert(head + (rest + replaced(b, seq![c], r)) =~= (head + rest) + replaced(
            b,
            seq![c],
            r,
        ));
    }
}

proof fn lemma_replace_char_behind(a: Seq<char>, b: Seq<char>, c: char, r: Seq<char>, j: int)
    requires
        0 <= j <= b.len(),
    ensures
        replaced_from(a + b, seq![c], r, a.len() + j) == replaced_from(b, seq![c], r, j),
    decreases b.len() - j,
{
    if j < b.len() {
        lemma_replace_char_behind(a, b, c, r, j + 1);
        assert((a + b).subrange(a.len() + j, a.len() + j + 1) =~= b.subrange(j, j + 1));
    }
}

/// Replacing in a text of one character.
pub proof fn lemma_replace_one_char(a: char, c: char, r: Seq<char>)
    ensures
        replaced(seq![a], seq![c], r) == if a == c {
            r
        } else {
            seq![a]
        },
{
    let s = seq![a];
    reveal_with_fuel(replaced_from, 2);
    assert(s.subrange(0, 1) =~= s);
    assert(s[0] == a && seq![c][0] == c);
    assert(r + Seq::<char>::empty() =~= r);
    assert(s + Seq::<char>::empty() =~= s);
}

/// The pieces of a split hold no separator.
pub proof fn lemma_pieces_hold_no(s: Seq<char>, c: char, i: int)
    requires
        0 <= i <= s.len(),
    ensures
        forall|k: int|
            0 <= k < split_from(s, seq![c], i).len() ==> !(#[trigger] split_from(
                s,
                seq![c],
                i,
            )[k]).contains(c),
    decreases s.len() - i,
{
    let p = seq![c];
    lemma_find_from_range(s, p, i);
    let pieces = split_from(s, p, i);
    match find_from(s, p, i) {
        Some(j) => {
            lemma_pieces_hold_no(s, c, j + 1);
            lemma_run_holds_no(s, c, i, j);
            let rest = split_from(s, p, j + 1);
            assert forall|k: int| 0 <= k < pieces.len() implies !(#[trigger] pieces[k]).contains(
                c,
            ) by {
                if k > 0 {
                    assert(pieces[k] == rest[k - 1]);
                }
            }
        },
        None => {
            lemma_run_holds_no(s, c, i, s.len() as int);
            assert(s.skip(i) =~= s.subrange(i, s.len() as int));
        },
    }
}

proof fn lemma_run_holds_no(s: Seq<char>, c: char, from: int, to: int)
    requires
        0 <= from <= to <= s.len(),
        forall|k: int| from <= k < to ==> !occurs_at(s, seq![c], k),
    ensures
        !s.subrange(from, to).contains(c),
{
    let run = s.subrange(from, to);
    assert forall|k: int| 0 <= k < run.len() implies run[k] != c by {
        assert(!occurs_at(s, seq![c], from + k));
        if s[from + k] == c {
            assert(s.subrange(from + k, from + k + 1) =~= seq![c]);
        }
    }
}

/// Trimming takes away white space only.
pub proof fn lemma_trimmed_contains(s: Seq<char>, c: char)
    requires
        !is_space(c),
    ensures
        trimmed(s).contains(c) == s.contains(c),
{
    lemma_trim_start_contains(s, c);
    lemma_trim_end_contains(trim_start(s), c);
}

proof fn lemma_trim_start_contains(s: Seq<char>, c: char)
    requires
        !is_space(c),
    ensures
        trim_start(s).contains(c) == s.contains(c),
    decreases s.len(),
{
    if s.len() > 0 && is_space(s[0]) {
        let rest = s.skip(1);
        lemma_trim_start_contains(rest, c);
        if s.contains(c) {
            let k = choose|k: int| 0 <= k < s.len() && s[k] == c;
            assert(rest[k - 1] == c);
        }
        if rest.contains(c) {
            let k = choose|k: int| 0 <= k < rest.len() && rest[k] == c;
            assert(s[k + 1] == c);
        }
    }
}

proof fn lemma_trim_end_contains(s: Seq<char>, c: char)
    requires
        !is_space(c),
    ensures
        trim_end(s).contains(c) == s.contains(c),
    decreases s.len(),
{
    if s.len() > 0 && is_space(s.last()) {
        let rest = s.drop_last();
        lemma_trim_end_contains(rest, c);
        if s.contains(c) {
            let k = choose|k: int| 0 <= k < s.len() && s[k] == c;
            assert(rest[k] == c);
        }
        if rest.contains(c) {
            let k = choose|k: int| 0 <= k < rest.len() && rest[k] == c;
            assert(s[k] == c);
        }
    }
}

// ─── quoted text ────────────────────────────────────────────────────────────
/// A backslash stands at `i` before a double quote or a backslash. Inside double
/// quotes it makes that character part of the text.
pub open spec fn escape_at(s: Seq<char>, i: int) -> bool {
    0 <= i && i + 1 < s.len() && s[i] == '\\' && (s[i + 1] == '"' || s[i + 1] == '\\')
}

/// Does a backslash escape the character behind it?
pub fn escapes(cs: &Vec<char>, i: usize) -> (r: bool)
    requires
        i < cs.len(),
    ensures
        r == escape_at(cs@, i as int),
{
    cs[i] == '\\' && cs.len() - i > 1 && (cs[i + 1] == '"' || cs[i + 1] == '\\')
}

/// The text in double quotes that `s[i..]` goes on with, behind `acc`, and the
/// place of the quote that ends it.
pub open spec fn quoted_from(s: Seq<char>, i: int, acc: Seq<char>) -> Option<(Seq<char>, int)>
    decreases s.len() - i,
{
    if i < 0 || i >= s.len() {
        None
    } else if escape_at(s, i) {
        quoted_from(s, i + 2, acc.push(s[i + 1]))
    } else if s[i] == '"' {
        Some((acc, i))
    } else {
        quoted_from(s, i + 1, acc.push(s[i]))
    }
}

// ─── laws of texts ──────────────────────────────────────────────────────────
/// Every character of the text is white space.
pub open spec fn all_space(s: Seq<char>) -> bool {
    forall|k: int| 0 <= k < s.len() ==> is_space(#[trigger] s[k])
}

/// Trimming takes the white space before and behind a text, and nothing else.
pub proof fn trimming_takes_the_space_around(a: Seq<char>, t: Seq<char>, b: Seq<char>)
    requires
        all_space(a),
        all_space(b),
        t.len() > 0,
        !is_space(t[0]),
        !is_space(t[t.len() - 1]),
    ensures
        trimmed(a + t + b) == t,
        trimmed(a).len() == 0,
    decreases a.len(), b.len(),
{
    let s = a + t + b;
    if a.len() > 0 {
        assert(is_space(a[0]));
        assert(s[0] == a[0]);
        assert(s.skip(1) =~= a.skip(1) + t + b);
        trimming_takes_the_space_around(a.skip(1), t, b);
        assert(trim_start(a) == trim_start(a.skip(1)));
    } else {
        assert(s[0] == t[0]);
        assert(trim_start(s) == s);
        assert(s =~= t + b);
        lemma_trim_end_of(t, b);
        assert(a =~= Seq::empty());
    }
}

proof fn lemma_trim_end_of(t: Seq<char>, b: Seq<char>)
    requires
        all_space(b),
        t.len() > 0,
        !is_space(t[t.len() - 1]),
    ensures
        trim_end(t + b) == t,
    decreases b.len(),
{
    let s = t + b;
    if b.len() > 0 {
        assert(is_space(b[b.len() - 1]));
        assert(s.last() == b[b.len() - 1]);
        assert(s.drop_last() =~= t + b.drop_last());
        lemma_trim_end_of(t, b.drop_last());
    } else {
        assert(s =~= t);
    }
}

/// Blanks, tabs and line ends are white space; letters, digits and signs are not.
pub proof fn white_space_is_blank(c: char)
    ensures
        is_space(' ') && is_space('\t') && is_space('\n') && is_space('\r'),
        '!' <= c && c <= '~' ==> !is_space(c),
{
}

/// Lower case turns capital ASCII letters into small ones, one by one, and leaves
/// everything else.
pub proof fn lower_case_changes_capitals_only(s: Seq<char>)
    ensures
        lowered(s).len() == s.len(),
        forall|k: int|
            0 <= k < s.len() ==> {
                let c = s[k];
                if 'A' <= c && c <= 'Z' {
                    (#[trigger] lowered(s)[k]) as u32 == c as u32 + 32
                } else {
                    lowered(s)[k] == c
                }
            },
        lowered(lowered(s)) == lowered(s),
{
    assert(lowered(lowered(s)) =~= lowered(s));
}

/// The first separator splits a text in two.
pub proof fn first_separator_splits(a: Seq<char>, sep: Seq<char>, b: Seq<char>)
    requires
        sep.len() > 0,
        forall|k: int| 0 <= k < a.len() ==> !#[trigger] occurs_at(a + sep + b, sep, k),
    ensures
        split_first(a + sep + b, sep) == Some((a, b)),
        has_text(a + sep + b, sep),
{
    let s = a + sep + b;
    let n = a.len() as int;
    assert(s.subrange(n, n + sep.len()) =~= sep);
    assert(occurs_at(s, sep, n));
    lemma_find_from_range(s, sep, 0);
    assert(s.take(n) =~= a);
    assert(s.skip(n + sep.len()) =~= b);
}

/// A text without the separator is not split.
pub proof fn texts_without_separator_stay_whole(s: Seq<char>, sep: Seq<char>, r: Seq<char>)
    requires
        sep.len() > 0,
        forall|k: int| !#[trigger] occurs_at(s, sep, k),
    ensures
        split_first(s, sep) is None,
        !has_text(s, sep),
        split_on(s, sep) == seq![s],
        replaced(s, sep, r) == s,
{
    lemma_find_from_range(s, sep, 0);
    assert(s.skip(0) =~= s);
    lemma_replaced_stays(s, sep, r, 0);
}

proof fn lemma_replaced_stays(s: Seq<char>, p: Seq<char>, r: Seq<char>, i: int)
    requires
        0 <= i <= s.len(),
        forall|k: int| i <= k ==> !#[trigger] occurs_at(s, p, k),
    ensures
        replaced_from(s, p, r, i) == s.skip(i),
    decreases s.len() - i,
{
    if i < s.len() {
        assert(!occurs_at(s, p, i));
        lemma_replaced_stays(s, p, r, i + 1);
        assert(seq![s[i]] + s.skip(i + 1) =~= s.skip(i));
    } else {
        assert(s.skip(i) =~= Seq::empty());
    }
}

/// The first occurrence is replaced, and then those in the rest.
pub proof fn occurrences_are_replaced_in_turn(
    a: Seq<char>,
    p: Seq<char>,
    b: Seq<char>,
    r: Seq<char>,
)
    requires
        p.len() > 0,
        forall|k: int| 0 <= k < a.len() ==> !#[trigger] occurs_at(a + p + b, p, k),
    ensures
        replaced(a + p + b, p, r) == a + r + replaced(b, p, r),
{
    let s = a + p + b;
    let n = a.len() as int;
    assert(s.subrange(n, n + p.len()) =~= p);
    lemma_replaced_shift(a + p, b, p, r, 0);
    assert(a + p + b =~= (a + p) + b);
    lemma_replaced_run(s, p, r, 0, n);
    assert(s.subrange(0, n) =~= a);
    assert(a + (r + replaced(b, p, r)) =~= a + r + replaced(b, p, r));
}

proof fn lemma_replaced_run(s: Seq<char>, p: Seq<char>, r: Seq<char>, i: int, n: int)
    requires
        0 <= i <= n <= s.len(),
        forall|k: int| i <= k < n ==> !#[trigger] occurs_at(s, p, k),
    ensures
        replaced_from(s, p, r, i) == s.subrange(i, n) + replaced_from(s, p, r, n),
    decreases n - i,
{
    if i < n {
        assert(!occurs_at(s, p, i));
        lemma_replaced_run(s, p, r, i + 1, n);
        assert(seq![s[i]] + (s.subrange(i + 1, n) + replaced_from(s, p, r, n)) =~= s.subrange(i, n)
            + replaced_from(s, p, r, n));
    } else {
        assert(s.subrange(i, n) + replaced_from(s, p, r, n) =~= replaced_from(s, p, r, n));
    }
}

proof fn lemma_replaced_shift(a: Seq<char>, b: Seq<char>, p: Seq<char>, r: Seq<char>, j: int)
    requires
        0 <= j <= b.len(),
        p.len() > 0,
    ensures
        replaced_from(a + b, p, r, a.len() + j) == replaced_from(b, p, r, j),
    decreases b.len() - j,
{
    let s = a + b;
    if j < b.len() {
        if j + p.len() <= b.len() {
            assert(s.subrange(a.len() + j, a.len() + j + p.len()) =~= b.subrange(j, j + p.len()));
            if occurs_at(b, p, j) {
                lemma_replaced_shift(a, b, p, r, j + p.len());
            }
        }
        lemma_replaced_shift(a, b, p, r, j + 1);
    }
}

/// The first piece of a split is what stands before the first separator, and the
/// others are those of the rest.
pub proof fn pieces_are_split_off_in_turn(a: Seq<char>, sep: Seq<char>, b: Seq<char>)
    requires
        sep.len() > 0,
        forall|k: int| 0 <= k < a.len() ==> !#[trigger] occurs_at(a + sep + b, sep, k),
    ensures
        split_on(a + sep + b, sep) == seq![a] + split_on(b, sep),
{
    let s = a + sep + b;
    let n = a.len() as int;
    first_separator_splits(a, sep, b);
    lemma_find_from_range(s, sep, 0);
    assert(occurs_at(s, sep, n)) by {
        assert(s.subrange(n, n + sep.len()) =~= sep);
    }
    assert(find_from(s, sep, 0) == Some(n));
    assert(s.subrange(0, n) =~= a);
    assert(s =~= (a + sep) + b);
    lemma_split_shift(a + sep, b, sep, 0);
}

proof fn lemma_split_shift(a: Seq<char>, b: Seq<char>, sep: Seq<char>, j: int)
    requires
        0 <= j <= b.len(),
        sep.len() > 0,
    ensures
        split_from(a + b, sep, a.len() + j) == split_from(b, sep, j),
    decreases b.len() - j,
{
    let s = a + b;
    lemma_find_behind(a, b, sep, j);
    lemma_find_from_range(b, sep, j);
    match find_from(b, sep, j) {
        Some(k) => {
            lemma_split_shift(a, b, sep, k + sep.len());
            assert(s.subrange(a.len() + j, a.len() + k) =~= b.subrange(j, k));
        },
        None => {
            assert(s.skip(a.len() + j) =~= b.skip(j));
        },
    }
}

/// Parts are joined with the separator between neighbours only.
pub proof fn joining_separates_neighbours(a: Seq<char>, rest: Seq<Seq<char>>, sep: Seq<char>)
    ensures
        joined(seq![a], sep) == a,
        rest.len() > 0 ==> joined(seq![a] + rest, sep) == a + sep + joined(rest, sep),
        joined(Seq::empty(), sep).len() == 0,
{
    if rest.len() > 0 {
        lemma_joined_head(a, rest, sep);
    }
}

/// Removing a leading or trailing character removes all of them and nothing else.
pub proof fn leading_characters_are_removed(c: char, n: nat, t: Seq<char>)
    requires
        t.len() > 0 ==> t[0] != c && t[t.len() - 1] != c,
    ensures
        without_leading(Seq::new(n, |i: int| c) + t, c) == t,
        without_trailing(t + Seq::new(n, |i: int| c), c) == t,
    decreases n,
{
    let run = Seq::new(n, |i: int| c);
    if n > 0 {
        let less = Seq::new((n - 1) as nat, |i: int| c);
        leading_characters_are_removed(c, (n - 1) as nat, t);
        assert((run + t)[0] == c);
        assert((run + t).skip(1) =~= less + t);
        assert((t + run).last() == c);
        assert((t + run).drop_last() =~= t + less);
    } else {
        assert(run + t =~= t);
        assert(t + run =~= t);
    }
}

} // verus!
