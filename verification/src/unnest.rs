//! `UNNEST(...)` calls inside SQL fragments.
//!
//! DuckDB accepts a row-exploding `UNNEST(list)` in few places. The lifter
//! replaces such calls by names, `_pq_u0`, `_pq_u1` and so on, and gathers the
//! lists that a derived table has to explode under those names. A list that
//! occurs several times is exploded once.
use vstd::prelude::*;

use crate::number::{decimal, decimal_reads_back, show};
use crate::text::{
    cat2, chars_of, find_from, is_digit, is_word, join, joined, joined_texts_split_again,
    lemma_find_from_range, lemma_pieces_hold_no, lower, lower_char, lowered, push_text, same, split,
    split_from, split_on, substring, texts, trim, trimmed, word,
};

verus! {

// ─── matching parentheses ───────────────────────────────────────────────────
/// The position where the parenthesis depth first falls to zero, reading
/// `s[i..]` at the given depth and quote state. Quoted text does not count.
pub open spec fn close_from(s: Seq<char>, i: int, depth: nat, single: bool, double: bool) -> Option<
    int,
>
    decreases s.len() - i,
{
    if i < 0 || i >= s.len() {
        None
    } else {
        let single = if !double && s[i] == '\'' {
            !single
        } else {
            single
        };
        let double = if !single && s[i] == '"' {
            !double
        } else {
            double
        };
        if single || double {
            close_from(s, i + 1, depth, single, double)
        } else if s[i] == '(' {
            close_from(s, i + 1, depth + 1, single, double)
        } else if s[i] == ')' {
            if depth <= 1 {
                Some(i)
            } else {
                close_from(s, i + 1, (depth - 1) as nat, single, double)
            }
        } else {
            close_from(s, i + 1, depth, single, double)
        }
    }
}

/// The position of the `)` that closes the `(` at `open`.
pub open spec fn paren_close(s: Seq<char>, open: int) -> Option<int> {
    close_from(s, open + 1, 1, false, false)
}

proof fn lemma_close_from_range(s: Seq<char>, i: int, depth: nat, single: bool, double: bool)
    ensures
        close_from(s, i, depth, single, double) matches Some(c) ==> i <= c < s.len() && s[c] == ')',
    decreases s.len() - i,
{
    if 0 <= i < s.len() {
        let single1 = if !double && s[i] == '\'' {
            !single
        } else {
            single
        };
        let double1 = if !single1 && s[i] == '"' {
            !double
        } else {
            double
        };
        lemma_close_from_range(s, i + 1, depth, single1, double1);
        lemma_close_from_range(s, i + 1, depth + 1, single1, double1);
        if depth > 0 {
            lemma_close_from_range(s, i + 1, (depth - 1) as nat, single1, double1);
        }
    }
}

/// Finds the `)` that closes the `(` at `open`, ignoring quoted text.
pub fn match_paren(cs: &[char], open: usize) -> (r: Option<usize>)
    requires
        open < cs@.len(),
    ensures
        match r {
            Some(c) => paren_close(cs@, open as int) == Some(c as int) && open < c < cs@.len(),
            None => paren_close(cs@, open as int) is None,
        },
{
    let n: usize = cs.len();
    let mut depth: usize = 1;
    let mut i: usize = open + 1;
    let mut single = false;
    let mut double = false;
    while i < n
        invariant
            open < i <= n,
            n == cs@.len(),
            1 <= depth <= i,
            paren_close(cs@, open as int) == close_from(
                cs@,
                i as int,
                depth as nat,
                single,
                double,
            ),
        decreases n - i,
    {
        let c = cs[i];
        if !double && c == '\'' {
            single = !single;
        }
        if !single && c == '"' {
            double = !double;
        }
        if !single && !double {
            if c == '(' {
                depth += 1;
            } else if c == ')' {
                if depth == 1 {
                    return Some(i);
                }
                depth -= 1;
            }
        }
        i += 1;
    }
    None
}

// ─── UNNEST calls ───────────────────────────────────────────────────────────
/// The word `UNNEST(`, in any case, starts at `i` and is no tail of a longer name.
pub open spec fn unnest_starts(s: Seq<char>, i: int) -> bool {
    &&& 0 <= i && i + 7 <= s.len()
    &&& !(i > 0 && is_word(s[i - 1]))
    &&& lowered(s.subrange(i, i + 7)) == "unnest("@
}

/// The closing parenthesis of the `UNNEST(...)` call that starts at `i`.
pub open spec fn unnest_close(s: Seq<char>, i: int) -> Option<int> {
    if unnest_starts(s, i) {
        paren_close(s, i + 6)
    } else {
        None
    }
}

proof fn lemma_unnest_close_range(s: Seq<char>, i: int)
    ensures
        unnest_close(s, i) matches Some(c) ==> i + 6 < c < s.len() && s[c] == ')',
{
    lemma_close_from_range(s, i + 7, 1, false, false);
}

/// Finds the end of an `UNNEST(...)` call that starts at `i`.
fn find_unnest(cs: &Vec<char>, i: usize) -> (r: Option<usize>)
    requires
        i < cs@.len(),
    ensures
        match r {
            Some(c) => unnest_close(cs@, i as int) == Some(c as int) && i + 6 < c < cs@.len(),
            None => unnest_close(cs@, i as int) is None,
        },
{
    if cs.len() - i < 7 {
        return None;
    }
    if i > 0 && word(cs[i - 1]) {
        return None;
    }
    let head = lower(substring(cs, i, i + 7).as_str());
    if !same(head.as_str(), "unnest(") {
        return None;
    }
    match_paren(cs, i + 6)
}

/// `s[i..]` with every `UNNEST(inner)` replaced by its `inner`, at any depth.
pub open spec fn unwrapped_from(s: Seq<char>, i: int) -> Seq<char>
    decreases s.len(), s.len() - i,
    via unwrapped_from_decreases
{
    if i < 0 || i >= s.len() {
        Seq::empty()
    } else {
        match unnest_close(s, i) {
            Some(c) => unwrapped_from(s.subrange(i + 7, c), 0) + unwrapped_from(s, c + 1),
            None => seq![s[i]] + unwrapped_from(s, i + 1),
        }
    }
}

#[via_fn]
proof fn unwrapped_from_decreases(s: Seq<char>, i: int) {
    lemma_unnest_close_range(s, i);
}

/// `s` without its `UNNEST(...)` wrappers.
pub open spec fn unwrapped(s: Seq<char>) -> Seq<char> {
    unwrapped_from(s, 0)
}

/// Removes `UNNEST(...)` wrappers: `UNNEST(UNNEST(matrix).row).cell` becomes
/// `matrix.row.cell`.
pub fn strip_unnest_wrappers(s: &str) -> (r: String)
    ensures
        r@ == unwrapped(s@),
    decreases s@.len(),
{
    let cs = chars_of(s);
    let mut out = String::new();
    let mut i: usize = 0;
    while i < cs.len()
        invariant
            i <= cs@.len(),
            cs@ == s@,
            out@ + unwrapped_from(s@, i as int) == unwrapped(s@),
        decreases cs@.len() - i,
    {
        let ghost before = out@;
        match find_unnest(&cs, i) {
            Some(c) => {
                let inner = substring(&cs, i + 7, c);
                let stripped = strip_unnest_wrappers(inner.as_str());
                push_text(&mut out, stripped.as_str());
                assert(before + unwrapped_from(s@, i as int) =~= out@ + unwrapped_from(s@, c + 1));
                i = c + 1;
            },
            None => {
                out.push(cs[i]);
                assert(before + unwrapped_from(s@, i as int) =~= out@ + unwrapped_from(s@, i + 1));
                i += 1;
            },
        }
    }
    assert(out@ =~= out@ + unwrapped_from(s@, i as int));
    out
}

// ─── alias names ────────────────────────────────────────────────────────────
/// `s` with `_` in place of every character that a plain name cannot hold.
pub open spec fn underscored(s: Seq<char>) -> Seq<char> {
    Seq::new(
        s.len(),
        |i: int|
            if is_word(s[i]) {
                s[i]
            } else {
                '_'
            },
    )
}

/// The non-empty parts, in order.
pub open spec fn non_empty(parts: Seq<Seq<char>>) -> Seq<Seq<char>>
    decreases parts.len(),
{
    if parts.len() == 0 {
        parts
    } else if parts.last().len() > 0 {
        non_empty(parts.drop_last()).push(parts.last())
    } else {
        non_empty(parts.drop_last())
    }
}

/// The name part derived from a column expression: the words of the unwrapped
/// expression, with one `_` between neighbours.
pub open spec fn safe_alias(col: Seq<char>) -> Seq<char> {
    joined(non_empty(split_on(underscored(unwrapped(col)), "_"@)), "_"@)
}

/// Makes a column expression fit to stand inside an alias name.
pub fn alias_safe(col: &str) -> (r: String)
    ensures
        r@ == safe_alias(col@),
{
    let stripped = strip_unnest_wrappers(col);
    let cs = chars_of(stripped.as_str());
    let mut clean = String::new();
    let mut i: usize = 0;
    while i < cs.len()
        invariant
            i <= cs@.len(),
            clean@ == underscored(cs@).take(i as int),
        decreases cs@.len() - i,
    {
        let c = if word(cs[i]) {
            cs[i]
        } else {
            '_'
        };
        assert(underscored(cs@).take(i + 1) =~= underscored(cs@).take(i as int).push(c));
        clean.push(c);
        i += 1;
    }
    assert(underscored(cs@).take(cs@.len() as int) =~= underscored(cs@));
    proof {
        reveal_strlit("_");
    }
    let parts = split(clean.as_str(), "_");
    let kept = keep_non_empty(&parts);
    join(&kept, "_")
}

/// The non-empty strings of a list.
pub fn keep_non_empty(parts: &Vec<String>) -> (r: Vec<String>)
    ensures
        texts(r@) == non_empty(texts(parts@)),
{
    let mut out: Vec<String> = Vec::new();
    let mut i: usize = 0;
    while i < parts.len()
        invariant
            i <= parts@.len(),
            texts(out@) == non_empty(texts(parts@).take(i as int)),
        decreases parts@.len() - i,
    {
        let ghost t = texts(parts@).take(i + 1);
        assert(t.drop_last() =~= texts(parts@).take(i as int));
        let is_empty = parts[i].as_str().is_empty();
        if !is_empty {
            let ghost before = out@;
            let p = parts[i].clone();
            out.push(p);
            assert(texts(out@) =~= texts(before).push(p@));
        }
        i += 1;
    }
    assert(texts(parts@).take(parts@.len() as int) =~= texts(parts@));
    out
}

/// Every character may stand in a plain name.
pub open spec fn all_word(s: Seq<char>) -> bool {
    forall|i: int| 0 <= i < s.len() ==> is_word(#[trigger] s[i])
}

proof fn lemma_split_keeps_words(s: Seq<char>, sep: Seq<char>, i: int)
    requires
        all_word(s),
    ensures
        forall|k: int|
            0 <= k < split_from(s, sep, i).len() ==> all_word(#[trigger] split_from(s, sep, i)[k]),
    decreases s.len() - i,
{
    if 0 <= i <= s.len() && sep.len() > 0 {
        lemma_find_from_range(s, sep, i);
        let parts = split_from(s, sep, i);
        match find_from(s, sep, i) {
            Some(j) => {
                lemma_split_keeps_words(s, sep, j + sep.len());
                let rest = split_from(s, sep, j + sep.len());
                assert forall|k: int| 0 <= k < parts.len() implies all_word(#[trigger] parts[k]) by {
                    if k > 0 {
                        assert(parts[k] == rest[k - 1]);
                    } else {
                        assert(parts[0] == s.subrange(i, j));
                    }
                }
            },
            None => {
                assert(parts[0] == s.skip(i));
            },
        }
    }
}

proof fn lemma_non_empty_keeps_words(parts: Seq<Seq<char>>)
    requires
        forall|k: int| 0 <= k < parts.len() ==> all_word(#[trigger] parts[k]),
    ensures
        forall|k: int|
            0 <= k < non_empty(parts).len() ==> all_word(#[trigger] non_empty(parts)[k]),
    decreases parts.len(),
{
    if parts.len() > 0 {
        let front = parts.drop_last();
        assert forall|k: int| 0 <= k < front.len() implies all_word(#[trigger] front[k]) by {
            assert(front[k] == parts[k]);
        }
        lemma_non_empty_keeps_words(front);
        assert forall|k: int| 0 <= k < non_empty(parts).len() implies all_word(
            #[trigger] non_empty(parts)[k],
        ) by {
            if k < non_empty(front).len() {
                assert(non_empty(parts)[k] == non_empty(front)[k]);
            }
        }
    }
}

pub proof fn lemma_joined_keeps_words(parts: Seq<Seq<char>>, sep: Seq<char>)
    requires
        forall|k: int| 0 <= k < parts.len() ==> all_word(#[trigger] parts[k]),
        all_word(sep),
    ensures
        all_word(joined(parts, sep)),
    decreases parts.len(),
{
    if parts.len() > 1 {
        let front = parts.drop_last();
        assert forall|k: int| 0 <= k < front.len() implies all_word(#[trigger] front[k]) by {
            assert(front[k] == parts[k]);
        }
        lemma_joined_keeps_words(front, sep);
        let a = joined(front, sep);
        let j = joined(parts, sep);
        assert forall|i: int| 0 <= i < j.len() implies is_word(#[trigger] j[i]) by {
            if i < a.len() {
                assert(j[i] == a[i]);
            } else if i < a.len() + sep.len() {
                assert(j[i] == sep[i - a.len()]);
            } else {
                assert(j[i] == parts[parts.len() - 1][i - a.len() - sep.len()]);
            }
        }
    } else if parts.len() == 1 {
        assert(all_word(parts[0]));
    }
}

/// A derived name part holds only letters, digits and underscores.
pub proof fn safe_alias_is_a_name(col: Seq<char>)
    ensures
        all_word(safe_alias(col)),
{
    let clean = underscored(unwrapped(col));
    assert(all_word(clean));
    reveal_strlit("_");
    lemma_split_keeps_words(clean, "_"@, 0);
    lemma_non_empty_keeps_words(split_on(clean, "_"@));
    lemma_joined_keeps_words(non_empty(split_on(clean, "_"@)), "_"@);
}

proof fn lemma_words_are_unwrapped(s: Seq<char>, i: int)
    requires
        all_word(s),
        0 <= i <= s.len(),
    ensures
        unwrapped_from(s, i) == s.skip(i),
    decreases s.len() - i,
{
    if i < s.len() {
        reveal_strlit("unnest(");
        if unnest_starts(s, i) {
            assert(lowered(s.subrange(i, i + 7))[6] == lower_char(s[i + 6]));
            assert(is_word(s[i + 6]));
        }
        lemma_words_are_unwrapped(s, i + 1);
        assert(seq![s[i]] + s.skip(i + 1) =~= s.skip(i));
    } else {
        assert(s.skip(i) =~= Seq::empty());
    }
}

spec fn are_words(parts: Seq<Seq<char>>) -> bool {
    forall|k: int|
        0 <= k < parts.len() ==> (#[trigger] parts[k]).len() > 0 && !parts[k].contains('_')
}

proof fn lemma_non_empty_are_words(parts: Seq<Seq<char>>)
    requires
        forall|k: int| 0 <= k < parts.len() ==> !(#[trigger] parts[k]).contains('_'),
    ensures
        are_words(non_empty(parts)),
    decreases parts.len(),
{
    if parts.len() > 0 {
        let front = parts.drop_last();
        assert forall|k: int| 0 <= k < front.len() implies !(#[trigger] front[k]).contains('_') by {
            assert(front[k] == parts[k]);
        }
        lemma_non_empty_are_words(front);
        let last = parts[parts.len() - 1];
        assert(!last.contains('_'));
        let all = non_empty(parts);
        assert forall|k: int| 0 <= k < all.len() implies (#[trigger] all[k]).len() > 0
            && !all[k].contains('_') by {
            if k < non_empty(front).len() {
                assert(all[k] == non_empty(front)[k]);
            }
        }
    }
}

proof fn lemma_words_are_kept(parts: Seq<Seq<char>>)
    requires
        are_words(parts),
    ensures
        non_empty(parts) == parts,
    decreases parts.len(),
{
    if parts.len() > 0 {
        let front = parts.drop_last();
        assert forall|k: int| 0 <= k < front.len() implies (#[trigger] front[k]).len() > 0
            && !front[k].contains('_') by {
            assert(front[k] == parts[k]);
        }
        lemma_words_are_kept(front);
        assert(parts[parts.len() - 1].len() > 0);
        assert(front.push(parts.last()) =~= parts);
    }
}

/// No `_` stands at either end, and no two of them side by side.
pub open spec fn is_tidy(s: Seq<char>) -> bool {
    &&& s.len() > 0 ==> s[0] != '_' && s[s.len() - 1] != '_'
    &&& forall|k: int| 0 < k < s.len() && #[trigger] s[k] == '_' ==> s[k - 1] != '_'
}

proof fn lemma_joined_words_are_tidy(parts: Seq<Seq<char>>)
    requires
        are_words(parts),
    ensures
        is_tidy(joined(parts, "_"@)),
        parts.len() > 0 ==> joined(parts, "_"@).len() > 0,
    decreases parts.len(),
{
    reveal_strlit("_");
    if parts.len() > 0 {
        let last = parts[parts.len() - 1];
        assert(last.len() > 0 && !last.contains('_'));
        assert forall|k: int| 0 <= k < last.len() implies #[trigger] last[k] != '_' by {
            assert(last.contains(last[k]));
        }
        if parts.len() > 1 {
            let front = parts.drop_last();
            assert forall|k: int| 0 <= k < front.len() implies (#[trigger] front[k]).len() > 0
                && !front[k].contains('_') by {
                assert(front[k] == parts[k]);
            }
            lemma_joined_words_are_tidy(front);
            let a = joined(front, "_"@);
            let all = joined(parts, "_"@);
            assert(all == a + "_"@ + last);
            let n = a.len() as int;
            assert forall|k: int| 0 < k < all.len() && #[trigger] all[k] == '_' implies all[k - 1]
                != '_' by {
                if k < n {
                    assert(all[k] == a[k] && all[k - 1] == a[k - 1]);
                } else if k == n {
                    assert(all[k - 1] == a[n - 1]);
                } else {
                    assert(all[k] == last[k - n - 1]);
                }
            }
            assert(all[0] == a[0]);
            assert(all[all.len() - 1] == last[last.len() - 1]);
        } else {
            assert(parts[0] == last);
        }
    }
}

/// A derived name part has no `_` at its ends and no two side by side, and gives
/// itself once more.
pub proof fn safe_alias_is_tidy(col: Seq<char>)
    ensures
        is_tidy(safe_alias(col)),
        safe_alias(safe_alias(col)) == safe_alias(col),
{
    reveal_strlit("_");
    assert("_"@ =~= seq!['_']);
    let clean = underscored(unwrapped(col));
    let parts = non_empty(split_on(clean, "_"@));
    let alias = safe_alias(col);
    lemma_pieces_hold_no(clean, '_', 0);
    lemma_non_empty_are_words(split_on(clean, "_"@));
    lemma_joined_words_are_tidy(parts);
    safe_alias_is_a_name(col);
    lemma_words_are_unwrapped(alias, 0);
    assert(alias.skip(0) =~= alias);
    assert(underscored(alias) =~= alias);
    if parts.len() > 0 {
        joined_texts_split_again(parts, '_');
        lemma_words_are_kept(parts);
    } else {
        let pieces = split_on(alias, "_"@);
        lemma_find_from_range(alias, "_"@, 0);
        assert(pieces =~= seq![Seq::<char>::empty()]);
        assert(pieces.drop_last() =~= Seq::empty());
        reveal_with_fuel(non_empty, 2);
        assert(non_empty(pieces) =~= Seq::empty());
    }
}

// ─── lifting ────────────────────────────────────────────────────────────────
/// The name under which the list with index `i` is exploded.
pub open spec fn source_alias(i: int) -> Seq<char> {
    "_pq_u"@ + decimal(i as nat)
}

/// The first index at or after `i` where `e` stands.
pub open spec fn first_index_from(sources: Seq<Seq<char>>, e: Seq<char>, i: int) -> Option<int>
    decreases sources.len() - i,
{
    if i < 0 || i >= sources.len() {
        None
    } else if sources[i] == e {
        Some(i)
    } else {
        first_index_from(sources, e, i + 1)
    }
}

/// A SQL literal is open before position `i`.
pub open spec fn in_literal(s: Seq<char>, i: int) -> bool
    decreases i,
{
    if i <= 0 || i > s.len() {
        false
    } else {
        in_literal(s, i - 1) != (s[i - 1] == '\'')
    }
}

/// Is a literal open at `to`, given whether one is at `from`?
fn literal_after(cs: &Vec<char>, from: usize, to: usize, open: bool) -> (r: bool)
    requires
        from <= to <= cs.len(),
        open == in_literal(cs@, from as int),
    ensures
        r == in_literal(cs@, to as int),
{
    let mut open = open;
    let mut i: usize = from;
    while i < to
        invariant
            from <= i <= to <= cs.len(),
            open == in_literal(cs@, i as int),
        decreases to - i,
    {
        if cs[i] == '\'' {
            open = !open;
        }
        i += 1;
    }
    open
}

/// The end of the `UNNEST(...)` call at `i`, outside literals, where the call has
/// to be lifted: one that is followed by `.` or `[`, or any call where lifting is
/// forced.
pub open spec fn liftable(s: Seq<char>, i: int, force: bool) -> Option<int> {
    match unnest_close(s, i) {
        Some(c) => if !in_literal(s, i) && (force || (c + 1 < s.len() && (s[c + 1] == '.'
            || s[c + 1] == '['))) {
            Some(c)
        } else {
            None
        },
        None => None,
    }
}

/// The fragment that `out` grows to, and the sources, once `s[i..]` is read.
pub open spec fn lift_from(
    s: Seq<char>,
    i: int,
    force: bool,
    out: Seq<char>,
    sources: Seq<Seq<char>>,
) -> (Seq<char>, Seq<Seq<char>>)
    decreases s.len() - i,
    via lift_from_decreases
{
    if i < 0 || i >= s.len() {
        (out, sources)
    } else {
        match liftable(s, i, force) {
            Some(c) => {
                let inner = trimmed(s.subrange(i + 7, c));
                match first_index_from(sources, inner, 0) {
                    Some(k) => lift_from(s, c + 1, force, out + source_alias(k), sources),
                    None => lift_from(
                        s,
                        c + 1,
                        force,
                        out + source_alias(sources.len() as int),
                        sources.push(inner),
                    ),
                }
            },
            None => lift_from(s, i + 1, force, out.push(s[i]), sources),
        }
    }
}

#[via_fn]
proof fn lift_from_decreases(
    s: Seq<char>,
    i: int,
    force: bool,
    out: Seq<char>,
    sources: Seq<Seq<char>>,
) {
    lemma_unnest_close_range(s, i);
}

/// A fragment with its `UNNEST(...)` calls replaced by names, and the exploded
/// lists known afterwards, given those known before.
pub open spec fn lifted(s: Seq<char>, sources: Seq<Seq<char>>, force: bool) -> (
    Seq<char>,
    Seq<Seq<char>>,
) {
    lift_from(s, 0, force, Seq::empty(), sources)
}

/// Finds `e` among the sources.
fn find_source(sources: &Vec<String>, e: &str) -> (r: Option<usize>)
    ensures
        match r {
            Some(k) => first_index_from(texts(sources@), e@, 0) == Some(k as int),
            None => first_index_from(texts(sources@), e@, 0) is None,
        },
{
    let mut i: usize = 0;
    while i < sources.len()
        invariant
            i <= sources@.len(),
            first_index_from(texts(sources@), e@, 0) == first_index_from(
                texts(sources@),
                e@,
                i as int,
            ),
        decreases sources@.len() - i,
    {
        if same(sources[i].as_str(), e) {
            return Some(i);
        }
        i += 1;
    }
    None
}

/// Replaces the `UNNEST(...)` calls of a fragment that have to be lifted by
/// names, adding to `sources` the lists that it does not hold yet.
pub fn lift_unnest(fragment: &str, sources: &mut Vec<String>, force: bool) -> (r: String)
    ensures
        (r@, texts(final(sources)@)) == lifted(fragment@, texts(old(sources)@), force),
{
    let cs = chars_of(fragment);
    let mut out = String::new();
    let mut open = false;
    let mut i: usize = 0;
    assert(out@ =~= Seq::empty());
    while i < cs.len()
        invariant
            i <= cs@.len(),
            cs@ == fragment@,
            open == in_literal(cs@, i as int),
            lift_from(fragment@, i as int, force, out@, texts(sources@)) == lifted(
                fragment@,
                texts(old(sources)@),
                force,
            ),
        decreases cs@.len() - i,
    {
        match find_unnest(&cs, i) {
            Some(c) => {
                let chained = c + 1 < cs.len() && (cs[c + 1] == '.' || cs[c + 1] == '[');
                if !open && (chained || force) {
                    let inner = trim(substring(&cs, i + 7, c).as_str());
                    let k: usize = match find_source(sources, inner.as_str()) {
                        Some(k) => k,
                        None => {
                            let k: usize = sources.len();
                            proof {
                                crate::text::lemma_texts_push(sources@, inner);
                            }
                            sources.push(inner);
                            k
                        },
                    };
                    let alias = cat2("_pq_u", show(k as u128).as_str());
                    push_text(&mut out, alias.as_str());
                    open = literal_after(&cs, i, c + 1, open);
                    i = c + 1;
                } else {
                    open = literal_after(&cs, i, i + 1, open);
                    out.push(cs[i]);
                    i += 1;
                }
            },
            None => {
                open = literal_after(&cs, i, i + 1, open);
                out.push(cs[i]);
                i += 1;
            },
        }
    }
    out
}

// ─── laws ───────────────────────────────────────────────────────────────────
proof fn lemma_first_index(sources: Seq<Seq<char>>, e: Seq<char>, i: int)
    requires
        0 <= i,
    ensures
        match first_index_from(sources, e, i) {
            Some(k) => i <= k < sources.len() && sources[k] == e,
            None => forall|k: int| i <= k < sources.len() ==> sources[k] != e,
        },
    decreases sources.len() - i,
{
    if i < sources.len() && sources[i] != e {
        lemma_first_index(sources, e, i + 1);
    }
}

proof fn lemma_lift_sources(
    s: Seq<char>,
    i: int,
    force: bool,
    out: Seq<char>,
    sources: Seq<Seq<char>>,
)
    ensures
        sources.is_prefix_of(lift_from(s, i, force, out, sources).1),
        sources.no_duplicates() ==> lift_from(s, i, force, out, sources).1.no_duplicates(),
    decreases s.len() - i,
{
    if 0 <= i < s.len() {
        lemma_unnest_close_range(s, i);
        match liftable(s, i, force) {
            Some(c) => {
                let inner = trimmed(s.subrange(i + 7, c));
                lemma_first_index(sources, inner, 0);
                match first_index_from(sources, inner, 0) {
                    Some(k) => {
                        lemma_lift_sources(s, c + 1, force, out + source_alias(k), sources);
                    },
                    None => {
                        let alias = source_alias(sources.len() as int);
                        lemma_lift_sources(s, c + 1, force, out + alias, sources.push(inner));
                        let after = lift_from(
                            s,
                            c + 1,
                            force,
                            out + alias,
                            sources.push(inner),
                        ).1;
                        assert(sources =~= after.subrange(0, sources.len() as int)) by {
                            assert forall|k: int| 0 <= k < sources.len() implies sources[k]
                                == after[k] by {
                                assert(sources.push(inner)[k] == after.subrange(
                                    0,
                                    sources.len() as int + 1,
                                )[k]);
                            }
                        }
                    },
                }
            },
            None => {
                lemma_lift_sources(s, i + 1, force, out.push(s[i]), sources);
            },
        }
    }
}

/// Lifting keeps the sources that were there, under their names, and explodes
/// no list twice.
pub proof fn lifting_explodes_each_list_once(s: Seq<char>, sources: Seq<Seq<char>>, force: bool)
    ensures
        sources.is_prefix_of(lifted(s, sources, force).1),
        sources.no_duplicates() ==> lifted(s, sources, force).1.no_duplicates(),
{
    lemma_lift_sources(s, 0, force, Seq::empty(), sources);
}

/// Two lists with different indices are exploded under different names.
pub proof fn source_aliases_differ(i: int, j: int)
    requires
        0 <= i,
        0 <= j,
        source_alias(i) == source_alias(j),
    ensures
        i == j,
{
    let p = "_pq_u"@;
    assert(source_alias(i).skip(p.len() as int) =~= decimal(i as nat));
    assert(source_alias(j).skip(p.len() as int) =~= decimal(j as nat));
    crate::number::decimal_is_injective(i as nat, j as nat);
}

proof fn lemma_lift_nothing(
    s: Seq<char>,
    i: int,
    force: bool,
    out: Seq<char>,
    sources: Seq<Seq<char>>,
)
    requires
        0 <= i <= s.len(),
        forall|k: int| 0 <= k < s.len() ==> liftable(s, k, force) is None,
        out == s.take(i),
    ensures
        lift_from(s, i, force, out, sources) == (s, sources),
    decreases s.len() - i,
{
    if i < s.len() {
        assert(out.push(s[i]) =~= s.take(i + 1));
        lemma_lift_nothing(s, i + 1, force, out.push(s[i]), sources);
    } else {
        assert(s.take(i) =~= s);
    }
}

/// A fragment with no call to lift stays as it is.
pub proof fn lifting_leaves_other_fragments_alone(
    s: Seq<char>,
    sources: Seq<Seq<char>>,
    force: bool,
)
    requires
        forall|k: int| 0 <= k < s.len() ==> liftable(s, k, force) is None,
    ensures
        lifted(s, sources, force) == (s, sources),
{
    assert(s.take(0) =~= Seq::<char>::empty());
    lemma_lift_nothing(s, 0, force, Seq::empty(), sources);
}

/// A call left in place by lifting: it does not close, stands in a literal, or
/// stands alone where lifting is not forced.
pub open spec fn stays(s: Seq<char>, k: int, force: bool) -> bool {
    unnest_starts(s, k) && liftable(s, k, force) is None
}

/// The last `m` characters of `out` are `s[i - m..i]`, none of them the start of
/// a lifted call; before them stands the last digit of a name, or nothing.
spec fn copied_run(s: Seq<char>, i: int, force: bool, out: Seq<char>, m: int) -> bool {
    &&& 0 <= m <= i <= s.len()
    &&& m <= out.len()
    &&& out.skip(out.len() - m) == s.subrange(i - m, i)
    &&& forall|k: int| i - m <= k < i ==> #[trigger] liftable(s, k, force) is None
    &&& if m == out.len() {
        m == i
    } else {
        is_digit(out[out.len() - m - 1])
    }
}

spec fn only_kept_calls(s: Seq<char>, force: bool, out: Seq<char>) -> bool {
    forall|j: int| #[trigger]
        unnest_starts(out, j) ==> exists|k: int| #[trigger] stays(s, k, force)
}

proof fn lemma_start_stays(out: Seq<char>, more: Seq<char>, j: int)
    requires
        0 <= j,
        j + 7 <= out.len(),
    ensures
        unnest_starts(out + more, j) == unnest_starts(out, j),
{
    assert((out + more).subrange(j, j + 7) =~= out.subrange(j, j + 7));
}

proof fn lemma_no_digit_in_call(out: Seq<char>, j: int, d: int)
    requires
        unnest_starts(out, j),
        j <= d < j + 7,
    ensures
        !is_digit(out[d]),
{
    reveal_strlit("unnest(");
    let w = out.subrange(j, j + 7);
    assert(lowered(w)[d - j] == lower_char(out[d]));
    assert(lowered(w)[d - j] == "unnest("@[d - j]);
}

proof fn lemma_kept_calls(
    s: Seq<char>,
    i: int,
    force: bool,
    out: Seq<char>,
    sources: Seq<Seq<char>>,
    m: int,
)
    requires
        copied_run(s, i, force, out, m),
        only_kept_calls(s, force, out),
    ensures
        only_kept_calls(s, force, lift_from(s, i, force, out, sources).0),
    decreases s.len() - i,
{
    if i < s.len() {
        lemma_unnest_close_range(s, i);
        match liftable(s, i, force) {
            Some(c) => {
                let inner = trimmed(s.subrange(i + 7, c));
                lemma_first_index(sources, inner, 0);
                let k = match first_index_from(sources, inner, 0) {
                    Some(k) => k,
                    None => sources.len() as int,
                };
                let alias = source_alias(k);
                lemma_alias_brings_no_call(s, force, out, k);
                let next = out + alias;
                decimal_reads_back(k as nat);
                let d = decimal(k as nat);
                assert(next.last() == d.last());
                assert(is_digit(d[d.len() - 1]));
                assert(next.skip(next.len() as int) =~= s.subrange(c + 1, c + 1));
                lemma_kept_calls(
                    s,
                    c + 1,
                    force,
                    next,
                    if first_index_from(sources, inner, 0) is Some {
                        sources
                    } else {
                        sources.push(inner)
                    },
                    0,
                );
            },
            None => {
                let next = out.push(s[i]);
                assert(next =~= out + seq![s[i]]);
                assert(next.skip(next.len() - m - 1) =~= s.subrange(i - m, i + 1)) by {
                    assert(next.skip(next.len() - m - 1) =~= out.skip(out.len() - m).push(s[i]));
                }
                assert forall|j: int| #[trigger] unnest_starts(next, j) implies exists|k: int| #[trigger]
                    stays(s, k, force) by {
                    if j + 7 <= out.len() {
                        lemma_start_stays(out, seq![s[i]], j);
                    } else {
                        // The call ends with the new character and lies in the copied run.
                        let k = i + 1 - 7;
                        let run = next.len() - m - 1;
                        if j < run {
                            lemma_no_digit_in_call(next, j, run - 1);
                        }
                        assert(next.subrange(j, j + 7) =~= s.subrange(k, k + 7)) by {
                            assert forall|x: int| 0 <= x < 7 implies #[trigger] next.subrange(j, j + 7)[x]
                                == s.subrange(k, k + 7)[x] by {
                                assert(next[j + x] == next.skip(run)[j + x - run]);
                                assert(s[k + x] == s.subrange(i - m, i + 1)[k + x - (i - m)]);
                            }
                        }
                        if k > 0 {
                            if j > run {
                                assert(next[j - 1] == next.skip(run)[j - 1 - run]);
                                assert(s[k - 1] == s.subrange(i - m, i + 1)[k - 1 - (i - m)]);
                            }
                        }
                        assert(stays(s, k, force));
                    }
                }
                lemma_kept_calls(s, i + 1, force, next, sources, m + 1);
            },
        }
    }
}

proof fn lemma_alias_brings_no_call(s: Seq<char>, force: bool, out: Seq<char>, k: int)
    requires
        0 <= k,
        only_kept_calls(s, force, out),
    ensures
        only_kept_calls(s, force, out + source_alias(k)),
{
    let alias = source_alias(k);
    let next = out + alias;
    let d = decimal(k as nat);
    decimal_reads_back(k as nat);
    reveal_strlit("_pq_u");
    reveal_strlit("unnest(");
    assert forall|j: int| #[trigger] unnest_starts(next, j) implies exists|x: int| #[trigger]
        stays(s, x, force) by {
        if j + 7 <= out.len() {
            lemma_start_stays(out, alias, j);
        } else {
            // The call would end in a character of the name, and none of them is `(`.
            let w = next.subrange(j, j + 7);
            assert(lowered(w)[6] == lower_char(next[j + 6]));
            assert("unnest("@[6] == '(');
            let p = j + 6 - out.len();
            assert(next[j + 6] == alias[p]);
            if p >= 5 {
                assert(alias[p] == d[p - 5]);
                assert(is_digit(d[p - 5]));
            } else {
                assert(alias[p] == "_pq_u"@[p]);
            }
            assert(false);
        }
    }
}

/// Lifting leaves an `UNNEST(` call in a fragment only where the fragment has
/// one that does not close or that stands in a literal, or, unless lifting is
/// forced, one that stands alone.
pub proof fn lifting_removes_calls(s: Seq<char>, sources: Seq<Seq<char>>, force: bool, j: int)
    requires
        unnest_starts(lifted(s, sources, force).0, j),
    ensures
        exists|k: int| #[trigger] stays(s, k, force),
{
    let out = Seq::<char>::empty();
    assert(out.skip(0) =~= s.subrange(0, 0));
    assert forall|x: int| #[trigger] unnest_starts(out, x) implies exists|k: int| #[trigger]
        stays(s, k, force) by {}
    lemma_kept_calls(s, 0, force, out, sources, 0);
}

/// A name that is tidy already is its own alias part, and of two tidy names with a
/// sign between them the alias part joins the two.
#[verifier::rlimit(50)]
pub proof fn safe_alias_keeps_names(a: Seq<char>, c: char, b: Seq<char>)
    requires
        a.len() > 0,
        b.len() > 0,
        all_word(a),
        all_word(b),
        !a.contains('_'),
        !b.contains('_'),
        !is_word(c),
        c != '(',
    ensures
        safe_alias(a) == a,
        safe_alias(a + seq![c] + b) == a + "_"@ + b,
        safe_alias(a + "_"@ + b) == a + "_"@ + b,
{
    reveal_strlit("_");
    assert("_"@ =~= seq!['_']);
    let s = a + seq![c] + b;
    let t = a + "_"@ + b;
    assert forall|k: int| 0 <= k < s.len() implies s[k] != '(' by {
        if k < a.len() {
            assert(s[k] == a[k] && is_word(a[k]));
        } else if k > a.len() {
            assert(s[k] == b[k - a.len() - 1] && is_word(b[k - a.len() - 1]));
        }
    }
    assert forall|k: int| 0 <= k < t.len() implies is_word(#[trigger] t[k]) by {
        if k < a.len() {
            assert(t[k] == a[k]);
        } else if k > a.len() {
            assert(t[k] == b[k - a.len() - 1]);
        }
    }
    lemma_no_call_is_unwrapped(s, 0);
    lemma_words_are_unwrapped(a, 0);
    lemma_words_are_unwrapped(t, 0);
    assert(s.skip(0) =~= s);
    assert(a.skip(0) =~= a);
    assert(t.skip(0) =~= t);
    assert(underscored(s) =~= t) by {
        assert forall|k: int| 0 <= k < s.len() implies #[trigger] underscored(s)[k] == t[k] by {
            if k < a.len() {
                assert(is_word(a[k]));
            } else if k > a.len() {
                assert(is_word(b[k - a.len() - 1]));
            }
        }
    }
    assert(underscored(a) =~= a);
    assert(underscored(t) =~= t);
    let two = seq![a, b];
    joined_texts_split_again(two, '_');
    assert(joined(two, seq!['_']) =~= t) by {
        assert(two.drop_last() =~= seq![a]);
        assert(joined(seq![a], seq!['_']) == a);
    }
    lemma_words_are_kept(two);
    let one = seq![a];
    joined_texts_split_again(one, '_');
    lemma_words_are_kept(one);
}

proof fn lemma_no_call_is_unwrapped(s: Seq<char>, i: int)
    requires
        forall|k: int| 0 <= k < s.len() ==> s[k] != '(',
        0 <= i <= s.len(),
    ensures
        unwrapped_from(s, i) == s.skip(i),
    decreases s.len() - i,
{
    if i < s.len() {
        reveal_strlit("unnest(");
        if unnest_starts(s, i) {
            assert(lowered(s.subrange(i, i + 7))[6] == lower_char(s[i + 6]));
        }
        lemma_no_call_is_unwrapped(s, i + 1);
        assert(seq![s[i]] + s.skip(i + 1) =~= s.skip(i));
    } else {
        assert(s.skip(i) =~= Seq::empty());
    }
}

/// A parenthesis is closed by the first closing one behind it, where no other one
/// opens in between, and no quotes stand there; what stands in quotes or in
/// further parentheses does not close it.
pub proof fn parentheses_close_where_they_balance(
    s: Seq<char>,
    i: int,
    depth: nat,
)
    requires
        0 <= i < s.len(),
        depth > 0,
    ensures
        s[i] == ')' && depth == 1 ==> close_from(s, i, depth, false, false) == Some(i),
        s[i] == ')' && depth > 1 ==> close_from(s, i, depth, false, false) == close_from(
            s,
            i + 1,
            (depth - 1) as nat,
            false,
            false,
        ),
        s[i] == '(' ==> close_from(s, i, depth, false, false) == close_from(
            s,
            i + 1,
            depth + 1,
            false,
            false,
        ),
        s[i] == '\'' ==> close_from(s, i, depth, false, false) == close_from(
            s,
            i + 1,
            depth,
            true,
            false,
        ),
        s[i] == '"' ==> close_from(s, i, depth, false, false) == close_from(
            s,
            i + 1,
            depth,
            false,
            true,
        ),
        s[i] != '\'' ==> close_from(s, i, depth, true, false) == close_from(
            s,
            i + 1,
            depth,
            true,
            false,
        ),
        s[i] != '"' ==> close_from(s, i, depth, false, true) == close_from(
            s,
            i + 1,
            depth,
            false,
            true,
        ),
        s[i] != '(' && s[i] != ')' && s[i] != '\'' && s[i] != '"' ==> close_from(
            s,
            i,
            depth,
            false,
            false,
        ) == close_from(s, i + 1, depth, false, false),
        close_from(s, s.len() as int, depth, false, false) is None,
{
}

proof fn lemma_plain_call_closes(s: Seq<char>, i: int, close: int)
    requires
        0 <= i <= close < s.len(),
        s[close] == ')',
        forall|k: int|
            i <= k < close ==> #[trigger] s[k] != '(' && s[k] != ')' && s[k] != '\'' && s[k] != '"',
    ensures
        close_from(s, i, 1, false, false) == Some(close),
    decreases close - i,
{
    if i < close {
        assert(s[i] != '(' && s[i] != ')' && s[i] != '\'' && s[i] != '"');
        lemma_plain_call_closes(s, i + 1, close);
    }
}

/// A call with a plain list, outside literals, is lifted where a field or an index
/// is taken of it, or where no call may stay: the name of the list stands in its
/// place, and a list that was not known yet becomes the next one. Elsewhere it
/// stays, as does everything that is no call.
#[verifier::rlimit(50)]
pub proof fn calls_are_lifted(
    s: Seq<char>,
    i: int,
    close: int,
    force: bool,
    out: Seq<char>,
    sources: Seq<Seq<char>>,
)
    requires
        0 <= i,
        i + 7 <= close < s.len(),
        lowered(s.subrange(i, i + 7)) == "unnest("@,
        i > 0 ==> !is_word(s[i - 1]),
        s[close] == ')',
        forall|k: int|
            i + 7 <= k < close ==> #[trigger] s[k] != '(' && s[k] != ')' && s[k] != '\'' && s[k]
                != '"',
        !in_literal(s, i),
    ensures
        ({
            let list = trimmed(s.subrange(i + 7, close));
            let taken = close + 1 < s.len() && (s[close + 1] == '.' || s[close + 1] == '[');
            let lifts = force || taken;
            &&& lifts && !sources.contains(list) ==> lift_from(s, i, force, out, sources)
                == lift_from(
                s,
                close + 1,
                force,
                out + "_pq_u"@ + decimal(sources.len()),
                sources.push(list),
            )
            &&& forall|k: int|
                lifts && 0 <= k < sources.len() && sources[k] == list && (forall|j: int|
                    0 <= j < k ==> sources[j] != list) ==> lift_from(s, i, force, out, sources)
                    == #[trigger] lift_from(
                    s,
                    close + 1,
                    force,
                    out + "_pq_u"@ + decimal(k as nat),
                    sources,
                )
            &&& !lifts ==> lift_from(s, i, force, out, sources) == lift_from(
                s,
                i + 1,
                force,
                out.push(s[i]),
                sources,
            )
        }),
{
    lemma_plain_call_closes(s, i + 7, close);
    assert(unnest_close(s, i) == Some(close));
    let list = trimmed(s.subrange(i + 7, close));
    lemma_first_index(sources, list, 0);
    assert(out + ("_pq_u"@ + decimal(sources.len())) =~= out + "_pq_u"@ + decimal(sources.len()));
    if !sources.contains(list) {
        assert(first_index_from(sources, list, 0) is None);
    }
    assert forall|k: int|
        (force || (close + 1 < s.len() && (s[close + 1] == '.' || s[close + 1] == '['))) && 0 <= k
            < sources.len() && sources[k] == list && (forall|j: int|
            0 <= j < k ==> sources[j] != list) implies lift_from(s, i, force, out, sources)
        == #[trigger] lift_from(
        s,
        close + 1,
        force,
        out + "_pq_u"@ + decimal(k as nat),
        sources,
    ) by {
        lemma_first_index_at(sources, list, 0, k);
        assert(out + ("_pq_u"@ + decimal(k as nat)) =~= out + "_pq_u"@ + decimal(k as nat));
    }
}

proof fn lemma_first_index_at(sources: Seq<Seq<char>>, e: Seq<char>, from: int, k: int)
    requires
        0 <= from <= k < sources.len(),
        sources[k] == e,
        forall|j: int| 0 <= j < k ==> sources[j] != e,
    ensures
        first_index_from(sources, e, from) == Some(k),
    decreases k - from,
{
    if from < k {
        lemma_first_index_at(sources, e, from + 1, k);
    }
}

/// Lifting reads a fragment from its first character on, and gives what it wrote.
pub proof fn lifting_reads_all(s: Seq<char>, sources: Seq<Seq<char>>, force: bool, out: Seq<char>)
    ensures
        lifted(s, sources, force) == lift_from(s, 0, force, ""@, sources),
        lift_from(s, s.len() as int, force, out, sources) == (out, sources),
{
    reveal_strlit("");
    assert(""@ =~= Seq::<char>::empty());
}

/// Of a call only the list is left, also where calls stand inside each other.
pub proof fn wrappers_are_taken_off(s: Seq<char>, i: int, close: int)
    requires
        0 <= i,
        i + 7 <= close < s.len(),
        lowered(s.subrange(i, i + 7)) == "unnest("@,
        i > 0 ==> !is_word(s[i - 1]),
        paren_close(s, i + 6) == Some(close),
    ensures
        unwrapped_from(s, i) == unwrapped(s.subrange(i + 7, close)) + unwrapped_from(s, close + 1),
{
}

/// Every call, whatever its list holds, is lifted outside literals where it has to
/// be; what is no call, or stands in a literal, is copied.
#[verifier::rlimit(50)]
pub proof fn calls_with_any_list_are_lifted(
    s: Seq<char>,
    i: int,
    close: int,
    force: bool,
    out: Seq<char>,
    sources: Seq<Seq<char>>,
)
    requires
        0 <= i < s.len(),
    ensures
        ({
            let starts = i + 7 <= s.len() && lowered(s.subrange(i, i + 7)) == "unnest("@ && (i == 0
                || !is_word(s[i - 1]));
            let list = trimmed(s.subrange(i + 7, close));
            let taken = close + 1 < s.len() && (s[close + 1] == '.' || s[close + 1] == '[');
            let copied = lift_from(s, i + 1, force, out.push(s[i]), sources);
            &&& !starts || in_literal(s, i) ==> lift_from(s, i, force, out, sources) == copied
            &&& starts && paren_close(s, i + 6) is None ==> lift_from(s, i, force, out, sources)
                == copied
            &&& starts && paren_close(s, i + 6) == Some(close) && !in_literal(s, i) && (force
                || taken) && !sources.contains(list) ==> lift_from(s, i, force, out, sources)
                == lift_from(
                s,
                close + 1,
                force,
                out + "_pq_u"@ + decimal(sources.len()),
                sources.push(list),
            )
            &&& starts && paren_close(s, i + 6) == Some(close) && !force && !taken ==> lift_from(
                s,
                i,
                force,
                out,
                sources,
            ) == copied
        }),
{
    let list = trimmed(s.subrange(i + 7, close));
    lemma_first_index(sources, list, 0);
    assert(out + ("_pq_u"@ + decimal(sources.len())) =~= out + "_pq_u"@ + decimal(sources.len()));
}

/// A literal opens and closes at its quotes.
pub proof fn literals_open_at_quotes(s: Seq<char>, i: int)
    requires
        0 <= i < s.len(),
    ensures
        !in_literal(s, 0),
        s[i] == '\'' ==> in_literal(s, i + 1) == !in_literal(s, i),
        s[i] != '\'' ==> in_literal(s, i + 1) == in_literal(s, i),
{
}

/// Quotes inside parentheses close again.
pub proof fn quotes_in_parentheses_close(s: Seq<char>, i: int, depth: nat)
    requires
        0 <= i < s.len(),
    ensures
        s[i] == '\'' ==> close_from(s, i, depth, true, false) == close_from(
            s,
            i + 1,
            depth,
            false,
            false,
        ),
        s[i] == '"' ==> close_from(s, i, depth, false, true) == close_from(
            s,
            i + 1,
            depth,
            false,
            false,
        ),
{
}

} // verus!
