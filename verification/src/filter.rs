//! Filter expressions.
//!
//! A filter is a DuckDB expression with some sugar: `"text"` for `'text'`, `==`
//! for `=`, `!=` for `<>`, and column paths that start with a dot. Everything
//! else passes through. Text in double quotes may hold `\"` for a quote and `\\`
//! for a backslash.
use vstd::prelude::*;

use crate::path::{path_sql, path_to_sql};
use crate::sql::{escaped_text_reads_back, lemma_quotes_doubled_push, literal_text, quotes_doubled};
use crate::text::{
    chars_of, escape_at, escapes, is_letter, is_space, is_word, letter, push_text, quoted_from,
    space, substring, word,
};

verus! {

/// A character that a path may hold, `depth` brackets deep.
pub open spec fn in_path(c: char, depth: nat) -> bool {
    ||| c == '[' || c == '.' || is_word(c)
    ||| depth > 0 && (c == ']' || c == '"' || c == '\'' || c == '-' || is_space(c))
}

/// The end of the path text that `s[i..]` goes on with, `depth` brackets deep.
pub open spec fn path_end_from(s: Seq<char>, i: int, depth: nat) -> int
    decreases s.len() - i,
{
    if i < 0 || i >= s.len() || !in_path(s[i], depth) {
        i
    } else if s[i] == '[' {
        path_end_from(s, i + 1, depth + 1)
    } else if s[i] == ']' {
        path_end_from(s, i + 1, (depth - 1) as nat)
    } else {
        path_end_from(s, i + 1, depth)
    }
}

/// The end of the path text that starts with the dot at `start`.
pub open spec fn path_end(s: Seq<char>, start: int) -> int {
    path_end_from(s, start + 1, 0)
}

proof fn lemma_path_end_range(s: Seq<char>, i: int, depth: nat)
    requires
        0 <= i <= s.len(),
    ensures
        i <= path_end_from(s, i, depth) <= s.len(),
    decreases s.len() - i,
{
    if i < s.len() && in_path(s[i], depth) {
        if s[i] == '[' {
            lemma_path_end_range(s, i + 1, depth + 1);
        } else if s[i] == ']' {
            lemma_path_end_range(s, i + 1, (depth - 1) as nat);
        } else {
            lemma_path_end_range(s, i + 1, depth);
        }
    }
}

/// Finds the end of the path text that starts with the dot at `start`.
pub fn scan_path_end(cs: &Vec<char>, start: usize) -> (r: usize)
    requires
        start < cs.len(),
    ensures
        r == path_end(cs@, start as int),
        start < r <= cs.len(),
{
    let mut i: usize = start + 1;
    let mut depth: usize = 0;
    while i < cs.len()
        invariant
            start < i <= cs.len(),
            depth < i,
            path_end(cs@, start as int) == path_end_from(cs@, i as int, depth as nat),
        decreases cs.len() - i,
    {
        let c = cs[i];
        if c == '[' {
            depth += 1;
        } else if c == ']' && depth > 0 {
            depth -= 1;
        } else if !(c == '.' || word(c) || (depth > 0 && (c == '"' || c == '\'' || c == '-'
            || space(c)))) {
            return i;
        }
        i += 1;
    }
    i
}

/// The state of a filter translation: the next position, the quotes that are
/// open there, and the SQL so far.
pub struct FilterState {
    pub next: int,
    pub single: bool,
    pub double: bool,
    pub out: Seq<char>,
}

/// `c` may be the end of an operand that a dot selects a field of.
pub open spec fn ends_operand(c: char) -> bool {
    is_word(c) || c == ')' || c == ']'
}

/// A column path starts with the dot at `st.next`.
pub open spec fn path_starts(s: Seq<char>, st: FilterState) -> bool {
    let i = st.next;
    &&& s[i] == '.'
    &&& i + 1 < s.len() && (is_letter(s[i + 1]) || s[i + 1] == '_')
    &&& !(st.out.len() > 0 && ends_operand(st.out.last()))
}

/// One step of the translation.
pub open spec fn filter_step(s: Seq<char>, st: FilterState) -> FilterState {
    let i = st.next;
    let c = s[i];
    if st.single || (c == '\'' && !st.double) {
        // Text in single quotes, and these quotes, pass through.
        FilterState { next: i + 1, single: st.single != (c == '\''), out: st.out.push(c), ..st }
    } else if st.double && escape_at(s, i) {
        FilterState { next: i + 2, out: st.out.push(s[i + 1]), ..st }
    } else if c == '"' {
        FilterState { next: i + 1, double: !st.double, out: st.out.push('\''), ..st }
    } else if st.double {
        // Text in double quotes becomes the body of a SQL literal.
        FilterState {
            next: i + 1,
            out: if c == '\'' {
                st.out.push('\'').push('\'')
            } else {
                st.out.push(c)
            },
            ..st
        }
    } else if c == '=' && i + 1 < s.len() && s[i + 1] == '=' {
        FilterState { next: i + 2, out: st.out.push('='), ..st }
    } else if c == '!' && i + 1 < s.len() && s[i + 1] == '=' {
        FilterState { next: i + 2, out: st.out.push('<').push('>'), ..st }
    } else if path_starts(s, st) {
        match path_sql(s.subrange(i, path_end(s, i))) {
            Ok(sql) => FilterState { next: path_end(s, i), out: st.out + sql, ..st },
            Err(_) => FilterState { next: i + 1, ..st },
        }
    } else {
        FilterState { next: i + 1, out: st.out.push(c), ..st }
    }
}

/// The SQL once the rest of the filter is read.
pub open spec fn filter_from(s: Seq<char>, st: FilterState) -> Seq<char>
    decreases s.len() - st.next,
    via filter_from_decreases
{
    if st.next < 0 || st.next >= s.len() {
        st.out
    } else {
        filter_from(s, filter_step(s, st))
    }
}

#[via_fn]
proof fn filter_from_decreases(s: Seq<char>, st: FilterState) {
    if 0 <= st.next < s.len() {
        lemma_path_end_range(s, st.next + 1, 0);
    }
}

/// The state before the first character.
pub open spec fn filter_start() -> FilterState {
    FilterState { next: 0, single: false, double: false, out: Seq::empty() }
}

/// The SQL of a filter expression.
pub open spec fn filter_sql(s: Seq<char>) -> Seq<char> {
    filter_from(s, filter_start())
}

/// Translates a filter expression to SQL.
pub fn rewrite_filter(input: &str) -> (r: String)
    ensures
        r@ == filter_sql(input@),
{
    let cs = chars_of(input);
    let mut out = String::new();
    let mut last: Option<char> = None;
    let mut i: usize = 0;
    let mut single = false;
    let mut double = false;
    assert(out@ =~= Seq::empty());
    while i < cs.len()
        invariant
            i <= cs.len(),
            cs@ == input@,
            !(single && double),
            last is None == (out@.len() == 0),
            last matches Some(l) ==> l == out@.last(),
            filter_sql(input@) == filter_from(
                input@,
                (FilterState { next: i as int, single, double, out: out@ }),
            ),
        decreases cs.len() - i,
    {
        let c = cs[i];
        if c == '\'' && !double {
            single = !single;
            out.push(c);
            last = Some(c);
            i += 1;
        } else if single {
            out.push(c);
            last = Some(c);
            i += 1;
        } else if double && escapes(&cs, i) {
            out.push(cs[i + 1]);
            last = Some(cs[i + 1]);
            i += 2;
        } else if c == '"' {
            double = !double;
            out.push('\'');
            last = Some('\'');
            i += 1;
        } else if double {
            if c == '\'' {
                out.push('\'');
            }
            out.push(c);
            last = Some(c);
            i += 1;
        } else if c == '=' && i + 1 < cs.len() && cs[i + 1] == '=' {
            out.push('=');
            last = Some('=');
            i += 2;
        } else if c == '!' && i + 1 < cs.len() && cs[i + 1] == '=' {
            out.push('<');
            out.push('>');
            last = Some('>');
            i += 2;
        } else {
            let operand_before = match last {
                Some(l) => word(l) || l == ')' || l == ']',
                None => false,
            };
            if c == '.' && i + 1 < cs.len() && (letter(cs[i + 1]) || cs[i + 1] == '_')
                && !operand_before {
                let end = scan_path_end(&cs, i);
                let raw = substring(&cs, i, end);
                match path_to_sql(raw.as_str()) {
                    Ok(sql) => {
                        push_text(&mut out, sql.as_str());
                        let sql_chars = chars_of(sql.as_str());
                        if sql_chars.len() > 0 {
                            last = Some(sql_chars[sql_chars.len() - 1]);
                        }
                        i = end;
                    },
                    Err(_) => {
                        i += 1;
                    },
                }
            } else {
                out.push(c);
                last = Some(c);
                i += 1;
            }
        }
    }
    out
}

// ─── paths in SQL ───────────────────────────────────────────────────────────
/// A column path starts with the dot at `st.next` of a SQL expression. A dot
/// behind an operand selects a field of it.
pub open spec fn sql_path_starts(s: Seq<char>, st: FilterState) -> bool {
    let i = st.next;
    &&& s[i] == '.'
    &&& i + 1 < s.len() && (is_letter(s[i + 1]) || s[i + 1] == '_')
    &&& !(st.out.len() > 0 && (ends_operand(st.out.last()) || st.out.last() == '"'))
}

/// One step through a SQL expression: quoted text is passed over, a column path
/// becomes SQL, and everything else stays.
pub open spec fn expression_step(s: Seq<char>, st: FilterState) -> FilterState {
    let i = st.next;
    let c = s[i];
    if st.double && escape_at(s, i) {
        FilterState { next: i + 2, out: st.out.push(c).push(s[i + 1]), ..st }
    } else if c == '\'' && !st.double {
        FilterState { next: i + 1, single: !st.single, out: st.out.push(c), ..st }
    } else if c == '"' && !st.single {
        FilterState { next: i + 1, double: !st.double, out: st.out.push(c), ..st }
    } else if !st.single && !st.double && sql_path_starts(s, st) {
        match path_sql(s.subrange(i, path_end(s, i))) {
            Ok(sql) => FilterState { next: path_end(s, i), out: st.out + sql, ..st },
            Err(_) => FilterState { next: i + 1, out: st.out.push(c), ..st },
        }
    } else {
        FilterState { next: i + 1, out: st.out.push(c), ..st }
    }
}

/// The SQL once the rest of the expression is read.
pub open spec fn expression_from(s: Seq<char>, st: FilterState) -> Seq<char>
    decreases s.len() - st.next,
    via expression_from_decreases
{
    if st.next < 0 || st.next >= s.len() {
        st.out
    } else {
        expression_from(s, expression_step(s, st))
    }
}

#[via_fn]
proof fn expression_from_decreases(s: Seq<char>, st: FilterState) {
    if 0 <= st.next < s.len() {
        lemma_path_end_range(s, st.next + 1, 0);
    }
}

/// A SQL expression with its column paths as SQL.
pub open spec fn expression_sql(s: Seq<char>) -> Seq<char> {
    expression_from(s, filter_start())
}

/// Translates the column paths in a SQL expression.
pub fn rewrite_expression(input: &str) -> (r: String)
    ensures
        r@ == expression_sql(input@),
{
    let cs = chars_of(input);
    let mut out = String::new();
    let mut last: Option<char> = None;
    let mut i: usize = 0;
    let mut single = false;
    let mut double = false;
    assert(out@ =~= Seq::empty());
    while i < cs.len()
        invariant
            i <= cs.len(),
            cs@ == input@,
            last is None == (out@.len() == 0),
            last matches Some(l) ==> l == out@.last(),
            expression_sql(input@) == expression_from(
                input@,
                (FilterState { next: i as int, single, double, out: out@ }),
            ),
        decreases cs.len() - i,
    {
        let c = cs[i];
        let operand_before = match last {
            Some(l) => word(l) || l == ')' || l == ']' || l == '"',
            None => false,
        };
        if double && escapes(&cs, i) {
            out.push(c);
            out.push(cs[i + 1]);
            last = Some(cs[i + 1]);
            i += 2;
        } else if !single && !double && c == '.' && i + 1 < cs.len() && (letter(cs[i + 1])
            || cs[i + 1] == '_') && !operand_before {
            let end = scan_path_end(&cs, i);
            let raw = substring(&cs, i, end);
            match path_to_sql(raw.as_str()) {
                Ok(sql) => {
                    push_text(&mut out, sql.as_str());
                    let sql_chars = chars_of(sql.as_str());
                    if sql_chars.len() > 0 {
                        last = Some(sql_chars[sql_chars.len() - 1]);
                    }
                    i = end;
                },
                Err(_) => {
                    out.push(c);
                    last = Some(c);
                    i += 1;
                },
            }
        } else {
            if c == '\'' && !double {
                single = !single;
            } else if c == '"' && !single {
                double = !double;
            }
            out.push(c);
            last = Some(c);
            i += 1;
        }
    }
    out
}

// ─── laws ───────────────────────────────────────────────────────────────────
/// A SQL expression without dots stays as it is.
pub proof fn expressions_without_paths_stay(s: Seq<char>)
    requires
        !s.contains('.'),
    ensures
        expression_sql(s) == s,
{
    assert(s.take(0) =~= Seq::empty());
    lemma_expression_stays(s, filter_start());
}

proof fn lemma_expression_stays(s: Seq<char>, st: FilterState)
    requires
        !s.contains('.'),
        0 <= st.next <= s.len(),
        st.out == s.take(st.next),
    ensures
        expression_from(s, st) == s,
    decreases s.len() - st.next,
{
    if st.next < s.len() {
        assert(s.contains(s[st.next]));
        let next = expression_step(s, st);
        assert(next.out =~= s.take(next.next));
        lemma_expression_stays(s, next);
    } else {
        assert(s.take(st.next) =~= s);
    }
}

proof fn lemma_double_quoted_run(s: Seq<char>, base: Seq<char>, i: int, acc: Seq<char>)
    requires
        0 <= i,
        quoted_from(s, i, acc) is Some,
    ensures
        ({
            let (text, close) = quoted_from(s, i, acc)->0;
            &&& i <= close < s.len()
            &&& filter_from(
                s,
                (FilterState {
                    next: i,
                    single: false,
                    double: true,
                    out: base + quotes_doubled(acc),
                }),
            ) == filter_from(
                s,
                (FilterState {
                    next: close + 1,
                    single: false,
                    double: false,
                    out: (base + quotes_doubled(text)).push('\''),
                }),
            )
        }),
    decreases s.len() - i,
{
    let st = FilterState { next: i, single: false, double: true, out: base + quotes_doubled(acc) };
    reveal_strlit("''");
    if escape_at(s, i) {
        lemma_quotes_doubled_push(acc, s[i + 1]);
        assert(filter_step(s, st).out =~= base + quotes_doubled(acc.push(s[i + 1])));
        lemma_double_quoted_run(s, base, i + 2, acc.push(s[i + 1]));
    } else if s[i] != '"' {
        lemma_quotes_doubled_push(acc, s[i]);
        assert(filter_step(s, st).out =~= base + quotes_doubled(acc.push(s[i])));
        lemma_double_quoted_run(s, base, i + 1, acc.push(s[i]));
    }
}

/// Text in double quotes becomes a SQL literal of that text: wherever it stands
/// outside quotes, the translation goes on behind it with the literal written.
pub proof fn double_quoted_text_becomes_a_literal(s: Seq<char>, st: FilterState)
    requires
        0 <= st.next < s.len(),
        !st.single && !st.double,
        s[st.next] == '"',
        quoted_from(s, st.next + 1, Seq::empty()) is Some,
    ensures
        ({
            let (text, close) = quoted_from(s, st.next + 1, Seq::empty())->0;
            &&& st.next < close < s.len()
            &&& filter_from(s, st) == filter_from(
                s,
                (FilterState {
                    next: close + 1,
                    out: st.out + "'"@ + quotes_doubled(text) + "'"@,
                    ..st
                }),
            )
            &&& literal_text(quotes_doubled(text)) == Some(text)
        }),
{
    let (text, close) = quoted_from(s, st.next + 1, Seq::empty())->0;
    escaped_text_reads_back(text);
    reveal_strlit("'");
    let base = st.out.push('\'');
    let none = Seq::<char>::empty();
    assert(quotes_doubled(none) =~= Seq::empty());
    assert(base =~= base + quotes_doubled(none));
    lemma_double_quoted_run(s, base, st.next + 1, none);
    assert((base + quotes_doubled(text)).push('\'') =~= st.out + "'"@ + quotes_doubled(text)
        + "'"@);
}

proof fn lemma_single_quoted_run(s: Seq<char>, st: FilterState, close: int)
    requires
        0 <= st.next <= close < s.len(),
        st.single && !st.double,
        s[close] == '\'',
        forall|k: int| st.next <= k < close ==> s[k] != '\'',
    ensures
        filter_from(s, st) == filter_from(
            s,
            (FilterState {
                next: close + 1,
                single: false,
                out: st.out + s.subrange(st.next, close + 1),
                ..st
            }),
        ),
    decreases close - st.next,
{
    let next = filter_step(s, st);
    if st.next < close {
        lemma_single_quoted_run(s, next, close);
        assert(next.out + s.subrange(next.next, close + 1) =~= st.out + s.subrange(
            st.next,
            close + 1,
        ));
    } else {
        assert(next.out =~= st.out + s.subrange(st.next, close + 1));
    }
}

/// Text in single quotes passes through as it is, quotes included.
pub proof fn single_quoted_text_passes_through(s: Seq<char>, st: FilterState, close: int)
    requires
        0 <= st.next < close < s.len(),
        !st.single && !st.double,
        s[st.next] == '\'',
        s[close] == '\'',
        forall|k: int| st.next < k < close ==> s[k] != '\'',
    ensures
        filter_from(s, st) == filter_from(
            s,
            (FilterState {
                next: close + 1,
                out: st.out + s.subrange(st.next, close + 1),
                ..st
            }),
        ),
{
    let next = filter_step(s, st);
    lemma_single_quoted_run(s, next, close);
    assert(next.out + s.subrange(next.next, close + 1) =~= st.out + s.subrange(
        st.next,
        close + 1,
    ));
}

/// A character that no sugar starts with.
pub open spec fn is_plain(c: char) -> bool {
    c != '\'' && c != '"' && c != '=' && c != '!' && c != '.'
}

/// Text without quotes, dots, `=` and `!` passes through as it is.
pub proof fn plain_text_passes_through(s: Seq<char>, st: FilterState, end: int)
    requires
        0 <= st.next <= end <= s.len(),
        !st.single && !st.double,
        forall|k: int| st.next <= k < end ==> is_plain(#[trigger] s[k]),
    ensures
        filter_from(s, st) == filter_from(
            s,
            (FilterState { next: end, out: st.out + s.subrange(st.next, end), ..st }),
        ),
    decreases end - st.next,
{
    if st.next < end {
        assert(is_plain(s[st.next]));
        let next = filter_step(s, st);
        plain_text_passes_through(s, next, end);
        assert(next.out + s.subrange(next.next, end) =~= st.out + s.subrange(st.next, end));
    } else {
        assert(st.out =~= st.out + s.subrange(st.next, end));
    }
}

/// Outside quotes `==` becomes `=` and `!=` becomes `<>`.
pub proof fn comparisons_become_sql(s: Seq<char>, st: FilterState)
    requires
        0 <= st.next,
        st.next + 1 < s.len(),
        !st.single && !st.double,
        s[st.next] == '=' || s[st.next] == '!',
        s[st.next + 1] == '=',
    ensures
        filter_from(s, st) == filter_from(
            s,
            (FilterState {
                next: st.next + 2,
                out: st.out + if s[st.next] == '=' {
                    "="@
                } else {
                    "<>"@
                },
                ..st
            }),
        ),
{
    reveal_strlit("=");
    reveal_strlit("<>");
    assert(st.out.push('=') =~= st.out + "="@);
    assert(st.out.push('<').push('>') =~= st.out + "<>"@);
}

/// An `=` that is no part of `==` or `!=` passes through, so that `>=`, `<=` and a
/// lone `=` stay, and so does a `!` without an `=` behind it.
pub proof fn other_comparisons_stay(s: Seq<char>, st: FilterState)
    requires
        0 <= st.next < s.len(),
        !st.single && !st.double,
        s[st.next] == '=' || s[st.next] == '!',
        st.next + 1 < s.len() ==> s[st.next + 1] != '=',
    ensures
        filter_from(s, st) == filter_from(
            s,
            (FilterState { next: st.next + 1, out: st.out.push(s[st.next]), ..st }),
        ),
{
}

/// A comparison by `>=` or `<=` stays as it is.
pub proof fn bounds_stay(s: Seq<char>, st: FilterState)
    requires
        0 <= st.next,
        st.next + 1 < s.len(),
        !st.single && !st.double,
        s[st.next] == '>' || s[st.next] == '<',
        s[st.next + 1] == '=',
        st.next + 2 < s.len() ==> s[st.next + 2] != '=',
    ensures
        filter_from(s, st) == filter_from(
            s,
            (FilterState {
                next: st.next + 2,
                out: st.out + s.subrange(st.next, st.next + 2),
                ..st
            }),
        ),
{
    let one = FilterState { next: st.next + 1, out: st.out.push(s[st.next]), ..st };
    assert(filter_step(s, st) == one);
    other_comparisons_stay(s, one);
    assert(one.out.push(s[one.next]) =~= st.out + s.subrange(st.next, st.next + 2));
}

/// A column path, wherever it starts outside quotes, becomes the SQL of the path.
pub proof fn paths_become_sql(s: Seq<char>, st: FilterState, end: int)
    requires
        0 <= st.next,
        st.next + 1 < end <= s.len(),
        !st.single && !st.double,
        s[st.next] == '.',
        is_letter(s[st.next + 1]) || s[st.next + 1] == '_',
        st.out.len() > 0 ==> !is_word(st.out.last()) && st.out.last() != ')' && st.out.last()
            != ']',
        path_end(s, st.next) == end,
        path_sql(s.subrange(st.next, end)) is Ok,
    ensures
        filter_from(s, st) == filter_from(
            s,
            (FilterState {
                next: end,
                out: st.out + path_sql(s.subrange(st.next, end))->Ok_0,
                ..st
            }),
        ),
{
}

/// A dot behind an operand, or before anything but a name, passes through.
pub proof fn other_dots_stay(s: Seq<char>, st: FilterState)
    requires
        0 <= st.next < s.len(),
        !st.single && !st.double,
        s[st.next] == '.',
        ({
            ||| st.out.len() > 0 && (is_word(st.out.last()) || st.out.last() == ')'
                || st.out.last() == ']')
            ||| st.next + 1 == s.len()
            ||| !is_letter(s[st.next + 1]) && s[st.next + 1] != '_'
        }),
    ensures
        filter_from(s, st) == filter_from(
            s,
            (FilterState { next: st.next + 1, out: st.out.push('.'), ..st }),
        ),
{
}

/// Inside double quotes every character stands for itself, but for quotes and
/// escapes, and also where the quotes never close.
pub proof fn text_in_double_quotes_is_kept(s: Seq<char>, st: FilterState)
    requires
        0 <= st.next < s.len(),
        !st.single && st.double,
        s[st.next] != '"',
    ensures
        ({
            let i = st.next;
            let escape = s[i] == '\\' && i + 1 < s.len() && (s[i + 1] == '"' || s[i + 1] == '\\');
            &&& s[i] == '\'' ==> filter_from(s, st) == filter_from(
                s,
                (FilterState { next: i + 1, out: st.out + "''"@, ..st }),
            )
            &&& escape ==> filter_from(s, st) == filter_from(
                s,
                (FilterState { next: i + 2, out: st.out.push(s[i + 1]), ..st }),
            )
            &&& s[i] != '\'' && !escape ==> filter_from(s, st) == filter_from(
                s,
                (FilterState { next: i + 1, out: st.out.push(s[i]), ..st }),
            )
        }),
{
    reveal_strlit("''");
    assert(st.out.push('\'').push('\'') =~= st.out + "''"@);
}

/// Inside single quotes every character stands for itself.
pub proof fn text_in_single_quotes_is_kept(s: Seq<char>, st: FilterState)
    requires
        0 <= st.next < s.len(),
        st.single && !st.double,
    ensures
        filter_from(s, st) == filter_from(
            s,
            (FilterState {
                next: st.next + 1,
                single: s[st.next] != '\'',
                out: st.out.push(s[st.next]),
                ..st
            }),
        ),
{
}

/// The translation of a filter starts at its first character, outside quotes, with
/// nothing written, and ends at its last one with what was written.
pub proof fn filters_are_read_from_end_to_end(s: Seq<char>, st: FilterState)
    ensures
        filter_sql(s) == filter_from(
            s,
            (FilterState { next: 0, single: false, double: false, out: ""@ }),
        ),
        st.next == s.len() ==> filter_from(s, st) == st.out,
{
    reveal_strlit("");
    assert(""@ =~= Seq::<char>::empty());
}

/// The text of a path goes on over names and dots, and ends before the first other
/// character.
pub proof fn paths_go_on_over_names(s: Seq<char>, i: int, end: int)
    requires
        0 <= i <= end <= s.len(),
        forall|k: int| i <= k < end ==> is_word(#[trigger] s[k]) || s[k] == '.',
    ensures
        path_end_from(s, i, 0) == path_end_from(s, end, 0),
        end < s.len() && !is_word(s[end]) && s[end] != '.' && s[end] != '[' ==> path_end_from(
            s,
            i,
            0,
        ) == end,
        end == s.len() ==> path_end_from(s, i, 0) == end,
    decreases end - i,
{
    if i < end {
        assert(is_word(s[i]) || s[i] == '.');
        assert(in_path(s[i], 0));
        paths_go_on_over_names(s, i + 1, end);
    }
}

/// The text of a path goes on over a subscript in brackets.
pub proof fn paths_go_on_over_subscripts(s: Seq<char>, open: int, close: int)
    requires
        0 <= open < close < s.len(),
        s[open] == '[',
        s[close] == ']',
        forall|k: int|
            open < k < close ==> is_word(#[trigger] s[k]) || s[k] == '.' || s[k] == '"' || s[k]
                == '\'' || s[k] == '-' || s[k] == ' ',
    ensures
        path_end_from(s, open, 0) == path_end_from(s, close + 1, 0),
{
    lemma_subscript_run(s, open + 1, close);
}

proof fn lemma_subscript_run(s: Seq<char>, i: int, close: int)
    requires
        0 <= i <= close < s.len(),
        s[close] == ']',
        forall|k: int|
            i <= k < close ==> is_word(#[trigger] s[k]) || s[k] == '.' || s[k] == '"' || s[k]
                == '\'' || s[k] == '-' || s[k] == ' ',
    ensures
        path_end_from(s, i, 1) == path_end_from(s, close + 1, 0),
    decreases close - i,
{
    if i < close {
        assert(is_word(s[i]) || s[i] == '.' || s[i] == '"' || s[i] == '\'' || s[i] == '-' || s[i]
            == ' ');
        lemma_subscript_run(s, i + 1, close);
    }
}

/// A filter by one comparison: the path as SQL, and the rest as it stands, for
/// every operator that is no sugar.
#[verifier::rlimit(50)]
pub proof fn comparison_filter_reads_as_written(name: Seq<char>, rest: Seq<char>)
    requires
        name.len() > 0,
        is_letter(name[0]) || name[0] == '_',
        forall|k: int| 0 <= k < name.len() ==> is_word(#[trigger] name[k]),
        path_sql("."@ + name) is Ok,
        rest.len() > 0,
        rest[0] == ' ',
        forall|k: int|
            0 <= k < rest.len() ==> #[trigger] rest[k] != '\'' && rest[k] != '"' && rest[k] != '.'
                && rest[k] != '!',
        forall|k: int| 0 < k < rest.len() && #[trigger] rest[k] == '=' ==> rest[k - 1] != '=',
    ensures
        filter_sql("."@ + name + rest) == path_sql("."@ + name)->Ok_0 + rest,
{
    reveal_strlit(".");
    let s = "."@ + name + rest;
    let n = name.len() as int + 1;
    assert forall|k: int| 1 <= k < n implies is_word(#[trigger] s[k]) || s[k] == '.' by {
        assert(s[k] == name[k - 1]);
    }
    assert(s[n] == rest[0]);
    paths_go_on_over_names(s, 1, n);
    assert(s.subrange(0, n) =~= "."@ + name);
    assert(s[1] == name[0]);
    paths_become_sql(s, filter_start(), n);
    let sql = path_sql("."@ + name)->Ok_0;
    assert(Seq::<char>::empty() + sql =~= sql);
    let st = FilterState { next: n, single: false, double: false, out: sql };
    assert(filter_sql(s) == filter_from(s, st));
    assert(s.skip(n) =~= rest);
    assert(sql =~= sql + rest.take(0));
    lemma_operators_stay(s, n, sql, rest, 0);
}

proof fn lemma_operators_stay(
    s: Seq<char>,
    n: int,
    sql: Seq<char>,
    rest: Seq<char>,
    i: int,
)
    requires
        0 <= n,
        n + rest.len() == s.len(),
        s.skip(n) == rest,
        0 <= i <= rest.len(),
        forall|k: int|
            0 <= k < rest.len() ==> #[trigger] rest[k] != '\'' && rest[k] != '"' && rest[k] != '.'
                && rest[k] != '!',
        forall|k: int| 0 < k < rest.len() && #[trigger] rest[k] == '=' ==> rest[k - 1] != '=',
    ensures
        filter_from(
            s,
            (FilterState { next: n + i, single: false, double: false, out: sql + rest.take(i) }),
        ) == sql + rest,
    decreases rest.len() - i,
{
    if i < rest.len() {
        let st = FilterState {
            next: n + i,
            single: false,
            double: false,
            out: sql + rest.take(i),
        };
        assert(s[n + i] == rest[i]);
        if i + 1 < rest.len() {
            assert(s[n + i + 1] == rest[i + 1]);
        }
        if s[n + i] == '=' {
            other_comparisons_stay(s, st);
        }
        assert(st.out.push(rest[i]) =~= sql + rest.take(i + 1));
        lemma_operators_stay(s, n, sql, rest, i + 1);
    } else {
        assert(rest.take(i) =~= rest);
    }
}

/// In a SQL expression a column path becomes the SQL of the path, and every other
/// character stays.
#[verifier::rlimit(50)]
pub proof fn expressions_change_in_their_paths_only(s: Seq<char>, st: FilterState, end: int)
    requires
        0 <= st.next < s.len(),
        !(st.single && st.double),
    ensures
        ({
            let i = st.next;
            let outside = !st.single && !st.double;
            let behind = st.out.len() > 0 && (is_word(st.out.last()) || st.out.last() == ')'
                || st.out.last() == ']' || st.out.last() == '"');
            let starts = outside && s[i] == '.' && i + 1 < s.len() && (is_letter(s[i + 1])
                || s[i + 1] == '_') && !behind;
            &&& starts && path_end(s, i) == end && path_sql(s.subrange(i, end)) is Ok
                ==> expression_from(s, st) == expression_from(
                s,
                (FilterState { next: end, out: st.out + path_sql(s.subrange(i, end))->Ok_0, ..st }),
            )
            &&& outside && !starts && s[i] != '\'' && s[i] != '"' ==> expression_from(s, st)
                == expression_from(
                s,
                (FilterState { next: i + 1, out: st.out.push(s[i]), ..st }),
            )
            &&& outside && s[i] == '\'' ==> expression_from(s, st) == expression_from(
                s,
                (FilterState { next: i + 1, single: true, out: st.out.push(s[i]), ..st }),
            )
            &&& outside && s[i] == '"' ==> expression_from(s, st) == expression_from(
                s,
                (FilterState { next: i + 1, double: true, out: st.out.push(s[i]), ..st }),
            )
            &&& st.single ==> expression_from(s, st) == expression_from(
                s,
                (FilterState {
                    next: i + 1,
                    single: s[i] != '\'',
                    out: st.out.push(s[i]),
                    ..st
                }),
            )
            &&& st.double && s[i] != '\\' ==> expression_from(s, st) == expression_from(
                s,
                (FilterState { next: i + 1, double: s[i] != '"', out: st.out.push(s[i]), ..st }),
            )
        }),
{
}

/// Quotes open where none are open, and close where the same ones are; double quotes
/// become single ones.
pub proof fn quotes_open_and_close(s: Seq<char>, st: FilterState)
    requires
        0 <= st.next < s.len(),
        !(st.single && st.double),
    ensures
        s[st.next] == '\'' && !st.double ==> filter_from(s, st) == filter_from(
            s,
            (FilterState {
                next: st.next + 1,
                single: !st.single,
                out: st.out.push('\''),
                ..st
            }),
        ),
        s[st.next] == '"' && !st.single ==> filter_from(s, st) == filter_from(
            s,
            (FilterState {
                next: st.next + 1,
                double: !st.double,
                out: st.out.push('\''),
                ..st
            }),
        ),
{
}

/// Of a dot before what is no path only the dot is left out.
pub proof fn bad_paths_lose_their_dot(s: Seq<char>, st: FilterState)
    requires
        0 <= st.next,
        st.next + 1 < s.len(),
        !st.single && !st.double,
        s[st.next] == '.',
        is_letter(s[st.next + 1]) || s[st.next + 1] == '_',
        st.out.len() > 0 ==> !is_word(st.out.last()) && st.out.last() != ')' && st.out.last()
            != ']',
        path_sql(s.subrange(st.next, path_end(s, st.next))) is Err,
    ensures
        filter_from(s, st) == filter_from(s, (FilterState { next: st.next + 1, ..st })),
{
}

} // verus!
