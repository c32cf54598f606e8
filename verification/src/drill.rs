//! From a row of a grouped result to the query for the rows behind it.
use vstd::prelude::*;

use crate::filter::{
    double_quoted_text_becomes_a_literal, filter_from, filter_sql, filter_start, filter_step,
    in_path, path_end, path_end_from,
};
use crate::lineage::{DerivedView, Lineage};
use crate::number::{decimal, decimal_reads_back};
use crate::path::path_sql;
use crate::sql::{literal_text, quotes_doubled};
use crate::stage::{pipe_stages, quoted_text_does_not_split, stages_from};
use crate::text::{
    all_space, cat2, cat3, cat4, cat5, chars_of, digit, is_digit, is_letter, is_space, is_word,
    join, joined, lemma_replace_char_in_parts, lemma_replace_one_char, quoted_from, replace,
    replaced, same, texts, trim, trim_start, trimmed, trimming_takes_the_space_around,
    white_space_is_blank,
};
use crate::unnest::{all_word, non_empty};

verus! {

/// A character of a number's text.
pub open spec fn is_number_char(c: char) -> bool {
    is_digit(c) || c == '.' || c == '-' || c == '+' || c == ',' || c == 'e' || c == 'E' || c == '_'
}

/// The text, trimmed, is made of digits and number punctuation, with at least
/// one digit.
pub open spec fn is_numeric(s: Seq<char>) -> bool {
    let t = trimmed(s);
    &&& forall|i: int| 0 <= i < t.len() ==> is_number_char(#[trigger] t[i])
    &&& exists|i: int| 0 <= i < t.len() && is_digit(#[trigger] t[i])
}

/// Does the text look like a number?
pub fn looks_numeric(s: &str) -> (r: bool)
    ensures
        r == is_numeric(s@),
{
    let t = trim(s);
    let cs = chars_of(t.as_str());
    let mut seen = false;
    let mut i: usize = 0;
    while i < cs.len()
        invariant
            i <= cs.len(),
            cs@ == trimmed(s@),
            forall|k: int| 0 <= k < i ==> is_number_char(#[trigger] trimmed(s@)[k]),
            seen == exists|k: int| 0 <= k < i && is_digit(#[trigger] trimmed(s@)[k]),
        decreases cs.len() - i,
    {
        let c = cs[i];
        assert(trimmed(s@)[i as int] == c);
        if digit(c) {
            assert(is_digit(trimmed(s@)[i as int]));
            seen = true;
        } else if !(c == '.' || c == '-' || c == '+' || c == ',' || c == 'e' || c == 'E' || c
            == '_') {
            assert(!is_number_char(trimmed(s@)[i as int]));
            return false;
        }
        i += 1;
    }
    seen
}

/// A text with its backslashes and double quotes behind backslashes.
pub open spec fn backslashed(s: Seq<char>) -> Seq<char> {
    replaced(replaced(s, "\\"@, "\\\\"@), "\""@, "\\\""@)
}

/// The filter that picks the rows where a column has a cell's value.
pub open spec fn cell_filter(header: Seq<char>, cell: Seq<char>) -> Seq<char> {
    let t = trimmed(cell);
    if t == "∅"@ || t.len() == 0 {
        "."@ + header + " IS NULL"@
    } else if t == "true"@ || t == "false"@ || is_numeric(t) {
        "."@ + header + " == "@ + t
    } else {
        "."@ + header + " == \""@ + backslashed(t) + "\""@
    }
}

/// Builds the filter that picks the rows where a column has a cell's value.
pub fn drill_clause(header: &str, cell: &str) -> (r: String)
    ensures
        r@ == cell_filter(header@, cell@),
{
    let t = trim(cell);
    let t = t.as_str();
    if same(t, "∅") || t.is_empty() {
        return cat3(".", header, " IS NULL");
    }
    if same(t, "true") || same(t, "false") || looks_numeric(t) {
        return cat4(".", header, " == ", t);
    }
    proof {
        reveal_strlit("\\");
        reveal_strlit("\"");
    }
    let escaped = replace(t, "\\", "\\\\");
    let escaped = replace(escaped.as_str(), "\"", "\\\"");
    cat5(".", header, " == \"", escaped.as_str(), "\"")
}

/// Some derived column has this name.
pub open spec fn is_derived(derived: Seq<DerivedView>, name: Seq<char>) -> bool {
    exists|i: int| 0 <= i < derived.len() && (#[trigger] derived[i]).alias == name
}

/// Is the name that of a derived column?
pub fn names_derived(lineage: &Lineage, name: &str) -> (r: bool)
    ensures
        r == is_derived(lineage@.derived, name@),
{
    let mut i: usize = 0;
    while i < lineage.derived.len()
        invariant
            i <= lineage.derived.len(),
            forall|k: int| 0 <= k < i ==> (#[trigger] lineage@.derived[k]).alias != name@,
        decreases lineage.derived.len() - i,
    {
        assert(lineage@.derived[i as int] == lineage.derived@[i as int]@);
        if same(lineage.derived[i].alias.as_str(), name) {
            return true;
        }
        i += 1;
    }
    false
}

/// The filters of the columns from `i` on that are not derived and have a cell.
pub open spec fn drill_clauses(
    headers: Seq<Seq<char>>,
    row: Seq<Seq<char>>,
    derived: Seq<DerivedView>,
    i: int,
) -> Seq<Seq<char>>
    decreases headers.len() - i,
{
    if i < 0 || i >= headers.len() {
        Seq::empty()
    } else if is_derived(derived, headers[i]) || i >= row.len() {
        drill_clauses(headers, row, derived, i + 1)
    } else {
        seq![cell_filter(headers[i], row[i])] + drill_clauses(headers, row, derived, i + 1)
    }
}

/// The query for the rows behind a row of a grouped result, none where no
/// column can be filtered on.
pub open spec fn drill_query(
    headers: Seq<Seq<char>>,
    row: Seq<Seq<char>>,
    derived: Seq<DerivedView>,
) -> Option<Seq<char>> {
    let clauses = drill_clauses(headers, row, derived, 0);
    if clauses.len() == 0 {
        None
    } else {
        Some("where "@ + joined(clauses, " and "@))
    }
}

/// Builds the query for the rows behind a row of a grouped result.
pub fn build_drill_query(headers: &Vec<String>, row: &Vec<String>, lineage: &Lineage) -> (r: Option<
    String,
>)
    ensures
        match r {
            Some(q) => drill_query(texts(headers@), texts(row@), lineage@.derived) == Some(q@),
            None => drill_query(texts(headers@), texts(row@), lineage@.derived) is None,
        },
{
    let ghost hs = texts(headers@);
    let ghost cells = texts(row@);
    let ghost derived = lineage@.derived;
    let mut clauses: Vec<String> = Vec::new();
    let mut i: usize = 0;
    assert(texts(clauses@) + drill_clauses(hs, cells, derived, 0) =~= drill_clauses(
        hs,
        cells,
        derived,
        0,
    ));
    while i < headers.len()
        invariant
            i <= headers.len(),
            hs == texts(headers@),
            cells == texts(row@),
            derived == lineage@.derived,
            texts(clauses@) + drill_clauses(hs, cells, derived, i as int) == drill_clauses(
                hs,
                cells,
                derived,
                0,
            ),
        decreases headers.len() - i,
    {
        assert(hs[i as int] == headers@[i as int]@);
        if !names_derived(lineage, headers[i].as_str()) && i < row.len() {
            assert(cells[i as int] == row@[i as int]@);
            let clause = drill_clause(headers[i].as_str(), row[i].as_str());
            proof {
                crate::text::lemma_texts_push(clauses@, clause);
                let rest = drill_clauses(hs, cells, derived, i + 1);
                assert(texts(clauses@) + (seq![clause@] + rest) =~= texts(clauses@).push(clause@)
                    + rest);
            }
            clauses.push(clause);
        }
        i += 1;
    }
    assert(texts(clauses@) + Seq::<Seq<char>>::empty() =~= texts(clauses@));
    assert(texts(clauses@).len() == clauses@.len());
    if clauses.len() == 0 {
        None
    } else {
        Some(cat2("where ", join(&clauses, " and ").as_str()))
    }
}

// ─── laws ───────────────────────────────────────────────────────────────────
/// One character as it stands behind backslashes.
spec fn escaped_char(c: char) -> Seq<char> {
    if c == '"' || c == '\\' {
        seq!['\\', c]
    } else {
        seq![c]
    }
}

proof fn lemma_backslashed_push(s: Seq<char>, c: char)
    ensures
        backslashed(s.push(c)) == backslashed(s) + escaped_char(c),
{
    reveal_strlit("\\");
    reveal_strlit("\\\\");
    reveal_strlit("\"");
    reveal_strlit("\\\"");
    assert("\\"@ =~= seq!['\\']);
    assert("\""@ =~= seq!['"']);
    let double: Seq<char> = "\\\\"@;
    let quote: Seq<char> = "\\\""@;
    assert(s.push(c) =~= s + seq![c]);
    lemma_replace_char_in_parts(s, seq![c], '\\', double);
    let first = replaced(s, "\\"@, double);
    lemma_replace_one_char(c, '\\', double);
    if c == '\\' {
        lemma_replace_char_in_parts(first, double, '"', quote);
        assert(double =~= seq!['\\'] + seq!['\\']);
        lemma_replace_char_in_parts(seq!['\\'], seq!['\\'], '"', quote);
        lemma_replace_one_char('\\', '"', quote);
        assert(seq!['\\'] + seq!['\\'] =~= escaped_char(c));
    } else {
        lemma_replace_char_in_parts(first, seq![c], '"', quote);
        lemma_replace_one_char(c, '"', quote);
        assert(quote =~= seq!['\\', '"']);
    }
}

proof fn lemma_backslashed_reads_back(
    whole: Seq<char>,
    i: int,
    t: Seq<char>,
    done: int,
    rest: Seq<char>,
)
    requires
        0 <= done <= t.len(),
        0 <= i <= whole.len(),
        whole.skip(i) == backslashed(t).skip(backslashed(t.take(done)).len() as int) + rest,
        rest.len() > 0,
        rest[0] == '"',
    ensures
        backslashed(t.take(done)).len() <= backslashed(t).len(),
        quoted_from(whole, i, t.take(done)) == Some((t, (whole.len() - rest.len()) as int)),
    decreases t.len() - done,
{
    lemma_backslashed_prefix(t, done);
    let tail = whole.skip(i);
    if done == t.len() {
        assert(t.take(done) =~= t);
        assert(backslashed(t).skip(backslashed(t).len() as int) =~= Seq::empty());
        assert(tail =~= rest);
        assert(whole[i] == tail[0]);
    } else {
        let c = t[done];
        let now = backslashed(t.take(done));
        let next = backslashed(t.take(done + 1));
        assert(t.take(done + 1) =~= t.take(done).push(c));
        lemma_backslashed_push(t.take(done), c);
        lemma_backslashed_prefix(t, done + 1);
        let at = now.len() as int;
        let n = next.len() - at;
        let shown = backslashed(t).take(next.len() as int);
        assert(tail.len() == whole.len() - i);
        assert(tail.len() == backslashed(t).len() - at + rest.len());
        assert(shown[at] == backslashed(t)[at]);
        assert(tail[0] == next[at]);
        assert(whole[i] == tail[0]);
        if n == 2 {
            assert(shown[at + 1] == backslashed(t)[at + 1]);
            assert(tail[1] == next[at + 1]);
            assert(whole[i + 1] == tail[1]);
        }
        assert(whole.skip(i + n) =~= tail.skip(n));
        assert(tail.skip(n) =~= backslashed(t).skip(next.len() as int) + rest);
        lemma_backslashed_reads_back(whole, i + n, t, done + 1, rest);
    }
}

proof fn lemma_backslashed_prefix(t: Seq<char>, n: int)
    requires
        0 <= n <= t.len(),
    ensures
        backslashed(t.take(n)).len() <= backslashed(t).len(),
        backslashed(t).take(backslashed(t.take(n)).len() as int) == backslashed(t.take(n)),
    decreases t.len() - n,
{
    if n == t.len() {
        assert(t.take(n) =~= t);
        assert(backslashed(t).take(backslashed(t).len() as int) =~= backslashed(t));
    } else {
        assert(t.take(n + 1) =~= t.take(n).push(t[n]));
        lemma_backslashed_push(t.take(n), t[n]);
        lemma_backslashed_prefix(t, n + 1);
        let now = backslashed(t.take(n));
        let next = backslashed(t.take(n + 1));
        assert(backslashed(t).take(now.len() as int) =~= backslashed(t).take(
            next.len() as int,
        ).take(now.len() as int));
        assert(next.take(now.len() as int) =~= now);
    }
}

proof fn lemma_path_end_agrees(a: Seq<char>, b: Seq<char>, i: int, depth: nat)
    requires
        0 <= i <= a.len(),
        a.len() <= b.len(),
        path_end_from(a, i, depth) < a.len(),
        forall|k: int| 0 <= k < a.len() ==> a[k] == b[k],
    ensures
        path_end_from(b, i, depth) == path_end_from(a, i, depth),
    decreases a.len() - i,
{
    if i < a.len() && in_path(a[i], depth) {
        if a[i] == '[' {
            lemma_path_end_agrees(a, b, i + 1, depth + 1);
        } else if a[i] == ']' {
            lemma_path_end_agrees(a, b, i + 1, (depth - 1) as nat);
        } else {
            lemma_path_end_agrees(a, b, i + 1, depth);
        }
    }
}

/// The header, with a dot before it, is a column path that a blank ends.
pub open spec fn is_path_header(header: Seq<char>) -> bool {
    &&& header.len() > 0
    &&& is_letter(header[0]) || header[0] == '_'
    &&& path_end("."@ + header + " "@, 0) == header.len() + 1
    &&& path_sql("."@ + header) is Ok
}

/// The cell is compared as a text.
pub open spec fn is_text_cell(cell: Seq<char>) -> bool {
    let t = trimmed(cell);
    t.len() > 0 && t != "∅"@ && t != "true"@ && t != "false"@ && !is_numeric(t)
}

/// The filter for a text cell compares the column with a SQL literal of the
/// cell's text, whatever quotes and backslashes the text holds.
#[verifier::rlimit(50)]
pub proof fn drill_clause_compares_with_the_cell(header: Seq<char>, cell: Seq<char>)
    requires
        is_path_header(header),
        is_text_cell(cell),
    ensures
        filter_sql(cell_filter(header, cell)) == path_sql("."@ + header)->Ok_0 + " = '"@
            + quotes_doubled(trimmed(cell)) + "'"@,
        literal_text(quotes_doubled(trimmed(cell))) == Some(trimmed(cell)),
{
    let t = trimmed(cell);
    let s = cell_filter(header, cell);
    let path = "."@ + header;
    let sql = path_sql(path)->Ok_0;
    let n = header.len() as int;
    reveal_strlit(".");
    reveal_strlit(" ");
    reveal_strlit(" == \"");
    reveal_strlit("\"");
    reveal_strlit(" = '");
    reveal_strlit("'");
    // the path
    let st = filter_start();
    assert(s[0] == '.' && s[1] == header[0]);
    lemma_path_end_agrees(path + " "@, s, 1, 0);
    assert(path_end(s, 0) == n + 1);
    assert(s.subrange(0, n + 1) =~= path);
    let st1 = filter_step(s, st);
    assert(st1.out =~= sql);
    // the comparison
    let mid = s.skip(n + 1);
    assert(mid =~= " == \""@ + backslashed(t) + "\""@);
    assert(s[n + 1] == mid[0] && s[n + 2] == mid[1] && s[n + 3] == mid[2] && s[n + 4] == mid[3]
        && s[n + 5] == mid[4]);
    let st2 = filter_step(s, st1);
    let st3 = filter_step(s, st2);
    let st4 = filter_step(s, st3);
    assert(filter_from(s, st) == filter_from(s, st1));
    assert(filter_from(s, st1) == filter_from(s, st2));
    assert(filter_from(s, st2) == filter_from(s, st3));
    assert(filter_from(s, st3) == filter_from(s, st4));
    assert(st4.next == n + 5);
    assert(st4.out =~= sql + " = "@) by {
        reveal_strlit(" = ");
    }
    // the text
    assert(t.take(0) =~= Seq::empty());
    assert(backslashed(t.take(0)) =~= Seq::empty());
    assert(s.skip(n + 6) =~= backslashed(t).skip(0) + "\""@);
    lemma_backslashed_reads_back(s, n + 6, t, 0, "\""@);
    double_quoted_text_becomes_a_literal(s, st4);
    reveal_strlit(" = ");
    assert(st4.out + "'"@ + quotes_doubled(t) + "'"@ =~= sql + " = '"@ + quotes_doubled(t)
        + "'"@);
}

proof fn lemma_plain_run(s: Seq<char>, i: int, end: int)
    requires
        0 <= i <= end <= s.len(),
        forall|k: int| i <= k < end ==> #[trigger] s[k] != '\'' && s[k] != '"' && s[k] != '|',
    ensures
        stages_from(s, 0, i, false, false) == stages_from(s, 0, end, false, false),
    decreases end - i,
{
    if i < end {
        lemma_plain_run(s, i + 1, end);
    }
}

/// The filter for a text cell is one stage of a query, also where the text holds
/// a `|` or a quote.
#[verifier::rlimit(50)]
pub proof fn drill_clause_is_one_stage(header: Seq<char>, cell: Seq<char>)
    requires
        all_word(header),
        is_text_cell(cell),
    ensures
        pipe_stages(cell_filter(header, cell)) == seq![cell_filter(header, cell)],
{
    let t = trimmed(cell);
    let s = cell_filter(header, cell);
    let n = header.len() as int;
    reveal_strlit(".");
    reveal_strlit(" == \"");
    reveal_strlit("\"");
    let mid = s.skip(n + 1);
    assert(mid =~= " == \""@ + backslashed(t) + "\""@);
    assert(s[n + 1] == mid[0] && s[n + 2] == mid[1] && s[n + 3] == mid[2] && s[n + 4] == mid[3]
        && s[n + 5] == mid[4]);
    assert forall|k: int| 0 <= k < n + 5 implies #[trigger] s[k] != '\'' && s[k] != '"' && s[k]
        != '|' by {
        if 0 < k <= n {
            assert(s[k] == header[k - 1]);
            assert(is_word(header[k - 1]));
        }
    }
    lemma_plain_run(s, 0, n + 5);
    assert(t.take(0) =~= Seq::empty());
    assert(backslashed(t.take(0)) =~= Seq::empty());
    assert(s.skip(n + 6) =~= backslashed(t).skip(0) + "\""@);
    lemma_backslashed_reads_back(s, n + 6, t, 0, "\""@);
    quoted_text_does_not_split(s, 0, n + 5, s.len() - 1);
    assert(s.skip(0) =~= s);
    assert(trim_start(s) == s);
    assert(trimmed(s) == s);
    let all = seq![s];
    assert(stages_from(s, 0, 0, false, false) == all);
    reveal_with_fuel(non_empty, 2);
    assert(all.drop_last() =~= Seq::empty());
    assert(non_empty(all) =~= all);
}

/// A missing cell asks for rows where the column is missing.
pub proof fn missing_cells_are_looked_for(header: Seq<char>, blank: Seq<char>)
    requires
        all_space(blank),
    ensures
        cell_filter(header, "∅"@) == "."@ + header + " IS NULL"@,
        cell_filter(header, blank) == "."@ + header + " IS NULL"@,
{
    reveal_strlit("∅");
    assert(trimmed("∅"@) == "∅"@);
    white_space_is_blank('x');
    trimming_takes_the_space_around(blank, seq!['x'], Seq::empty());
}

/// Truth values and numbers are compared as they are shown, without quotes.
#[verifier::rlimit(50)]
pub proof fn plain_cells_are_compared_as_shown(header: Seq<char>, n: nat, m: nat)
    ensures
        cell_filter(header, "true"@) == "."@ + header + " == true"@,
        cell_filter(header, "false"@) == "."@ + header + " == false"@,
        cell_filter(header, decimal(n)) == "."@ + header + " == "@ + decimal(n),
        cell_filter(header, "-"@ + decimal(n)) == "."@ + header + " == "@ + ("-"@ + decimal(n)),
        cell_filter(header, decimal(n) + "."@ + decimal(m)) == "."@ + header + " == "@ + (
        decimal(n) + "."@ + decimal(m)),
{
    reveal_strlit("true");
    reveal_strlit("false");
    reveal_strlit("∅");
    reveal_strlit(" == ");
    reveal_strlit(" == true");
    reveal_strlit(" == false");
    reveal_strlit("-");
    reveal_strlit(".");
    assert(trimmed("true"@) == "true"@);
    assert(trimmed("false"@) == "false"@);
    assert("true"@.len() != "∅"@.len() && "false"@.len() != "∅"@.len());
    assert("."@ + header + " == "@ + "true"@ =~= "."@ + header + " == true"@);
    assert("."@ + header + " == "@ + "false"@ =~= "."@ + header + " == false"@);
    decimal_reads_back(n);
    decimal_reads_back(m);
    let d = decimal(n);
    let e = decimal(m);
    lemma_number_text(d, 0);
    let neg = "-"@ + d;
    assert(neg[1] == d[0]);
    assert forall|k: int| 0 <= k < neg.len() implies is_number_char(#[trigger] neg[k]) by {
        if k > 0 {
            assert(neg[k] == d[k - 1]);
            assert(is_digit(d[k - 1]));
        }
    }
    assert(is_digit(d[0]));
    lemma_number_text(neg, 1);
    let point = d + "."@ + e;
    assert forall|k: int| 0 <= k < point.len() implies is_number_char(#[trigger] point[k]) by {
        if k < d.len() {
            assert(point[k] == d[k] && is_digit(d[k]));
        } else if k > d.len() {
            assert(point[k] == e[k - d.len() - 1] && is_digit(e[k - d.len() - 1]));
        }
    }
    assert(point[0] == d[0]);
    lemma_number_text(point, 0);
    lemma_number_cell(header, d);
    lemma_number_cell(header, neg);
    lemma_number_cell(header, point);
}

proof fn lemma_number_text(s: Seq<char>, at: int)
    requires
        0 <= at < s.len(),
        is_digit(s[at]),
        forall|k: int| 0 <= k < s.len() ==> is_number_char(#[trigger] s[k]),
    ensures
        is_numeric(s),
        trimmed(s) == s,
{
    assert(is_number_char(s[0]) && is_number_char(s[s.len() - 1]));
    assert(trimmed(s) == s);
    assert(is_digit(trimmed(s)[at]));
}

proof fn lemma_number_cell(header: Seq<char>, s: Seq<char>)
    requires
        is_numeric(s),
        trimmed(s) == s,
        s.len() > 0,
    ensures
        cell_filter(header, s) == "."@ + header + " == "@ + s,
{
    reveal_strlit("∅");
    assert(is_number_char(s[0]));
    assert("∅"@[0] == '∅');
}

/// A text with a letter in it, other than the sign of an exponent, is no number.
pub proof fn words_are_no_numbers(s: Seq<char>, k: int)
    requires
        s.len() > 0,
        !is_space(s[0]),
        !is_space(s[s.len() - 1]),
        0 <= k < s.len(),
        is_letter(s[k]),
        s[k] != 'e' && s[k] != 'E',
    ensures
        !is_numeric(s),
{
    assert(trimmed(s) == s);
    assert(!is_number_char(trimmed(s)[k]));
}

/// The clauses of a row, all of which have to hold.
pub open spec fn and_of(clauses: Seq<Seq<char>>) -> Seq<char>
    recommends
        clauses.len() > 0,
    decreases clauses.len(),
{
    if clauses.len() <= 1 {
        clauses[0]
    } else {
        and_of(clauses.drop_last()) + " and "@ + clauses.last()
    }
}

proof fn lemma_joined_is_and_of(clauses: Seq<Seq<char>>)
    requires
        clauses.len() > 0,
    ensures
        joined(clauses, " and "@) == and_of(clauses),
    decreases clauses.len(),
{
    if clauses.len() > 1 {
        lemma_joined_is_and_of(clauses.drop_last());
    }
}

/// A drill-down asks for the rows that agree with the row in all columns that are
/// not derived. Derived columns say nothing, and without others there is no query.
pub proof fn drill_downs_ask_for_all_groups(
    headers: Seq<Seq<char>>,
    row: Seq<Seq<char>>,
    derived: Seq<DerivedView>,
    i: int,
)
    requires
        headers.len() == row.len(),
        0 <= i < headers.len(),
    ensures
        drill_query(headers, row, derived) == (if drill_clauses(headers, row, derived, 0).len()
            == 0 {
            None
        } else {
            Some("where "@ + and_of(drill_clauses(headers, row, derived, 0)))
        }),
        (exists|k: int| 0 <= k < derived.len() && (#[trigger] derived[k]).alias == headers[i])
            ==> drill_clauses(headers, row, derived, i) == drill_clauses(
            headers,
            row,
            derived,
            i + 1,
        ),
        (forall|k: int| 0 <= k < derived.len() ==> (#[trigger] derived[k]).alias != headers[i])
            ==> drill_clauses(headers, row, derived, i) == seq![cell_filter(headers[i], row[i])]
            + drill_clauses(headers, row, derived, i + 1),
        drill_clauses(headers, row, derived, headers.len() as int).len() == 0,
{
    let clauses = drill_clauses(headers, row, derived, 0);
    if clauses.len() > 0 {
        lemma_joined_is_and_of(clauses);
    }
}

} // verus!
