//! The stages of a query.
//!
//! A query is a list of stages with `|` between them. Each stage adds to a plan:
//! `group_by`, `where`, `having`, the aggregates, `top`, `sort by`, `limit`, `distinct`, the
//! joins, `to_csv`, `to_json`, `select`, a bare projection or a bare filter.
use vstd::prelude::*;

use crate::filter::{expression_sql, filter_sql, rewrite_expression, rewrite_filter};
use crate::number::{
    decimal, decimal_reads_back, large_numbers_are_refused, parse_usize, parsed_unsigned,
};
use crate::path::{
    alias_for_path, function_alias, function_sql, is_name, is_tight, path_alias,
    path_alias_is_a_name, path_function_alias, path_sql, path_to_sql, rewrite_path_function,
};
use crate::plan::{
    aggregate_views, column_name, groups, join_keywords, order_views, plain_alias_names_the_column,
    Aggregate, AggregateView, Join, JoinKind, JoinView, LineFormat, PlanView, QueryPlan,
};
use crate::source::{source_clause, source_sql};
use crate::text::{
    after_prefix, all_trimmed, before_suffix, cat2, cat3, cat4, cat5, chars_of, contains_char,
    copy_of, ends_with, escape_at, escapes, find_from, first_separator_splits, has_prefix,
    has_suffix, has_text, is_digit, is_space, is_word, join, joined, lemma_find_from_range,
    lemma_pieces_hold_no, lemma_trimmed_contains, lower, lower_char, lowered, occurs_at,
    quoted_from, same, space, split_first, split_on, split_once, split_trimmed, stands_at,
    starts_with, strip_leading, strip_leading_text, strip_prefix, strip_trailing, substring, texts,
    trim, trim_end, trim_start, trimmed, trimming_takes_the_space_around, without_leading,
    without_leading_text, without_trailing,
};
use crate::unnest::{keep_non_empty, non_empty};

verus! {

// ─── splitting ──────────────────────────────────────────────────────────────
/// The trimmed stages of `s[start..]`, read from `i` on with the given quotes
/// open: the pieces between the `|` that stand outside quotes. A quote behind a
/// backslash does not end text in double quotes.
pub open spec fn stages_from(
    s: Seq<char>,
    start: int,
    i: int,
    single: bool,
    double: bool,
) -> Seq<Seq<char>>
    decreases s.len() - i,
{
    if i < 0 || i >= s.len() {
        seq![trimmed(s.skip(start))]
    } else if double && escape_at(s, i) {
        stages_from(s, start, i + 2, single, double)
    } else if s[i] == '\'' && !double {
        stages_from(s, start, i + 1, !single, double)
    } else if s[i] == '"' && !single {
        stages_from(s, start, i + 1, single, !double)
    } else if s[i] == '|' && !single && !double {
        seq![trimmed(s.subrange(start, i))] + stages_from(s, i + 1, i + 1, single, double)
    } else {
        stages_from(s, start, i + 1, single, double)
    }
}

/// The non-empty stages of a query, trimmed.
pub open spec fn pipe_stages(q: Seq<char>) -> Seq<Seq<char>> {
    non_empty(stages_from(q, 0, 0, false, false))
}

/// Splits a query at the `|` outside quotes.
pub fn split_pipe_stages(q: &str) -> (r: Vec<String>)
    ensures
        texts(r@) == pipe_stages(q@),
{
    let cs = chars_of(q);
    let mut out: Vec<String> = Vec::new();
    let mut start: usize = 0;
    let mut single = false;
    let mut double = false;
    let mut i: usize = 0;
    assert(texts(out@) + stages_from(q@, 0, 0, false, false) =~= stages_from(
        q@,
        0,
        0,
        false,
        false,
    ));
    while i < cs.len()
        invariant
            start <= i <= cs.len(),
            cs@ == q@,
            texts(out@) + stages_from(q@, start as int, i as int, single, double) == stages_from(
                q@,
                0,
                0,
                false,
                false,
            ),
        decreases cs.len() - i,
    {
        let c = cs[i];
        if double && escapes(&cs, i) {
            i += 1;
        } else if c == '\'' && !double {
            single = !single;
        } else if c == '"' && !single {
            double = !double;
        } else if c == '|' && !single && !double {
            let piece = trim(substring(&cs, start, i).as_str());
            proof {
                crate::text::lemma_texts_push(out@, piece);
                let rest = stages_from(q@, i + 1, i + 1, single, double);
                assert(texts(out@) + (seq![piece@] + rest) =~= texts(out@).push(piece@) + rest);
            }
            out.push(piece);
            start = i + 1;
        }
        i += 1;
    }
    let last = trim(substring(&cs, start, cs.len()).as_str());
    proof {
        crate::text::lemma_texts_push(out@, last);
        assert(texts(out@) + seq![last@] =~= texts(out@).push(last@));
    }
    out.push(last);
    keep_non_empty(&out)
}

// ─── small parts ────────────────────────────────────────────────────────────
/// The trimmed text after a keyword, in any case, that is followed by white space.
pub open spec fn after_keyword(s: Seq<char>, keyword: Seq<char>) -> Option<Seq<char>> {
    let n = keyword.len() as int;
    if has_prefix(lowered(s), lowered(keyword)) && n < s.len() && is_space(s[n]) {
        Some(trimmed(s.skip(n)))
    } else {
        None
    }
}

/// Splits off a keyword and the white space behind it. A keyword alone has
/// nothing to split off.
pub fn strip_keyword(s: &str, keyword: &str) -> (r: Option<String>)
    ensures
        match r {
            Some(rest) => after_keyword(s@, keyword@) == Some(rest@),
            None => after_keyword(s@, keyword@) is None,
        },
{
    if !starts_with(lower(s).as_str(), lower(keyword).as_str()) {
        return None;
    }
    let cs = chars_of(s);
    let n: usize = chars_of(keyword).len();
    if n < cs.len() && space(cs[n]) {
        Some(trim(substring(&cs, n, cs.len()).as_str()))
    } else {
        None
    }
}

/// The argument of a stage with the given keyword: what follows the keyword,
/// empty where it is all there is.
pub open spec fn keyword_rest(s: Seq<char>, keyword: Seq<char>) -> Option<Seq<char>> {
    if lowered(s) == lowered(keyword) {
        Some(Seq::empty())
    } else {
        after_keyword(s, keyword)
    }
}

/// Takes the argument of a stage with the given keyword.
pub fn take_keyword(s: &str, keyword: &str) -> (r: Option<String>)
    ensures
        match r {
            Some(rest) => keyword_rest(s@, keyword@) == Some(rest@),
            None => keyword_rest(s@, keyword@) is None,
        },
{
    if same(lower(s).as_str(), lower(keyword).as_str()) {
        let none = String::new();
        assert(none@ =~= Seq::empty());
        Some(none)
    } else {
        strip_keyword(s, keyword)
    }
}

/// The first of two keywords that applies.
pub open spec fn keyword_either(s: Seq<char>, a: Seq<char>, b: Seq<char>) -> Option<Seq<char>> {
    match keyword_rest(s, a) {
        Some(rest) => Some(rest),
        None => keyword_rest(s, b),
    }
}

fn take_either(s: &str, a: &str, b: &str) -> (r: Option<String>)
    ensures
        match r {
            Some(rest) => keyword_either(s@, a@, b@) == Some(rest@),
            None => keyword_either(s@, a@, b@) is None,
        },
{
    match take_keyword(s, a) {
        Some(rest) => Some(rest),
        None => take_keyword(s, b),
    }
}

/// A trimmed text without its leading dots.
pub open spec fn undotted(s: Seq<char>) -> Seq<char> {
    trimmed(without_leading(trimmed(s), '.'))
}

/// Removes the leading dots of a column.
pub fn strip_dot(s: &str) -> (r: String)
    ensures
        r@ == undotted(s@),
{
    trim(strip_leading(trim(s).as_str(), '.').as_str())
}

/// The SQL of a column: of the path that starts with a dot, or, where it is no
/// path, of the text without its dots.
pub open spec fn column_sql(s: Seq<char>) -> Seq<char> {
    if has_prefix(s, "."@) {
        match path_sql(s) {
            Ok(sql) => sql,
            Err(_) => undotted(s),
        }
    } else {
        undotted(s)
    }
}

fn column_to_sql(s: &str) -> (r: String)
    ensures
        r@ == column_sql(s@),
{
    if starts_with(s, ".") {
        match path_to_sql(s) {
            Ok(sql) => sql,
            Err(_) => strip_dot(s),
        }
    } else {
        strip_dot(s)
    }
}

/// A sort column and its direction, ascending where it is `true`.
pub open spec fn order_clause(s: Seq<char>, default_asc: bool) -> (Seq<char>, bool) {
    let s = trimmed(s);
    match before_suffix(lowered(s), " desc"@) {
        Some(head) => (column_sql(trimmed(s.take(head.len() as int))), false),
        None => match before_suffix(lowered(s), " asc"@) {
            Some(head) => (column_sql(trimmed(s.take(head.len() as int))), true),
            None => (column_sql(s), default_asc),
        },
    }
}

/// The text without its last `n` characters, trimmed.
fn trim_without_last(s: &str, n: usize) -> (r: String)
    requires
        n <= s@.len(),
    ensures
        r@ == trimmed(s@.take(s@.len() - n)),
{
    let cs = chars_of(s);
    let k: usize = cs.len() - n;
    assert(cs@.subrange(0, k as int) =~= s@.take(s@.len() - n));
    trim(substring(&cs, 0, k).as_str())
}

/// Reads a sort column with an optional direction.
pub fn parse_orderby_clause(s: &str, default_asc: bool) -> (r: (String, bool))
    ensures
        (r.0@, r.1) == order_clause(s@, default_asc),
{
    let s = trim(s);
    let low = lower(s.as_str());
    proof {
        reveal_strlit(" desc");
        reveal_strlit(" asc");
    }
    if ends_with(low.as_str(), " desc") {
        let col = trim_without_last(s.as_str(), 5);
        (column_to_sql(col.as_str()), false)
    } else if ends_with(low.as_str(), " asc") {
        let col = trim_without_last(s.as_str(), 4);
        (column_to_sql(col.as_str()), true)
    } else {
        (column_to_sql(s.as_str()), default_asc)
    }
}

/// The two sides of the first ` where ` of `s[i..]` that stands outside quotes
/// and has something behind it.
pub open spec fn inline_where_from(s: Seq<char>, i: int, single: bool, double: bool) -> Option<
    (Seq<char>, Seq<char>),
>
    decreases s.len() - i,
{
    if i < 0 || i >= s.len() {
        None
    } else if double && escape_at(s, i) {
        inline_where_from(s, i + 2, single, double)
    } else {
        let single = if s[i] == '\'' && !double {
            !single
        } else {
            single
        };
        let double = if s[i] == '"' && !single {
            !double
        } else {
            double
        };
        if !single && !double && occurs_at(lowered(s), " where "@, i) && trimmed(
            s.skip(i + 7),
        ).len() > 0 {
            Some((trimmed(s.take(i)), trimmed(s.skip(i + 7))))
        } else {
            inline_where_from(s, i + 1, single, double)
        }
    }
}

/// The two sides of an inline `where`.
pub open spec fn inline_where(s: Seq<char>) -> Option<(Seq<char>, Seq<char>)> {
    inline_where_from(s, 0, false, false)
}

/// Splits a stage at its inline `where`.
pub fn split_inline_where(s: &str) -> (r: Option<(String, String)>)
    ensures
        match r {
            Some((before, after)) => inline_where(s@) == Some((before@, after@)),
            None => inline_where(s@) is None,
        },
{
    let cs = chars_of(s);
    let low = chars_of(lower(s).as_str());
    let needle = chars_of(" where ");
    proof {
        reveal_strlit(" where ");
    }
    let mut single = false;
    let mut double = false;
    let mut i: usize = 0;
    while i < cs.len()
        invariant
            i <= cs.len(),
            cs@ == s@,
            low@ == lowered(s@),
            needle@ == " where "@,
            needle@.len() == 7,
            inline_where(s@) == inline_where_from(s@, i as int, single, double),
        decreases cs.len() - i,
    {
        let c = cs[i];
        if double && escapes(&cs, i) {
            i += 2;
            continue;
        }
        if c == '\'' && !double {
            single = !single;
        }
        if c == '"' && !single {
            double = !double;
        }
        if !single && !double && stands_at(&low, &needle, i) {
            let after = trim(substring(&cs, i + 7, cs.len()).as_str());
            if !after.as_str().is_empty() {
                let before = trim(substring(&cs, 0, i).as_str());
                assert(cs@.subrange(0, i as int) =~= s@.take(i as int));
                return Some((before, after));
            }
        }
        i += 1;
    }
    None
}

// ─── projections ────────────────────────────────────────────────────────────
/// The SQL of one item of a projection: all columns for `.*`, a path under its
/// alias, a path function under its alias, or an expression with its paths as
/// SQL.
pub open spec fn item_sql(c: Seq<char>) -> Result<Seq<char>, Seq<char>> {
    if c == ".*"@ {
        Ok("*"@)
    } else if has_prefix(c, "."@) {
        match path_sql(c) {
            Ok(sql) => match path_alias(c) {
                Some(alias) => Ok(sql + " AS "@ + alias),
                None => Ok(sql),
            },
            Err(why) => Err("invalid path '"@ + c + "': "@ + why),
        }
    } else {
        match function_sql(c) {
            Some(sql) => match function_alias(c) {
                Some(alias) => Ok(sql + " AS "@ + alias),
                None => Ok(sql),
            },
            None => Ok(expression_sql(c)),
        }
    }
}

fn item_to_sql(c: &str) -> (r: Result<String, String>)
    ensures
        match r {
            Ok(sql) => item_sql(c@) == Ok::<Seq<char>, Seq<char>>(sql@),
            Err(why) => item_sql(c@) == Err::<Seq<char>, Seq<char>>(why@),
        },
{
    if same(c, ".*") {
        return Ok(copy_of("*"));
    }
    if starts_with(c, ".") {
        match path_to_sql(c) {
            Ok(sql) => match alias_for_path(c) {
                Some(alias) => Ok(cat3(sql.as_str(), " AS ", alias.as_str())),
                None => Ok(sql),
            },
            Err(why) => Err(cat4("invalid path '", c, "': ", why.as_str())),
        }
    } else {
        match rewrite_path_function(c) {
            Some(sql) => match path_function_alias(c) {
                Some(alias) => Ok(cat3(sql.as_str(), " AS ", alias.as_str())),
                None => Ok(sql),
            },
            None => Ok(rewrite_expression(c)),
        }
    }
}

/// The pieces of `s[start..]`, read from `i` on with brackets `depth` deep and
/// the given quotes open: what stands between the commas outside brackets and
/// quotes.
pub open spec fn pieces_from(
    s: Seq<char>,
    start: int,
    i: int,
    depth: int,
    single: bool,
    double: bool,
) -> Seq<Seq<char>>
    decreases s.len() - i,
{
    if i < 0 || i >= s.len() {
        seq![s.skip(start)]
    } else if double && escape_at(s, i) {
        pieces_from(s, start, i + 2, depth, single, double)
    } else if s[i] == '\'' && !double {
        pieces_from(s, start, i + 1, depth, !single, double)
    } else if s[i] == '"' && !single {
        pieces_from(s, start, i + 1, depth, single, !double)
    } else if single || double {
        pieces_from(s, start, i + 1, depth, single, double)
    } else if opens_bracket(s[i]) {
        pieces_from(s, start, i + 1, depth + 1, single, double)
    } else if closes_bracket(s[i]) && depth > 0 {
        pieces_from(s, start, i + 1, depth - 1, single, double)
    } else if s[i] == ',' && depth == 0 {
        seq![s.subrange(start, i)] + pieces_from(s, i + 1, i + 1, depth, single, double)
    } else {
        pieces_from(s, start, i + 1, depth, single, double)
    }
}

/// The character opens a bracket.
pub open spec fn opens_bracket(c: char) -> bool {
    c == '(' || c == '[' || c == '{'
}

/// The character closes a bracket.
pub open spec fn closes_bracket(c: char) -> bool {
    c == ')' || c == ']' || c == '}'
}

/// The pieces of a list: what stands between its commas.
pub open spec fn list_pieces(s: Seq<char>) -> Seq<Seq<char>> {
    pieces_from(s, 0, 0, 0, false, false)
}

/// Splits a list at the commas outside brackets and quotes.
pub fn split_list(s: &str) -> (r: Vec<String>)
    ensures
        texts(r@) == list_pieces(s@),
{
    let cs = chars_of(s);
    let mut out: Vec<String> = Vec::new();
    let mut start: usize = 0;
    let mut depth: usize = 0;
    let mut single = false;
    let mut double = false;
    let mut i: usize = 0;
    assert(texts(out@) + list_pieces(s@) =~= list_pieces(s@));
    while i < cs.len()
        invariant
            start <= i <= cs.len(),
            depth <= i,
            cs@ == s@,
            texts(out@) + pieces_from(s@, start as int, i as int, depth as int, single, double)
                == list_pieces(s@),
        decreases cs.len() - i,
    {
        let c = cs[i];
        if double && escapes(&cs, i) {
            i += 1;
        } else if c == '\'' && !double {
            single = !single;
        } else if c == '"' && !single {
            double = !double;
        } else if single || double {
        } else if c == '(' || c == '[' || c == '{' {
            depth += 1;
        } else if (c == ')' || c == ']' || c == '}') && depth > 0 {
            depth -= 1;
        } else if c == ',' && depth == 0 {
            let piece = substring(&cs, start, i);
            proof {
                crate::text::lemma_texts_push(out@, piece);
                let rest = pieces_from(s@, i + 1, i + 1, 0, single, double);
                assert(texts(out@) + (seq![piece@] + rest) =~= texts(out@).push(piece@) + rest);
            }
            out.push(piece);
            start = i + 1;
        }
        i += 1;
    }
    let last = substring(&cs, start, cs.len());
    proof {
        crate::text::lemma_texts_push(out@, last);
        assert(last@ =~= s@.skip(start as int));
        assert(texts(out@) + seq![last@] =~= texts(out@).push(last@));
    }
    out.push(last);
    out
}

/// The SQL of the items `pieces[i..]`, after the items `acc`. Empty pieces are
/// left out, and the first bad one decides.
pub open spec fn items_from(pieces: Seq<Seq<char>>, i: int, acc: Seq<Seq<char>>) -> Result<
    Seq<Seq<char>>,
    Seq<char>,
>
    decreases pieces.len() - i,
{
    if i < 0 || i >= pieces.len() {
        Ok(acc)
    } else if trimmed(pieces[i]).len() == 0 {
        items_from(pieces, i + 1, acc)
    } else {
        match item_sql(trimmed(pieces[i])) {
            Ok(sql) => items_from(pieces, i + 1, acc.push(sql)),
            Err(why) => Err(why),
        }
    }
}

/// A projection without the word `select`.
pub open spec fn projection_body(input: Seq<char>) -> Seq<char> {
    trimmed(without_leading_text(without_leading_text(trimmed(input), "select "@), "SELECT "@))
}

/// The SQL of the items of a projection.
pub open spec fn projection_items(input: Seq<char>) -> Result<Seq<Seq<char>>, Seq<char>> {
    let body = projection_body(input);
    if body.len() == 0 {
        Err("empty projection"@)
    } else {
        match items_from(list_pieces(body), 0, Seq::empty()) {
            Ok(items) => if items.len() == 0 {
                Err("could not parse projection: "@ + input)
            } else {
                Ok(items)
            },
            Err(why) => Err(why),
        }
    }
}

/// The SQL of a projection: its items with commas between them.
pub open spec fn projection_sql(input: Seq<char>) -> Result<Seq<char>, Seq<char>> {
    match projection_items(input) {
        Ok(items) => Ok(joined(items, ", "@)),
        Err(why) => Err(why),
    }
}

/// Translates the items of a projection to SQL.
pub fn parse_items(input: &str) -> (r: Result<Vec<String>, String>)
    ensures
        match r {
            Ok(items) => projection_items(input@) == Ok::<Seq<Seq<char>>, Seq<char>>(
                texts(items@),
            ),
            Err(why) => projection_items(input@) == Err::<Seq<Seq<char>>, Seq<char>>(why@),
        },
{
    proof {
        reveal_strlit("select ");
        reveal_strlit("SELECT ");
    }
    let s = trim(input);
    let s = strip_leading_text(s.as_str(), "select ");
    let s = strip_leading_text(s.as_str(), "SELECT ");
    let s = trim(s.as_str());
    if s.as_str().is_empty() {
        return Err(copy_of("empty projection"));
    }
    let pieces = split_list(s.as_str());
    let ghost views = texts(pieces@);
    let mut items: Vec<String> = Vec::new();
    let mut i: usize = 0;
    assert(texts(items@) =~= Seq::empty());
    while i < pieces.len()
        invariant
            i <= pieces.len(),
            views == texts(pieces@),
            views == list_pieces(projection_body(input@)),
            projection_body(input@).len() > 0,
            items_from(views, 0, Seq::empty()) == items_from(views, i as int, texts(items@)),
        decreases pieces.len() - i,
    {
        assert(views[i as int] == pieces@[i as int]@);
        let c = trim(pieces[i].as_str());
        if !c.as_str().is_empty() {
            match item_to_sql(c.as_str()) {
                Ok(sql) => {
                    proof {
                        crate::text::lemma_texts_push(items@, sql);
                    }
                    items.push(sql);
                },
                Err(why) => {
                    return Err(why);
                },
            }
        }
        i += 1;
    }
    assert(texts(items@).len() == items@.len());
    if items.len() == 0 {
        return Err(cat2("could not parse projection: ", input));
    }
    Ok(items)
}

/// Translates a projection to SQL.
pub fn parse_projection(input: &str) -> (r: Result<String, String>)
    ensures
        match r {
            Ok(sql) => projection_sql(input@) == Ok::<Seq<char>, Seq<char>>(sql@),
            Err(why) => projection_sql(input@) == Err::<Seq<char>, Seq<char>>(why@),
        },
{
    match parse_items(input) {
        Ok(items) => Ok(join(&items, ", ")),
        Err(why) => Err(why),
    }
}

// ─── stages ─────────────────────────────────────────────────────────────────
/// The plan with one more filter: on groups where the plan has groups, on rows
/// where it has none.
pub open spec fn with_filter(plan: PlanView, filter: Seq<char>) -> PlanView {
    if groups(plan) {
        PlanView { havings: plan.havings.push(filter), ..plan }
    } else {
        PlanView { filters: plan.filters.push(filter), ..plan }
    }
}

/// The plan with the columns of a projection added to its SELECT list.
pub open spec fn with_projection(plan: PlanView, input: Seq<char>) -> Result<PlanView, Seq<char>> {
    match projection_items(input) {
        Ok(items) => Ok(PlanView { projections: plan.projections + items, ..plan }),
        Err(why) => Err(why),
    }
}

/// The plan with the columns of a projection added to its grouping.
pub open spec fn with_grouping(plan: PlanView, input: Seq<char>) -> Result<PlanView, Seq<char>> {
    match projection_items(input) {
        Ok(items) => Ok(PlanView { group_by: plan.group_by + items, ..plan }),
        Err(why) => Err(why),
    }
}

/// An aggregate keyword at the start of a stage, and what follows it.
pub open spec fn aggregate_stage(s: Seq<char>) -> Option<(Seq<char>, Seq<char>)> {
    if keyword_rest(s, "count_distinct"@) is Some {
        Some(("count_distinct"@, keyword_rest(s, "count_distinct"@)->0))
    } else if keyword_rest(s, "sum"@) is Some {
        Some(("sum"@, keyword_rest(s, "sum"@)->0))
    } else if keyword_rest(s, "avg"@) is Some {
        Some(("avg"@, keyword_rest(s, "avg"@)->0))
    } else if keyword_rest(s, "min"@) is Some {
        Some(("min"@, keyword_rest(s, "min"@)->0))
    } else if keyword_rest(s, "max"@) is Some {
        Some(("max"@, keyword_rest(s, "max"@)->0))
    } else {
        None
    }
}

/// The aggregate that a keyword names.
pub open spec fn aggregate_of(keyword: Seq<char>, col: Seq<char>) -> AggregateView {
    if keyword == "count_distinct"@ {
        AggregateView::CountDistinct(col)
    } else if keyword == "sum"@ {
        AggregateView::Sum(col)
    } else if keyword == "avg"@ {
        AggregateView::Avg(col)
    } else if keyword == "min"@ {
        AggregateView::Min(col)
    } else {
        AggregateView::Max(col)
    }
}

/// The word stands for a count of rows.
pub open spec fn is_count(s: Seq<char>) -> bool {
    lowered(s) == "count"@ || lowered(s) == "count(*)"@
}

/// The text is an aggregate: a count of rows, or a keyword with its column.
pub open spec fn is_aggregate_item(s: Seq<char>) -> bool {
    is_count(s) || aggregate_stage(s) is Some
}

/// The aggregate that a text means, or the complaint that its column is missing.
pub open spec fn aggregate_item(s: Seq<char>) -> Result<AggregateView, Seq<char>> {
    if is_count(s) {
        Ok(AggregateView::Count)
    } else {
        let (keyword, rest) = aggregate_stage(s)->0;
        let raw = trimmed(rest);
        if raw.len() == 0 {
            Err("`"@ + keyword + "` requires a column (e.g. `"@ + keyword + " .revenue`)"@)
        } else {
            Ok(aggregate_of(keyword, column_sql(raw)))
        }
    }
}

/// The aggregates `acc`, followed by those of `items[i..]`. The first complaint
/// decides.
pub open spec fn aggregate_items(
    items: Seq<Seq<char>>,
    i: int,
    acc: Seq<AggregateView>,
) -> Result<Seq<AggregateView>, Seq<char>>
    decreases items.len() - i,
{
    if i < 0 || i >= items.len() {
        Ok(acc)
    } else {
        match aggregate_item(items[i]) {
            Ok(a) => aggregate_items(items, i + 1, acc.push(a)),
            Err(why) => Err(why),
        }
    }
}

/// The items of a stage that is a list of aggregates with commas between them.
pub open spec fn aggregate_list(s: Seq<char>) -> Option<Seq<Seq<char>>> {
    let items = all_trimmed(split_on(s, ","@));
    if items.len() > 1 && (forall|i: int|
        0 <= i < items.len() ==> is_aggregate_item(#[trigger] items[i])) {
        Some(items)
    } else {
        None
    }
}

/// The items of a stage of aggregates: a list, or one alone.
pub open spec fn aggregates_of_stage(s: Seq<char>) -> Option<Seq<Seq<char>>> {
    match aggregate_list(s) {
        Some(items) => Some(items),
        None => if is_aggregate_item(s) {
            Some(seq![s])
        } else {
            None
        },
    }
}

/// The plan with more aggregates.
pub open spec fn with_aggregates(plan: PlanView, items: Seq<Seq<char>>) -> Result<
    PlanView,
    Seq<char>,
> {
    match aggregate_items(items, 0, Seq::empty()) {
        Ok(more) => Ok(PlanView { aggregates: plan.aggregates + more, ..plan }),
        Err(why) => Err(why),
    }
}

/// The plan cut to the first rows of an order: `N by COL [asc|desc]`.
pub open spec fn with_top(plan: PlanView, rest: Seq<char>) -> Result<PlanView, Seq<char>> {
    match split_first(rest, " by "@) {
        Some((n, by)) => match parsed_unsigned(trimmed(n), usize::MAX as int) {
            Some(limit) => Ok(
                PlanView {
                    order_by: plan.order_by.push(order_clause(by, false)),
                    limit: Some(limit),
                    ..plan
                },
            ),
            None => Err("`top` needs an integer, got `"@ + trimmed(n) + "`"@),
        },
        None => Err("`top` needs `by COL`: `top N by .col`"@),
    }
}

/// The number in the argument of `limit` or `head`, also in the forms `-n 5`
/// and `-5`.
pub open spec fn limit_text(arg: Seq<char>) -> Seq<char> {
    match after_prefix(arg, "-n"@) {
        Some(rest) => trimmed(rest),
        None => match after_prefix(arg, "-"@) {
            Some(rest) => trimmed(rest),
            None => trimmed(arg),
        },
    }
}

/// The plan cut to a number of rows.
pub open spec fn with_limit(plan: PlanView, rest: Seq<char>) -> Result<PlanView, Seq<char>> {
    let arg = trimmed(rest);
    match parsed_unsigned(limit_text(arg), usize::MAX as int) {
        Some(n) => Ok(PlanView { limit: Some(n), ..plan }),
        None => Err(
            "`limit/head` needs a non-negative integer (e.g. `head 5` or `limit 5`), got `"@ + arg
                + "`"@,
        ),
    }
}

/// A join keyword at the start of a stage, and what follows it.
pub open spec fn join_stage(s: Seq<char>) -> Option<(JoinKind, Seq<char>)> {
    if keyword_either(s, "left_join"@, "left join"@) is Some {
        Some((JoinKind::Left, keyword_either(s, "left_join"@, "left join"@)->0))
    } else if keyword_either(s, "right_join"@, "right join"@) is Some {
        Some((JoinKind::Right, keyword_either(s, "right_join"@, "right join"@)->0))
    } else if keyword_either(s, "full_join"@, "full join"@) is Some {
        Some((JoinKind::Full, keyword_either(s, "full_join"@, "full join"@)->0))
    } else if keyword_either(s, "outer_join"@, "outer join"@) is Some {
        Some((JoinKind::Full, keyword_either(s, "outer_join"@, "outer join"@)->0))
    } else if keyword_either(s, "inner_join"@, "inner join"@) is Some {
        Some((JoinKind::Inner, keyword_either(s, "inner_join"@, "inner join"@)->0))
    } else if keyword_rest(s, "join"@) is Some {
        Some((JoinKind::Inner, keyword_rest(s, "join"@)->0))
    } else {
        None
    }
}

/// A trimmed file name without the quotes round it.
pub open spec fn unquoted(s: Seq<char>) -> Seq<char> {
    let s = without_trailing(without_leading(trimmed(s), '"'), '"');
    trimmed(without_trailing(without_leading(s, '\''), '\''))
}

/// The condition of a join: an expression with `=`, or a column that both sides
/// have.
pub open spec fn join_condition(on: Seq<char>) -> Result<Seq<char>, Seq<char>> {
    if on.contains('=') {
        let expr = trimmed(filter_sql(on));
        if expr.len() == 0 {
            Err("`join on` clause is empty"@)
        } else {
            Ok(expr)
        }
    } else {
        let col = undotted(on);
        if col.len() == 0 {
            Err("`join` needs a column name after `on`"@)
        } else {
            Ok("a."@ + col + " = b."@ + col)
        }
    }
}

/// The plan joined with a second source. A plan has at most one join.
pub open spec fn with_join(plan: PlanView, kind: JoinKind, rest: Seq<char>) -> Result<
    PlanView,
    Seq<char>,
> {
    if plan.join is Some {
        Err(
            "multiple joins are not supported yet; fall back to raw SQL via SELECT/WITH for chained joins"@,
        )
    } else {
        match split_first(rest, " on "@) {
            Some((file, on)) => {
                let file = unquoted(file);
                if file.len() == 0 {
                    Err("`join` needs a quoted file path"@)
                } else {
                    match join_condition(on) {
                        Ok(on_expr) => Ok(
                            PlanView {
                                join: Some(
                                    JoinView { kind, right_source: source_sql(file), on_expr },
                                ),
                                ..plan
                            },
                        ),
                        Err(why) => Err(why),
                    }
                }
            },
            None => Err(
                "`"@ + join_keywords(kind) + " ...` needs `on .col`: `"@ + join_keywords(kind)
                    + " \"file.parquet\" on .user_id`"@,
            ),
        }
    }
}

/// A stage of columns: it starts with a dot or is a call of a path function,
/// with or without an inline `where`.
pub open spec fn is_projection(s: Seq<char>) -> bool {
    ||| has_prefix(s, "."@)
    ||| function_sql(s) is Some
    ||| inline_where(s) is Some && function_sql((inline_where(s)->0).0) is Some
}

/// The plan with the columns of a projection and its inline filter.
pub open spec fn with_bare_projection(plan: PlanView, s: Seq<char>) -> Result<
    PlanView,
    Seq<char>,
> {
    match inline_where(s) {
        Some((columns, filter)) => match with_projection(plan, columns) {
            Ok(plan) => Ok(with_filter(plan, filter_sql(filter))),
            Err(why) => Err(why),
        },
        None => with_projection(plan, s),
    }
}

/// What a stage makes of a plan, or the complaint about the stage.
pub open spec fn stage_effect(stage: Seq<char>, plan: PlanView) -> Result<PlanView, Seq<char>> {
    let s = trimmed(stage);
    let low = lowered(s);
    if s.len() == 0 {
        Err("empty stage"@)
    } else if keyword_either(s, "group_by"@, "group by"@) is Some {
        with_grouping(plan, keyword_either(s, "group_by"@, "group by"@)->0)
    } else if keyword_rest(s, "where"@) is Some {
        Ok(with_filter(plan, filter_sql(keyword_rest(s, "where"@)->0)))
    } else if keyword_rest(s, "having"@) is Some {
        let filter = filter_sql(keyword_rest(s, "having"@)->0);
        Ok(PlanView { havings: plan.havings.push(filter), ..plan })
    } else if aggregates_of_stage(s) is Some {
        with_aggregates(plan, aggregates_of_stage(s)->0)
    } else if keyword_rest(s, "top"@) is Some {
        with_top(plan, keyword_rest(s, "top"@)->0)
    } else if keyword_either(s, "sort by"@, "order by"@) is Some {
        let item = order_clause(keyword_either(s, "sort by"@, "order by"@)->0, true);
        Ok(PlanView { order_by: plan.order_by.push(item), ..plan })
    } else if keyword_either(s, "limit"@, "head"@) is Some {
        with_limit(plan, keyword_either(s, "limit"@, "head"@)->0)
    } else if low == "distinct"@ {
        Ok(PlanView { distinct: true, ..plan })
    } else if join_stage(s) is Some {
        with_join(plan, (join_stage(s)->0).0, (join_stage(s)->0).1)
    } else if low == "to_csv"@ || low == "tocsv"@ {
        Ok(PlanView { line_format: Some(LineFormat::Csv), ..plan })
    } else if low == "to_json"@ || low == "tojson"@ || low == "to_ndjson"@ || low == "to_jsonl"@ {
        Ok(PlanView { line_format: Some(LineFormat::Json), ..plan })
    } else if keyword_rest(s, "select"@) is Some {
        with_bare_projection(plan, keyword_rest(s, "select"@)->0)
    } else if is_projection(s) {
        with_bare_projection(plan, s)
    } else {
        Ok(with_filter(plan, filter_sql(s)))
    }
}

/// The outcome of a change to a plan: done as `effect` says, or refused with the
/// plan as it was.
pub open spec fn outcome(
    effect: Result<PlanView, Seq<char>>,
    before: PlanView,
    after: PlanView,
    r: Result<(), String>,
) -> bool {
    match effect {
        Ok(plan) => r is Ok && after == plan,
        Err(why) => r is Err && r->Err_0@ == why && after == before,
    }
}

fn extend_list(list: &mut Vec<String>, items: Vec<String>)
    ensures
        texts(final(list)@) == texts(old(list)@) + texts(items@),
{
    let mut items = items;
    let ghost more = items@;
    list.append(&mut items);
    assert(texts(list@) =~= texts(old(list)@) + texts(more));
}

fn add_filter(plan: &mut QueryPlan, filter: String)
    ensures
        final(plan)@ == with_filter(old(plan)@, filter@),
{
    if plan.has_grouping() {
        proof {
            crate::text::lemma_texts_push(plan.havings@, filter);
        }
        plan.havings.push(filter);
    } else {
        proof {
            crate::text::lemma_texts_push(plan.filters@, filter);
        }
        plan.filters.push(filter);
    }
    assert(plan@ =~= with_filter(old(plan)@, filter@));
}

fn add_projection(plan: &mut QueryPlan, input: &str) -> (r: Result<(), String>)
    ensures
        outcome(with_projection(old(plan)@, input@), old(plan)@, final(plan)@, r),
{
    match parse_items(input) {
        Ok(items) => {
            extend_list(&mut plan.projections, items);
            Ok(())
        },
        Err(why) => Err(why),
    }
}

fn add_grouping(plan: &mut QueryPlan, input: &str) -> (r: Result<(), String>)
    ensures
        outcome(with_grouping(old(plan)@, input@), old(plan)@, final(plan)@, r),
{
    match parse_items(input) {
        Ok(items) => {
            extend_list(&mut plan.group_by, items);
            Ok(())
        },
        Err(why) => Err(why),
    }
}

fn push_order(plan: &mut QueryPlan, item: (String, bool))
    ensures
        final(plan)@ == (PlanView {
            order_by: old(plan)@.order_by.push((item.0@, item.1)),
            ..old(plan)@
        }),
{
    let ghost before = plan.order_by@;
    plan.order_by.push(item);
    assert(order_views(before.push(item)) =~= order_views(before).push((item.0@, item.1)));
}

fn find_aggregate(s: &str) -> (r: Option<(&'static str, String)>)
    ensures
        match r {
            Some((keyword, rest)) => aggregate_stage(s@) == Some((keyword@, rest@)),
            None => aggregate_stage(s@) is None,
        },
{
    if let Some(rest) = take_keyword(s, "count_distinct") {
        return Some(("count_distinct", rest));
    }
    if let Some(rest) = take_keyword(s, "sum") {
        return Some(("sum", rest));
    }
    if let Some(rest) = take_keyword(s, "avg") {
        return Some(("avg", rest));
    }
    if let Some(rest) = take_keyword(s, "min") {
        return Some(("min", rest));
    }
    if let Some(rest) = take_keyword(s, "max") {
        return Some(("max", rest));
    }
    None
}

fn aggregate_item_of(s: &str) -> (r: Result<Aggregate, String>)
    requires
        is_aggregate_item(s@),
    ensures
        match r {
            Ok(a) => aggregate_item(s@) == Ok::<AggregateView, Seq<char>>(a@),
            Err(why) => aggregate_item(s@) == Err::<AggregateView, Seq<char>>(why@),
        },
{
    if counts_rows(s) {
        return Ok(Aggregate::Count);
    }
    if let Some((keyword, rest)) = find_aggregate(s) {
        let raw = trim(rest.as_str());
        if raw.as_str().is_empty() {
            return Err(
                cat5("`", keyword, "` requires a column (e.g. `", keyword, " .revenue`)"),
            );
        }
        let col = column_to_sql(raw.as_str());
        return Ok(
            if same(keyword, "count_distinct") {
                Aggregate::CountDistinct(col)
            } else if same(keyword, "sum") {
                Aggregate::Sum(col)
            } else if same(keyword, "avg") {
                Aggregate::Avg(col)
            } else if same(keyword, "min") {
                Aggregate::Min(col)
            } else {
                Aggregate::Max(col)
            },
        );
    }
    Ok(Aggregate::Count)
}

fn counts_rows(s: &str) -> (r: bool)
    ensures
        r == is_count(s@),
{
    let low = lower(s);
    same(low.as_str(), "count") || same(low.as_str(), "count(*)")
}

fn is_aggregate_text(s: &str) -> (r: bool)
    ensures
        r == is_aggregate_item(s@),
{
    counts_rows(s) || find_aggregate(s).is_some()
}

fn find_aggregate_list(s: &str) -> (r: Option<Vec<String>>)
    ensures
        match r {
            Some(items) => aggregate_list(s@) == Some(texts(items@)),
            None => aggregate_list(s@) is None,
        },
{
    proof {
        reveal_strlit(",");
    }
    let items = split_trimmed(s, ",");
    let ghost views = texts(items@);
    assert(views.len() == items@.len());
    if items.len() < 2 {
        return None;
    }
    let mut i: usize = 0;
    while i < items.len()
        invariant
            i <= items.len(),
            views == texts(items@),
            views == all_trimmed(split_on(s@, ","@)),
            forall|k: int| 0 <= k < i ==> is_aggregate_item(#[trigger] views[k]),
        decreases items.len() - i,
    {
        assert(views[i as int] == items@[i as int]@);
        if !is_aggregate_text(items[i].as_str()) {
            return None;
        }
        i += 1;
    }
    Some(items)
}

fn find_aggregates(s: &str) -> (r: Option<Vec<String>>)
    ensures
        match r {
            Some(items) => aggregates_of_stage(s@) == Some(texts(items@)),
            None => aggregates_of_stage(s@) is None,
        },
{
    if let Some(items) = find_aggregate_list(s) {
        return Some(items);
    }
    if is_aggregate_text(s) {
        let mut one: Vec<String> = Vec::new();
        one.push(copy_of(s));
        assert(texts(one@) =~= seq![s@]);
        return Some(one);
    }
    None
}

fn add_aggregates(plan: &mut QueryPlan, items: &Vec<String>) -> (r: Result<(), String>)
    requires
        forall|i: int| 0 <= i < items@.len() ==> is_aggregate_item(#[trigger] texts(items@)[i]),
    ensures
        outcome(with_aggregates(old(plan)@, texts(items@)), old(plan)@, final(plan)@, r),
{
    let ghost views = texts(items@);
    let mut more: Vec<Aggregate> = Vec::new();
    let mut i: usize = 0;
    assert(aggregate_views(more@) =~= Seq::empty());
    while i < items.len()
        invariant
            i <= items.len(),
            views == texts(items@),
            plan@ == old(plan)@,
            forall|k: int| 0 <= k < items@.len() ==> is_aggregate_item(#[trigger] views[k]),
            aggregate_items(views, 0, Seq::empty()) == aggregate_items(
                views,
                i as int,
                aggregate_views(more@),
            ),
        decreases items.len() - i,
    {
        assert(views[i as int] == items@[i as int]@);
        match aggregate_item_of(items[i].as_str()) {
            Ok(a) => {
                assert(aggregate_views(more@.push(a)) =~= aggregate_views(more@).push(a@));
                more.push(a);
            },
            Err(why) => {
                return Err(why);
            },
        }
        i += 1;
    }
    let ghost before = plan.aggregates@;
    let ghost added = more@;
    plan.aggregates.append(&mut more);
    assert(aggregate_views(before + added) =~= aggregate_views(before) + aggregate_views(added));
    Ok(())
}

fn add_top(plan: &mut QueryPlan, rest: &str) -> (r: Result<(), String>)
    ensures
        outcome(with_top(old(plan)@, rest@), old(plan)@, final(plan)@, r),
{
    match split_once(rest, " by ") {
        Some((n, by)) => {
            let n = trim(n.as_str());
            match parse_usize(n.as_str()) {
                Some(limit) => {
                    let item = parse_orderby_clause(by.as_str(), false);
                    push_order(plan, item);
                    plan.limit = Some(limit);
                    Ok(())
                },
                None => Err(cat3("`top` needs an integer, got `", n.as_str(), "`")),
            }
        },
        None => Err(copy_of("`top` needs `by COL`: `top N by .col`")),
    }
}

fn limit_argument(arg: &str) -> (r: String)
    ensures
        r@ == limit_text(arg@),
{
    match strip_prefix(arg, "-n") {
        Some(rest) => trim(rest.as_str()),
        None => match strip_prefix(arg, "-") {
            Some(rest) => trim(rest.as_str()),
            None => trim(arg),
        },
    }
}

fn set_limit(plan: &mut QueryPlan, rest: &str) -> (r: Result<(), String>)
    ensures
        outcome(with_limit(old(plan)@, rest@), old(plan)@, final(plan)@, r),
{
    let arg = trim(rest);
    match parse_usize(limit_argument(arg.as_str()).as_str()) {
        Some(n) => {
            plan.limit = Some(n);
            Ok(())
        },
        None => Err(
            cat3(
                "`limit/head` needs a non-negative integer (e.g. `head 5` or `limit 5`), got `",
                arg.as_str(),
                "`",
            ),
        ),
    }
}

fn find_join(s: &str) -> (r: Option<(JoinKind, String)>)
    ensures
        match r {
            Some((kind, rest)) => join_stage(s@) == Some((kind, rest@)),
            None => join_stage(s@) is None,
        },
{
    if let Some(rest) = take_either(s, "left_join", "left join") {
        return Some((JoinKind::Left, rest));
    }
    if let Some(rest) = take_either(s, "right_join", "right join") {
        return Some((JoinKind::Right, rest));
    }
    if let Some(rest) = take_either(s, "full_join", "full join") {
        return Some((JoinKind::Full, rest));
    }
    if let Some(rest) = take_either(s, "outer_join", "outer join") {
        return Some((JoinKind::Full, rest));
    }
    if let Some(rest) = take_either(s, "inner_join", "inner join") {
        return Some((JoinKind::Inner, rest));
    }
    if let Some(rest) = take_keyword(s, "join") {
        return Some((JoinKind::Inner, rest));
    }
    None
}

fn unquote(s: &str) -> (r: String)
    ensures
        r@ == unquoted(s@),
{
    let s = trim(s);
    let s = strip_trailing(strip_leading(s.as_str(), '"').as_str(), '"');
    let s = strip_trailing(strip_leading(s.as_str(), '\'').as_str(), '\'');
    trim(s.as_str())
}

fn join_condition_sql(on: &str) -> (r: Result<String, String>)
    ensures
        match r {
            Ok(sql) => join_condition(on@) == Ok::<Seq<char>, Seq<char>>(sql@),
            Err(why) => join_condition(on@) == Err::<Seq<char>, Seq<char>>(why@),
        },
{
    if contains_char(on, '=') {
        let expr = trim(rewrite_filter(on).as_str());
        if expr.as_str().is_empty() {
            Err(copy_of("`join on` clause is empty"))
        } else {
            Ok(expr)
        }
    } else {
        let col = strip_dot(on);
        if col.as_str().is_empty() {
            Err(copy_of("`join` needs a column name after `on`"))
        } else {
            Ok(cat4("a.", col.as_str(), " = b.", col.as_str()))
        }
    }
}

fn set_join(plan: &mut QueryPlan, kind: JoinKind, rest: &str) -> (r: Result<(), String>)
    ensures
        outcome(with_join(old(plan)@, kind, rest@), old(plan)@, final(plan)@, r),
{
    if plan.join.is_some() {
        return Err(
            copy_of(
                "multiple joins are not supported yet; fall back to raw SQL via SELECT/WITH for chained joins",
            ),
        );
    }
    match split_once(rest, " on ") {
        Some((file, on)) => {
            let file = unquote(file.as_str());
            if file.as_str().is_empty() {
                return Err(copy_of("`join` needs a quoted file path"));
            }
            match join_condition_sql(on.as_str()) {
                Ok(on_expr) => {
                    let right_source = source_clause(file.as_str());
                    plan.join = Some(Join { kind, right_source, on_expr });
                    Ok(())
                },
                Err(why) => Err(why),
            }
        },
        None => Err(
            cat5(
                "`",
                kind.sql(),
                " ...` needs `on .col`: `",
                kind.sql(),
                " \"file.parquet\" on .user_id`",
            ),
        ),
    }
}

fn projection_stage(s: &str) -> (r: bool)
    ensures
        r == is_projection(s@),
{
    if starts_with(s, ".") || rewrite_path_function(s).is_some() {
        return true;
    }
    match split_inline_where(s) {
        Some((columns, _)) => rewrite_path_function(columns.as_str()).is_some(),
        None => false,
    }
}

fn add_bare_projection(plan: &mut QueryPlan, s: &str) -> (r: Result<(), String>)
    ensures
        outcome(with_bare_projection(old(plan)@, s@), old(plan)@, final(plan)@, r),
{
    match split_inline_where(s) {
        Some((columns, filter)) => match add_projection(plan, columns.as_str()) {
            Ok(_) => {
                add_filter(plan, rewrite_filter(filter.as_str()));
                Ok(())
            },
            Err(why) => Err(why),
        },
        None => add_projection(plan, s),
    }
}

/// Applies one stage to a plan. A stage that is refused leaves the plan as it was.
pub fn parse_stage(stage: &str, plan: &mut QueryPlan) -> (r: Result<(), String>)
    ensures
        outcome(stage_effect(stage@, old(plan)@), old(plan)@, final(plan)@, r),
{
    let s = trim(stage);
    let s = s.as_str();
    if s.is_empty() {
        return Err(copy_of("empty stage"));
    }
    let low = lower(s);
    let low = low.as_str();
    if let Some(rest) = take_either(s, "group_by", "group by") {
        return add_grouping(plan, rest.as_str());
    }
    if let Some(rest) = take_keyword(s, "where") {
        add_filter(plan, rewrite_filter(rest.as_str()));
        return Ok(());
    }
    if let Some(rest) = take_keyword(s, "having") {
        let filter = rewrite_filter(rest.as_str());
        proof {
            crate::text::lemma_texts_push(plan.havings@, filter);
        }
        plan.havings.push(filter);
        return Ok(());
    }
    if let Some(items) = find_aggregates(s) {
        return add_aggregates(plan, &items);
    }
    if let Some(rest) = take_keyword(s, "top") {
        return add_top(plan, rest.as_str());
    }
    if let Some(rest) = take_either(s, "sort by", "order by") {
        let item = parse_orderby_clause(rest.as_str(), true);
        push_order(plan, item);
        return Ok(());
    }
    if let Some(rest) = take_either(s, "limit", "head") {
        return set_limit(plan, rest.as_str());
    }
    if same(low, "distinct") {
        plan.distinct = true;
        return Ok(());
    }
    if let Some((kind, rest)) = find_join(s) {
        return set_join(plan, kind, rest.as_str());
    }
    if same(low, "to_csv") || same(low, "tocsv") {
        plan.line_format = Some(LineFormat::Csv);
        return Ok(());
    }
    if same(low, "to_json") || same(low, "tojson") || same(low, "to_ndjson") || same(
        low,
        "to_jsonl",
    ) {
        plan.line_format = Some(LineFormat::Json);
        return Ok(());
    }
    if let Some(rest) = take_keyword(s, "select") {
        return add_bare_projection(plan, rest.as_str());
    }
    if projection_stage(s) {
        return add_bare_projection(plan, s);
    }
    add_filter(plan, rewrite_filter(s));
    Ok(())
}

// ─── laws ───────────────────────────────────────────────────────────────────
/// A keyword whose character at some place differs from the stage's does not apply.
proof fn lemma_other_keyword(s: Seq<char>, keyword: Seq<char>, k: int)
    requires
        0 <= k < keyword.len(),
        k < s.len() ==> lowered(s)[k] != lower_char(keyword[k]),
    ensures
        keyword_rest(s, keyword) is None,
{
    let low = lowered(s);
    if has_prefix(low, lowered(keyword)) {
        assert(low.subrange(0, keyword.len() as int)[k] == low[k]);
    }
    assert(lowered(keyword)[k] == lower_char(keyword[k]));
}

proof fn lemma_keyword_start(s: Seq<char>, keyword: Seq<char>, k: int)
    requires
        keyword_rest(s, keyword) is Some,
        0 <= k < keyword.len(),
    ensures
        k < s.len(),
        lowered(s)[k] == lower_char(keyword[k]),
{
    let low = lowered(s);
    if low != lowered(keyword) {
        assert(low.subrange(0, keyword.len() as int)[k] == low[k]);
    }
}

/// A `where` stage adds a filter: on groups once the plan has grouping columns
/// or aggregates, and on rows before.
pub proof fn where_goes_by_grouping(stage: Seq<char>, plan: PlanView)
    requires
        keyword_rest(trimmed(stage), "where"@) is Some,
    ensures
        ({
            let filter = filter_sql(keyword_rest(trimmed(stage), "where"@)->0);
            stage_effect(stage, plan) == Ok::<PlanView, Seq<char>>(
                if groups(plan) {
                    PlanView { havings: plan.havings.push(filter), ..plan }
                } else {
                    PlanView { filters: plan.filters.push(filter), ..plan }
                },
            )
        }),
{
    let s = trimmed(stage);
    reveal_strlit("where");
    reveal_strlit("group_by");
    reveal_strlit("group by");
    lemma_keyword_start(s, "where"@, 0);
    lemma_other_keyword(s, "group_by"@, 0);
    lemma_other_keyword(s, "group by"@, 0);
}

/// The first two characters of a stage, in lower case.
pub open spec fn starts_as(s: Seq<char>, a: char, b: char) -> bool {
    s.len() > 1 && lower_char(s[0]) == a && lower_char(s[1]) == b
}

proof fn lemma_stage_starts(s: Seq<char>)
    ensures
        keyword_rest(s, "group_by"@) is Some ==> starts_as(s, 'g', 'r'),
        keyword_rest(s, "group by"@) is Some ==> starts_as(s, 'g', 'r'),
        keyword_rest(s, "where"@) is Some ==> starts_as(s, 'w', 'h'),
        keyword_rest(s, "having"@) is Some ==> starts_as(s, 'h', 'a'),
        keyword_rest(s, "count_distinct"@) is Some ==> starts_as(s, 'c', 'o'),
        keyword_rest(s, "sum"@) is Some ==> starts_as(s, 's', 'u'),
        keyword_rest(s, "avg"@) is Some ==> starts_as(s, 'a', 'v'),
        keyword_rest(s, "min"@) is Some ==> starts_as(s, 'm', 'i'),
        keyword_rest(s, "max"@) is Some ==> starts_as(s, 'm', 'a'),
        keyword_rest(s, "top"@) is Some ==> starts_as(s, 't', 'o'),
        keyword_rest(s, "sort by"@) is Some ==> starts_as(s, 's', 'o'),
        keyword_rest(s, "order by"@) is Some ==> starts_as(s, 'o', 'r'),
        keyword_rest(s, "limit"@) is Some ==> starts_as(s, 'l', 'i'),
        keyword_rest(s, "head"@) is Some ==> starts_as(s, 'h', 'e'),
        keyword_rest(s, "left_join"@) is Some ==> starts_as(s, 'l', 'e'),
        keyword_rest(s, "left join"@) is Some ==> starts_as(s, 'l', 'e'),
        keyword_rest(s, "right_join"@) is Some ==> starts_as(s, 'r', 'i'),
        keyword_rest(s, "right join"@) is Some ==> starts_as(s, 'r', 'i'),
        keyword_rest(s, "full_join"@) is Some ==> starts_as(s, 'f', 'u'),
        keyword_rest(s, "full join"@) is Some ==> starts_as(s, 'f', 'u'),
        keyword_rest(s, "outer_join"@) is Some ==> starts_as(s, 'o', 'u'),
        keyword_rest(s, "outer join"@) is Some ==> starts_as(s, 'o', 'u'),
        keyword_rest(s, "inner_join"@) is Some ==> starts_as(s, 'i', 'n'),
        keyword_rest(s, "inner join"@) is Some ==> starts_as(s, 'i', 'n'),
        keyword_rest(s, "join"@) is Some ==> starts_as(s, 'j', 'o'),
        keyword_rest(s, "select"@) is Some ==> starts_as(s, 's', 'e'),
        lowered(s) == "count"@ ==> starts_as(s, 'c', 'o'),
        lowered(s) == "count(*)"@ ==> starts_as(s, 'c', 'o'),
        lowered(s) == "distinct"@ ==> starts_as(s, 'd', 'i'),
        lowered(s) == "to_csv"@ ==> starts_as(s, 't', 'o'),
        lowered(s) == "tocsv"@ ==> starts_as(s, 't', 'o'),
        lowered(s) == "to_json"@ ==> starts_as(s, 't', 'o'),
        lowered(s) == "tojson"@ ==> starts_as(s, 't', 'o'),
        lowered(s) == "to_ndjson"@ ==> starts_as(s, 't', 'o'),
        lowered(s) == "to_jsonl"@ ==> starts_as(s, 't', 'o'),
{
    assert(lowered(s).len() == s.len());
    reveal_strlit("group_by");
    if keyword_rest(s, "group_by"@) is Some {
        lemma_keyword_start(s, "group_by"@, 0);
        lemma_keyword_start(s, "group_by"@, 1);
    }
    reveal_strlit("group by");
    if keyword_rest(s, "group by"@) is Some {
        lemma_keyword_start(s, "group by"@, 0);
        lemma_keyword_start(s, "group by"@, 1);
    }
    reveal_strlit("where");
    if keyword_rest(s, "where"@) is Some {
        lemma_keyword_start(s, "where"@, 0);
        lemma_keyword_start(s, "where"@, 1);
    }
    reveal_strlit("having");
    if keyword_rest(s, "having"@) is Some {
        lemma_keyword_start(s, "having"@, 0);
        lemma_keyword_start(s, "having"@, 1);
    }
    reveal_strlit("count_distinct");
    if keyword_rest(s, "count_distinct"@) is Some {
        lemma_keyword_start(s, "count_distinct"@, 0);
        lemma_keyword_start(s, "count_distinct"@, 1);
    }
    reveal_strlit("sum");
    if keyword_rest(s, "sum"@) is Some {
        lemma_keyword_start(s, "sum"@, 0);
        lemma_keyword_start(s, "sum"@, 1);
    }
    reveal_strlit("avg");
    if keyword_rest(s, "avg"@) is Some {
        lemma_keyword_start(s, "avg"@, 0);
        lemma_keyword_start(s, "avg"@, 1);
    }
    reveal_strlit("min");
    if keyword_rest(s, "min"@) is Some {
        lemma_keyword_start(s, "min"@, 0);
        lemma_keyword_start(s, "min"@, 1);
    }
    reveal_strlit("max");
    if keyword_rest(s, "max"@) is Some {
        lemma_keyword_start(s, "max"@, 0);
        lemma_keyword_start(s, "max"@, 1);
    }
    reveal_strlit("top");
    if keyword_rest(s, "top"@) is Some {
        lemma_keyword_start(s, "top"@, 0);
        lemma_keyword_start(s, "top"@, 1);
    }
    reveal_strlit("sort by");
    if keyword_rest(s, "sort by"@) is Some {
        lemma_keyword_start(s, "sort by"@, 0);
        lemma_keyword_start(s, "sort by"@, 1);
    }
    reveal_strlit("order by");
    if keyword_rest(s, "order by"@) is Some {
        lemma_keyword_start(s, "order by"@, 0);
        lemma_keyword_start(s, "order by"@, 1);
    }
    reveal_strlit("limit");
    if keyword_rest(s, "limit"@) is Some {
        lemma_keyword_start(s, "limit"@, 0);
        lemma_keyword_start(s, "limit"@, 1);
    }
    reveal_strlit("head");
    if keyword_rest(s, "head"@) is Some {
        lemma_keyword_start(s, "head"@, 0);
        lemma_keyword_start(s, "head"@, 1);
    }
    reveal_strlit("left_join");
    if keyword_rest(s, "left_join"@) is Some {
        lemma_keyword_start(s, "left_join"@, 0);
        lemma_keyword_start(s, "left_join"@, 1);
    }
    reveal_strlit("left join");
    if keyword_rest(s, "left join"@) is Some {
        lemma_keyword_start(s, "left join"@, 0);
        lemma_keyword_start(s, "left join"@, 1);
    }
    reveal_strlit("right_join");
    if keyword_rest(s, "right_join"@) is Some {
        lemma_keyword_start(s, "right_join"@, 0);
        lemma_keyword_start(s, "right_join"@, 1);
    }
    reveal_strlit("right join");
    if keyword_rest(s, "right join"@) is Some {
        lemma_keyword_start(s, "right join"@, 0);
        lemma_keyword_start(s, "right join"@, 1);
    }
    reveal_strlit("full_join");
    if keyword_rest(s, "full_join"@) is Some {
        lemma_keyword_start(s, "full_join"@, 0);
        lemma_keyword_start(s, "full_join"@, 1);
    }
    reveal_strlit("full join");
    if keyword_rest(s, "full join"@) is Some {
        lemma_keyword_start(s, "full join"@, 0);
        lemma_keyword_start(s, "full join"@, 1);
    }
    reveal_strlit("outer_join");
    if keyword_rest(s, "outer_join"@) is Some {
        lemma_keyword_start(s, "outer_join"@, 0);
        lemma_keyword_start(s, "outer_join"@, 1);
    }
    reveal_strlit("outer join");
    if keyword_rest(s, "outer join"@) is Some {
        lemma_keyword_start(s, "outer join"@, 0);
        lemma_keyword_start(s, "outer join"@, 1);
    }
    reveal_strlit("inner_join");
    if keyword_rest(s, "inner_join"@) is Some {
        lemma_keyword_start(s, "inner_join"@, 0);
        lemma_keyword_start(s, "inner_join"@, 1);
    }
    reveal_strlit("inner join");
    if keyword_rest(s, "inner join"@) is Some {
        lemma_keyword_start(s, "inner join"@, 0);
        lemma_keyword_start(s, "inner join"@, 1);
    }
    reveal_strlit("join");
    if keyword_rest(s, "join"@) is Some {
        lemma_keyword_start(s, "join"@, 0);
        lemma_keyword_start(s, "join"@, 1);
    }
    reveal_strlit("select");
    if keyword_rest(s, "select"@) is Some {
        lemma_keyword_start(s, "select"@, 0);
        lemma_keyword_start(s, "select"@, 1);
    }
    reveal_strlit("count");
    if lowered(s) == "count"@ {
        assert(lowered(s)[0] == 'c' && lowered(s)[1] == 'o');
    }
    reveal_strlit("count(*)");
    if lowered(s) == "count(*)"@ {
        assert(lowered(s)[0] == 'c' && lowered(s)[1] == 'o');
    }
    reveal_strlit("distinct");
    if lowered(s) == "distinct"@ {
        assert(lowered(s)[0] == 'd' && lowered(s)[1] == 'i');
    }
    reveal_strlit("to_csv");
    if lowered(s) == "to_csv"@ {
        assert(lowered(s)[0] == 't' && lowered(s)[1] == 'o');
    }
    reveal_strlit("tocsv");
    if lowered(s) == "tocsv"@ {
        assert(lowered(s)[0] == 't' && lowered(s)[1] == 'o');
    }
    reveal_strlit("to_json");
    if lowered(s) == "to_json"@ {
        assert(lowered(s)[0] == 't' && lowered(s)[1] == 'o');
    }
    reveal_strlit("tojson");
    if lowered(s) == "tojson"@ {
        assert(lowered(s)[0] == 't' && lowered(s)[1] == 'o');
    }
    reveal_strlit("to_ndjson");
    if lowered(s) == "to_ndjson"@ {
        assert(lowered(s)[0] == 't' && lowered(s)[1] == 'o');
    }
    reveal_strlit("to_jsonl");
    if lowered(s) == "to_jsonl"@ {
        assert(lowered(s)[0] == 't' && lowered(s)[1] == 'o');
    }
}

proof fn lemma_trim_end_is_prefix(s: Seq<char>)
    ensures
        trim_end(s).len() <= s.len(),
        trim_end(s) == s.take(trim_end(s).len() as int),
    decreases s.len(),
{
    if s.len() > 0 && is_space(s.last()) {
        lemma_trim_end_is_prefix(s.drop_last());
        assert(s.drop_last().take(trim_end(s).len() as int) =~= s.take(trim_end(s).len() as int));
    } else {
        assert(s.take(s.len() as int) =~= s);
    }
}

proof fn lemma_trim_start_starts(s: Seq<char>)
    ensures
        trim_start(s).len() > 0 ==> !is_space(trim_start(s)[0]),
    decreases s.len(),
{
    if s.len() > 0 && is_space(s[0]) {
        lemma_trim_start_starts(s.skip(1));
    }
}

proof fn lemma_trimmed_starts(s: Seq<char>)
    ensures
        trimmed(s).len() > 0 ==> !is_space(trimmed(s)[0]),
{
    lemma_trim_start_starts(s);
    lemma_trim_end_is_prefix(trim_start(s));
}

/// The stage starts as an aggregate's keyword does.
spec fn starts_like_aggregate(s: Seq<char>) -> bool {
    ||| starts_as(s, 'c', 'o')
    ||| starts_as(s, 's', 'u')
    ||| starts_as(s, 'a', 'v')
    ||| starts_as(s, 'm', 'i')
    ||| starts_as(s, 'm', 'a')
}

proof fn lemma_aggregates_start(stage: Seq<char>)
    requires
        aggregates_of_stage(trimmed(stage)) is Some,
    ensures
        starts_like_aggregate(trimmed(stage)),
{
    let s = trimmed(stage);
    lemma_trimmed_starts(stage);
    lemma_stage_starts(s);
    if aggregate_list(s) is Some {
        reveal_strlit(",");
        let pieces = split_on(s, ","@);
        let items = all_trimmed(pieces);
        lemma_find_from_range(s, ","@, 0);
        let first = pieces[0];
        assert(first =~= s.take(first.len() as int)) by {
            if find_from(s, ","@, 0) is None {
                assert(s.skip(0) =~= s);
            }
        }
        let item = items[0];
        assert(is_aggregate_item(item));
        lemma_stage_starts(item);
        assert(starts_like_aggregate(item));
        lemma_trim_end_is_prefix(trim_start(first));
        if first.len() > 0 {
            assert(first[0] == s[0]);
            assert(trim_start(first) == first);
            assert(item == first.take(item.len() as int));
            assert(item[0] == s[0] && item[1] == s[1]);
        }
    }
}

proof fn lemma_not_top(s: Seq<char>)
    requires
        s.len() > 2,
        lower_char(s[2]) != 'p',
    ensures
        keyword_rest(s, "top"@) is None,
{
    reveal_strlit("top");
    lemma_other_keyword(s, "top"@, 2);
}

/// `group_by` and `group by` are one keyword.
pub proof fn grouping_keywords_agree(one: Seq<char>, other: Seq<char>, plan: PlanView)
    requires
        keyword_rest(trimmed(one), "group_by"@) is Some,
        keyword_rest(trimmed(other), "group by"@) == keyword_rest(trimmed(one), "group_by"@),
    ensures
        stage_effect(one, plan) == stage_effect(other, plan),
{
    lemma_stage_starts(trimmed(one));
    lemma_stage_starts(trimmed(other));
    reveal_strlit("group_by");
    reveal_strlit("group by");
    lemma_keyword_start(trimmed(other), "group by"@, 5);
    lemma_other_keyword(trimmed(other), "group_by"@, 5);
}

/// `sort by` and `order by` are one keyword.
pub proof fn sorting_keywords_agree(one: Seq<char>, other: Seq<char>, plan: PlanView)
    requires
        keyword_rest(trimmed(one), "sort by"@) is Some,
        keyword_rest(trimmed(other), "order by"@) == keyword_rest(trimmed(one), "sort by"@),
    ensures
        stage_effect(one, plan) == stage_effect(other, plan),
{
    lemma_stage_starts(trimmed(one));
    lemma_stage_starts(trimmed(other));
    if aggregates_of_stage(trimmed(one)) is Some {
        lemma_aggregates_start(one);
    }
    if aggregates_of_stage(trimmed(other)) is Some {
        lemma_aggregates_start(other);
    }
}

/// `limit` and `head` are one keyword.
pub proof fn limit_keywords_agree(one: Seq<char>, other: Seq<char>, plan: PlanView)
    requires
        keyword_rest(trimmed(one), "limit"@) is Some,
        keyword_rest(trimmed(other), "head"@) == keyword_rest(trimmed(one), "limit"@),
    ensures
        stage_effect(one, plan) == stage_effect(other, plan),
{
    lemma_stage_starts(trimmed(one));
    lemma_stage_starts(trimmed(other));
    if aggregates_of_stage(trimmed(one)) is Some {
        lemma_aggregates_start(one);
    }
    if aggregates_of_stage(trimmed(other)) is Some {
        lemma_aggregates_start(other);
    }
}

/// A stage with a join keyword is that join and nothing else.
pub proof fn join_stages_join(stage: Seq<char>, plan: PlanView)
    requires
        join_stage(trimmed(stage)) is Some,
    ensures
        stage_effect(stage, plan) == with_join(
            plan,
            (join_stage(trimmed(stage))->0).0,
            (join_stage(trimmed(stage))->0).1,
        ),
{
    lemma_stage_starts(trimmed(stage));
    if aggregates_of_stage(trimmed(stage)) is Some {
        lemma_aggregates_start(stage);
    }
}

/// A second join is refused, whatever it says.
pub proof fn second_join_is_refused(stage: Seq<char>, plan: PlanView)
    requires
        join_stage(trimmed(stage)) is Some,
        plan.join is Some,
    ensures
        stage_effect(stage, plan) is Err,
{
    join_stages_join(stage, plan);
}

/// `to_json`, `tojson`, `to_ndjson` and `to_jsonl`, in any case, are one stage:
/// rows become JSON lines.
pub proof fn json_line_stages_agree(stage: Seq<char>, plan: PlanView)
    requires
        ({
            let low = lowered(trimmed(stage));
            low == "to_json"@ || low == "tojson"@ || low == "to_ndjson"@ || low == "to_jsonl"@
        }),
    ensures
        stage_effect(stage, plan) == Ok::<PlanView, Seq<char>>(
            PlanView { line_format: Some(LineFormat::Json), ..plan },
        ),
{
    reveal_strlit("to_json");
    reveal_strlit("tojson");
    reveal_strlit("to_ndjson");
    reveal_strlit("to_jsonl");
    reveal_strlit("to_csv");
    reveal_strlit("tocsv");
    let s = trimmed(stage);
    let low = lowered(s);
    assert(low.len() == s.len());
    assert(low[0] == lower_char(s[0]) && low[1] == lower_char(s[1]) && low[2] == lower_char(s[2]));
    lemma_stage_starts(s);
    if aggregates_of_stage(s) is Some {
        lemma_aggregates_start(stage);
    }
    lemma_not_top(s);
    assert(low[2] == '_' || low[2] == 'j');
    assert(low[3] == 'j' || low[3] == 's' || low[3] == 'n');
    assert("to_csv"@[3] == 'c');
    assert("tocsv"@[2] == 'c');
}

/// `to_csv` and `tocsv`, in any case, are one stage: rows become lines of
/// values with commas between them.
pub proof fn csv_line_stages_agree(stage: Seq<char>, plan: PlanView)
    requires
        ({
            let low = lowered(trimmed(stage));
            low == "to_csv"@ || low == "tocsv"@
        }),
    ensures
        stage_effect(stage, plan) == Ok::<PlanView, Seq<char>>(
            PlanView { line_format: Some(LineFormat::Csv), ..plan },
        ),
{
    reveal_strlit("to_csv");
    reveal_strlit("tocsv");
    let s = trimmed(stage);
    let low = lowered(s);
    assert(low.len() == s.len());
    assert(low[0] == lower_char(s[0]) && low[1] == lower_char(s[1]) && low[2] == lower_char(s[2]));
    lemma_stage_starts(s);
    if aggregates_of_stage(s) is Some {
        lemma_aggregates_start(stage);
    }
    lemma_not_top(s);
}

/// The later plan keeps what the earlier one holds.
pub open spec fn keeps(earlier: PlanView, later: PlanView) -> bool {
    &&& later.source == earlier.source
    &&& earlier.join is Some ==> later.join == earlier.join
    &&& earlier.projections.is_prefix_of(later.projections)
    &&& earlier.aggregates.is_prefix_of(later.aggregates)
    &&& earlier.filters.is_prefix_of(later.filters)
    &&& earlier.group_by.is_prefix_of(later.group_by)
    &&& earlier.havings.is_prefix_of(later.havings)
    &&& earlier.order_by.is_prefix_of(later.order_by)
    &&& earlier.limit is Some ==> later.limit is Some
    &&& earlier.distinct ==> later.distinct
    &&& earlier.line_format is Some ==> later.line_format is Some
}

/// The later plan keeps what the earlier one holds, its grouping included.
spec fn grows(earlier: PlanView, later: PlanView) -> bool {
    keeps(earlier, later) && (groups(earlier) ==> groups(later))
}

proof fn lemma_appended<A>(a: Seq<A>, b: Seq<A>)
    ensures
        a.is_prefix_of(a + b),
{
    assert(a =~= (a + b).subrange(0, a.len() as int));
}

proof fn lemma_plan_keeps_itself(plan: PlanView)
    ensures
        grows(plan, plan),
{
    let p = plan;
    assert(p.projections =~= p.projections.subrange(0, p.projections.len() as int));
    assert(p.aggregates =~= p.aggregates.subrange(0, p.aggregates.len() as int));
    assert(p.filters =~= p.filters.subrange(0, p.filters.len() as int));
    assert(p.group_by =~= p.group_by.subrange(0, p.group_by.len() as int));
    assert(p.havings =~= p.havings.subrange(0, p.havings.len() as int));
    assert(p.order_by =~= p.order_by.subrange(0, p.order_by.len() as int));
}

proof fn lemma_filter_grows(plan: PlanView, filter: Seq<char>)
    ensures
        grows(plan, with_filter(plan, filter)),
        grows(plan, (PlanView { havings: plan.havings.push(filter), ..plan })),
{
    lemma_plan_keeps_itself(plan);
    lemma_appended(plan.havings, seq![filter]);
    lemma_appended(plan.filters, seq![filter]);
    assert(plan.havings.push(filter) =~= plan.havings + seq![filter]);
    assert(plan.filters.push(filter) =~= plan.filters + seq![filter]);
}

proof fn lemma_order_grows(plan: PlanView, item: (Seq<char>, bool))
    ensures
        grows(plan, (PlanView { order_by: plan.order_by.push(item), ..plan })),
{
    lemma_plan_keeps_itself(plan);
    lemma_appended(plan.order_by, seq![item]);
    assert(plan.order_by.push(item) =~= plan.order_by + seq![item]);
}

proof fn lemma_projection_grows(plan: PlanView, input: Seq<char>)
    ensures
        with_projection(plan, input) matches Ok(later) ==> grows(plan, later),
        with_grouping(plan, input) matches Ok(later) ==> grows(plan, later),
{
    lemma_plan_keeps_itself(plan);
    if let Ok(items) = projection_items(input) {
        lemma_appended(plan.projections, items);
        lemma_appended(plan.group_by, items);
    }
}

proof fn lemma_bare_projection_grows(plan: PlanView, s: Seq<char>)
    ensures
        with_bare_projection(plan, s) matches Ok(later) ==> grows(plan, later),
{
    lemma_projection_grows(plan, s);
    if let Some((columns, filter)) = inline_where(s) {
        lemma_projection_grows(plan, columns);
        if let Ok(next) = with_projection(plan, columns) {
            lemma_filter_grows(next, filter_sql(filter));
            let last = with_filter(next, filter_sql(filter));
            assert(last.projections == next.projections);
            assert(plan.filters == next.filters && plan.havings == next.havings);
        }
    }
}

proof fn lemma_aggregates_grow(plan: PlanView, items: Seq<Seq<char>>)
    ensures
        with_aggregates(plan, items) matches Ok(later) ==> grows(plan, later),
{
    lemma_plan_keeps_itself(plan);
    if let Ok(more) = aggregate_items(items, 0, Seq::empty()) {
        lemma_appended(plan.aggregates, more);
    }
}

proof fn lemma_top_grows(plan: PlanView, rest: Seq<char>)
    ensures
        with_top(plan, rest) matches Ok(later) ==> grows(plan, later),
{
    if let Some((_, by)) = split_first(rest, " by "@) {
        lemma_order_grows(plan, order_clause(by, false));
    }
}

proof fn lemma_limit_grows(plan: PlanView, rest: Seq<char>)
    ensures
        with_limit(plan, rest) matches Ok(later) ==> grows(plan, later),
{
    lemma_plan_keeps_itself(plan);
}

proof fn lemma_join_grows(plan: PlanView, kind: JoinKind, rest: Seq<char>)
    ensures
        with_join(plan, kind, rest) matches Ok(later) ==> grows(plan, later),
{
    lemma_plan_keeps_itself(plan);
}

/// A stage adds to a plan and takes nothing away: the source, the join, and
/// every column, aggregate, filter and sort expression stay, in their order.
#[verifier::rlimit(50)]
pub proof fn stages_only_add(stage: Seq<char>, plan: PlanView)
    requires
        stage_effect(stage, plan) is Ok,
    ensures
        keeps(plan, stage_effect(stage, plan)->Ok_0),
        groups(plan) ==> groups(stage_effect(stage, plan)->Ok_0),
{
    let s = trimmed(stage);
    lemma_plan_keeps_itself(plan);
    if keyword_either(s, "group_by"@, "group by"@) is Some {
        lemma_projection_grows(plan, keyword_either(s, "group_by"@, "group by"@)->0);
    } else if keyword_rest(s, "where"@) is Some {
        lemma_filter_grows(plan, filter_sql(keyword_rest(s, "where"@)->0));
    } else if keyword_rest(s, "having"@) is Some {
        lemma_filter_grows(plan, filter_sql(keyword_rest(s, "having"@)->0));
    } else if aggregates_of_stage(s) is Some {
        lemma_aggregates_grow(plan, aggregates_of_stage(s)->0);
    } else if keyword_rest(s, "top"@) is Some {
        lemma_top_grows(plan, keyword_rest(s, "top"@)->0);
    } else if keyword_either(s, "sort by"@, "order by"@) is Some {
        lemma_order_grows(plan, order_clause(keyword_either(s, "sort by"@, "order by"@)->0, true));
    } else if keyword_either(s, "limit"@, "head"@) is Some {
        lemma_limit_grows(plan, keyword_either(s, "limit"@, "head"@)->0);
    } else if join_stage(s) is Some {
        lemma_join_grows(plan, (join_stage(s)->0).0, (join_stage(s)->0).1);
    } else if keyword_rest(s, "select"@) is Some {
        lemma_bare_projection_grows(plan, keyword_rest(s, "select"@)->0);
    } else if is_projection(s) {
        lemma_bare_projection_grows(plan, s);
    } else {
        lemma_filter_grows(plan, filter_sql(s));
    }
}

/// Text in quotes stands from `open` to `close`.
pub open spec fn is_quoted(s: Seq<char>, open: int, close: int) -> bool {
    &&& 0 <= open < close < s.len()
    &&& if s[open] == '"' {
        quoted_from(s, open + 1, Seq::empty()) matches Some((_, end)) && end == close
    } else {
        &&& s[open] == '\'' && s[close] == '\''
        &&& forall|k: int| open < k < close ==> s[k] != '\''
    }
}

/// A `|` inside quotes separates no stages: quoted text is passed over as a whole.
pub proof fn quoted_text_does_not_split(s: Seq<char>, start: int, open: int, close: int)
    requires
        is_quoted(s, open, close),
    ensures
        stages_from(s, start, open, false, false) == stages_from(
            s,
            start,
            close + 1,
            false,
            false,
        ),
{
    if s[open] == '"' {
        lemma_double_quoted_run(s, start, open + 1, Seq::empty());
    } else {
        lemma_single_quoted_run(s, start, open + 1, close);
    }
}

proof fn lemma_double_quoted_run(s: Seq<char>, start: int, i: int, acc: Seq<char>)
    requires
        0 <= i,
        quoted_from(s, i, acc) is Some,
    ensures
        stages_from(s, start, i, false, true) == stages_from(
            s,
            start,
            (quoted_from(s, i, acc)->0).1 + 1,
            false,
            false,
        ),
    decreases s.len() - i,
{
    if escape_at(s, i) {
        lemma_double_quoted_run(s, start, i + 2, acc.push(s[i + 1]));
    } else if s[i] != '"' {
        lemma_double_quoted_run(s, start, i + 1, acc.push(s[i]));
    }
}

proof fn lemma_single_quoted_run(s: Seq<char>, start: int, i: int, close: int)
    requires
        0 <= i <= close < s.len(),
        s[close] == '\'',
        forall|k: int| i <= k < close ==> s[k] != '\'',
    ensures
        stages_from(s, start, i, true, false) == stages_from(s, start, close + 1, false, false),
    decreases close - i,
{
    if i < close {
        lemma_single_quoted_run(s, start, i + 1, close);
    }
}

/// The stage folds rows into lines.
pub open spec fn is_line_stage(stage: Seq<char>) -> bool {
    let low = lowered(trimmed(stage));
    ||| low == "to_csv"@
    ||| low == "tocsv"@
    ||| low == "to_json"@
    ||| low == "tojson"@
    ||| low == "to_ndjson"@
    ||| low == "to_jsonl"@
}

/// Only the stages that fold rows into lines make a query print lines.
pub proof fn only_line_stages_make_lines(stage: Seq<char>, plan: PlanView)
    requires
        stage_effect(stage, plan) is Ok,
        !is_line_stage(stage),
    ensures
        (stage_effect(stage, plan)->Ok_0).line_format == plan.line_format,
{
}

proof fn lemma_trim_end_done(s: Seq<char>)
    ensures
        trim_end(trim_end(s)) == trim_end(s),
    decreases s.len(),
{
    if s.len() > 0 && is_space(s.last()) {
        lemma_trim_end_done(s.drop_last());
    }
}

proof fn lemma_trimmed_is_trimmed(s: Seq<char>)
    ensures
        trimmed(trimmed(s)) == trimmed(s),
{
    lemma_trimmed_starts(s);
    lemma_trim_end_done(trim_start(s));
    assert(trim_start(trimmed(s)) == trimmed(s));
}

/// The text holds no comma.
pub open spec fn without_comma(s: Seq<char>) -> bool {
    !s.contains(',')
}

proof fn lemma_single_item(item: Seq<char>)
    requires
        without_comma(item),
    ensures
        aggregate_list(item) is None,
{
    reveal_strlit(",");
    lemma_find_from_range(item, ","@, 0);
    if let Some(j) = find_from(item, ","@, 0) {
        assert(item.subrange(j, j + 1)[0] == ',');
        assert(item[j] == ',');
        assert(item.contains(','));
    }
}

/// An aggregate alone, as a stage, adds that aggregate.
proof fn lemma_aggregate_stage_effect(item: Seq<char>, plan: PlanView)
    requires
        is_aggregate_item(item),
        trimmed(item) == item,
        without_comma(item),
    ensures
        stage_effect(item, plan) == match aggregate_item(item) {
            Ok(a) => Ok::<PlanView, Seq<char>>(
                PlanView { aggregates: plan.aggregates.push(a), ..plan },
            ),
            Err(why) => Err(why),
        },
{
    lemma_single_item(item);
    lemma_stage_starts(item);
    assert(item.len() > 0) by {
        reveal_strlit("count");
        reveal_strlit("count(*)");
        assert(lowered(item).len() == item.len());
    }
    assert(aggregates_of_stage(item) == Some(seq![item]));
    reveal_with_fuel(aggregate_items, 3);
    match aggregate_item(item) {
        Ok(a) => {
            assert(Seq::<AggregateView>::empty().push(a) =~= seq![a]);
            assert(plan.aggregates + seq![a] =~= plan.aggregates.push(a));
        },
        Err(_) => {},
    }
}

/// The items of a list of aggregates, each as a stage of its own, from `i` on.
pub open spec fn items_as_stages(items: Seq<Seq<char>>, i: int, plan: PlanView) -> Result<
    PlanView,
    Seq<char>,
>
    decreases items.len() - i,
{
    if i < 0 || i >= items.len() {
        Ok(plan)
    } else {
        match stage_effect(items[i], plan) {
            Ok(next) => items_as_stages(items, i + 1, next),
            Err(why) => Err(why),
        }
    }
}

proof fn lemma_list_is_stages(
    items: Seq<Seq<char>>,
    i: int,
    acc: Seq<AggregateView>,
    plan: PlanView,
)
    requires
        0 <= i <= items.len(),
        forall|k: int|
            0 <= k < items.len() ==> is_aggregate_item(#[trigger] items[k]) && trimmed(items[k])
                == items[k] && without_comma(items[k]),
    ensures
        items_as_stages(
            items,
            i,
            (PlanView { aggregates: plan.aggregates + acc, ..plan }),
        ) == match aggregate_items(items, i, acc) {
            Ok(more) => Ok::<PlanView, Seq<char>>(
                PlanView { aggregates: plan.aggregates + more, ..plan },
            ),
            Err(why) => Err(why),
        },
    decreases items.len() - i,
{
    if i < items.len() {
        let now = PlanView { aggregates: plan.aggregates + acc, ..plan };
        assert(is_aggregate_item(items[i]));
        lemma_aggregate_stage_effect(items[i], now);
        match aggregate_item(items[i]) {
            Ok(a) => {
                assert((plan.aggregates + acc).push(a) =~= plan.aggregates + acc.push(a));
                lemma_list_is_stages(items, i + 1, acc.push(a), plan);
            },
            Err(_) => {},
        }
    }
}

/// A list of aggregates means the aggregates as stages one after the other.
pub proof fn aggregate_lists_are_stages(stage: Seq<char>, plan: PlanView)
    requires
        aggregate_list(trimmed(stage)) is Some,
    ensures
        stage_effect(stage, plan) == items_as_stages(
            aggregate_list(trimmed(stage))->0,
            0,
            plan,
        ),
{
    let s = trimmed(stage);
    let items = aggregate_list(s)->0;
    let pieces = split_on(s, ","@);
    reveal_strlit(",");
    assert(","@ =~= seq![',']);
    lemma_pieces_hold_no(s, ',', 0);
    assert forall|k: int| 0 <= k < items.len() implies is_aggregate_item(#[trigger] items[k])
        && trimmed(items[k]) == items[k] && without_comma(items[k]) by {
        assert(items[k] == trimmed(pieces[k]));
        lemma_trimmed_is_trimmed(pieces[k]);
        lemma_trimmed_contains(pieces[k], ',');
    }
    lemma_list_is_stages(items, 0, Seq::empty(), plan);
    assert(plan.aggregates + Seq::<AggregateView>::empty() =~= plan.aggregates);
    assert(PlanView { aggregates: plan.aggregates + Seq::<AggregateView>::empty(), ..plan }
        == plan);
    lemma_aggregates_start(stage);
    lemma_stage_starts(s);
}

/// The word `select` before a projection may be left out.
pub proof fn select_is_optional(one: Seq<char>, other: Seq<char>, plan: PlanView)
    requires
        keyword_rest(trimmed(one), "select"@) == Some(trimmed(other)),
        has_prefix(trimmed(other), "."@),
    ensures
        stage_effect(one, plan) == stage_effect(other, plan),
{
    let s = trimmed(other);
    reveal_strlit(".");
    assert(s.subrange(0, 1)[0] == '.');
    assert(lower_char(s[0]) == '.');
    lemma_stage_starts(trimmed(one));
    lemma_stage_starts(s);
    if aggregates_of_stage(trimmed(one)) is Some {
        lemma_aggregates_start(one);
    }
    if aggregates_of_stage(s) is Some {
        lemma_aggregates_start(other);
    }
}

proof fn lemma_pieces_join(
    s: Seq<char>,
    start: int,
    i: int,
    depth: int,
    single: bool,
    double: bool,
)
    requires
        0 <= start <= i,
        start <= s.len(),
    ensures
        pieces_from(s, start, i, depth, single, double).len() > 0,
        joined(pieces_from(s, start, i, depth, single, double), ","@) == s.skip(start),
    decreases s.len() - i,
{
    let all = pieces_from(s, start, i, depth, single, double);
    if i >= s.len() {
        assert(all == seq![s.skip(start)]);
    } else if double && escape_at(s, i) {
        lemma_pieces_join(s, start, i + 2, depth, single, double);
    } else if s[i] == '\'' && !double {
        lemma_pieces_join(s, start, i + 1, depth, !single, double);
    } else if s[i] == '"' && !single {
        lemma_pieces_join(s, start, i + 1, depth, single, !double);
    } else if single || double {
        lemma_pieces_join(s, start, i + 1, depth, single, double);
    } else if opens_bracket(s[i]) {
        lemma_pieces_join(s, start, i + 1, depth + 1, single, double);
    } else if closes_bracket(s[i]) && depth > 0 {
        lemma_pieces_join(s, start, i + 1, depth - 1, single, double);
    } else if s[i] == ',' && depth == 0 {
        lemma_pieces_join(s, i + 1, i + 1, depth, single, double);
        let first = s.subrange(start, i);
        let rest = pieces_from(s, i + 1, i + 1, depth, single, double);
        reveal_strlit(",");
        crate::text::lemma_joined_head(first, rest, ","@);
        assert(first + ","@ + s.skip(i + 1) =~= s.skip(start));
    } else {
        lemma_pieces_join(s, start, i + 1, depth, single, double);
    }
}

/// Splitting a list at its commas loses nothing.
pub proof fn list_pieces_join_again(s: Seq<char>)
    ensures
        joined(list_pieces(s), ","@) == s,
{
    lemma_pieces_join(s, 0, 0, 0, false, false);
    assert(s.skip(0) =~= s);
}

spec fn is_trimmed_list(v: Seq<Seq<char>>) -> bool {
    forall|k: int| 0 <= k < v.len() ==> trimmed(#[trigger] v[k]) == v[k]
}

proof fn lemma_stages_are_trimmed(
    s: Seq<char>,
    start: int,
    i: int,
    single: bool,
    double: bool,
)
    ensures
        is_trimmed_list(stages_from(s, start, i, single, double)),
    decreases s.len() - i,
{
    let all = stages_from(s, start, i, single, double);
    if i < 0 || i >= s.len() {
        let last = trimmed(s.skip(start));
        lemma_trimmed_is_trimmed(s.skip(start));
        assert(all == seq![last]);
        assert forall|k: int| 0 <= k < all.len() implies trimmed(#[trigger] all[k]) == all[k] by {
            assert(all[k] == last);
        }
    } else if double && escape_at(s, i) {
        lemma_stages_are_trimmed(s, start, i + 2, single, double);
    } else if s[i] == '\'' && !double {
        lemma_stages_are_trimmed(s, start, i + 1, !single, double);
    } else if s[i] == '"' && !single {
        lemma_stages_are_trimmed(s, start, i + 1, single, !double);
    } else if s[i] == '|' && !single && !double {
        lemma_stages_are_trimmed(s, i + 1, i + 1, single, double);
        let first = trimmed(s.subrange(start, i));
        lemma_trimmed_is_trimmed(s.subrange(start, i));
        let rest = stages_from(s, i + 1, i + 1, single, double);
        assert(all == seq![first] + rest);
        assert forall|k: int| 0 <= k < all.len() implies trimmed(#[trigger] all[k]) == all[k] by {
            if k > 0 {
                assert(all[k] == rest[k - 1]);
            } else {
                assert(all[k] == first);
            }
        }
    } else {
        lemma_stages_are_trimmed(s, start, i + 1, single, double);
    }
}

proof fn lemma_non_empty_keeps(parts: Seq<Seq<char>>, k: int)
    requires
        0 <= k < non_empty(parts).len(),
    ensures
        non_empty(parts)[k].len() > 0,
        exists|i: int| 0 <= i < parts.len() && #[trigger] parts[i] == non_empty(parts)[k],
    decreases parts.len(),
{
    if parts.len() > 0 {
        let front = parts.drop_last();
        if k < non_empty(front).len() {
            lemma_non_empty_keeps(front, k);
            let i = choose|i: int|
                0 <= i < front.len() && #[trigger] front[i] == non_empty(front)[k];
            assert(parts[i] == front[i]);
        } else {
            assert(parts[parts.len() - 1] == non_empty(parts)[k]);
        }
    }
}

/// The stages of a query are not empty, and have no white space at their ends.
pub proof fn stages_are_trimmed(q: Seq<char>, k: int)
    requires
        0 <= k < pipe_stages(q).len(),
    ensures
        pipe_stages(q)[k].len() > 0,
        trimmed(pipe_stages(q)[k]) == pipe_stages(q)[k],
{
    let all = stages_from(q, 0, 0, false, false);
    lemma_stages_are_trimmed(q, 0, 0, false, false);
    lemma_non_empty_keeps(all, k);
    let i = choose|i: int| 0 <= i < all.len() && #[trigger] all[i] == pipe_stages(q)[k];
    assert(trimmed(all[i]) == all[i]);
}

/// A column that is selected by a path with brackets has the path's alias for
/// a name.
pub proof fn path_columns_have_their_alias(c: Seq<char>)
    requires
        has_prefix(c, "."@),
        c != ".*"@,
        path_alias(c) is Some,
    ensures
        item_sql(c) is Ok,
        column_name(item_sql(c)->Ok_0) == path_alias(c)->0,
{
    path_alias_is_a_name(c);
    let sql = path_sql(c)->Ok_0;
    plain_alias_names_the_column(sql, path_alias(c)->0);
}

// ─── what the stages mean ───────────────────────────────────────────────────
proof fn lemma_tight(s: Seq<char>)
    requires
        is_tight(s),
    ensures
        trimmed(s) == s,
{
}

/// A keyword, in any case, with white space behind it is split off, and what
/// follows is its argument. Without white space it is no keyword.
pub proof fn keywords_are_split_off(word: Seq<char>, c: char, rest: Seq<char>, keyword: Seq<char>)
    requires
        lowered(word) == lowered(keyword),
        keyword.len() > 0,
        is_tight(rest),
    ensures
        is_space(c) ==> after_keyword(word + seq![c] + rest, keyword) == Some(rest)
            && keyword_rest(word + seq![c] + rest, keyword) == Some(rest),
        !is_space(c) ==> after_keyword(word + seq![c] + rest, keyword) is None,
        keyword_rest(word, keyword) == Some(""@),
        after_keyword(word, keyword) is None,
{
    reveal_strlit("");
    assert(""@ =~= Seq::<char>::empty());
    let s = word + seq![c] + rest;
    let n = keyword.len() as int;
    assert(lowered(word).len() == word.len() && lowered(keyword).len() == n);
    assert(lowered(s).subrange(0, n) =~= lowered(word));
    assert(s[n] == c);
    assert(lowered(s).len() == s.len());
    let tail = s.skip(n);
    assert(tail =~= seq![c] + rest + Seq::<char>::empty());
    if is_space(c) {
        trimming_takes_the_space_around(seq![c], rest, Seq::empty());
    }
}

/// A grouping stage adds its columns to the grouping, in order, and nothing else.
pub proof fn group_stages_group(stage: Seq<char>, plan: PlanView, rest: Seq<char>)
    requires
        keyword_rest(trimmed(stage), "group_by"@) == Some(rest) || keyword_rest(
            trimmed(stage),
            "group by"@,
        ) == Some(rest),
    ensures
        match projection_items(rest) {
            Ok(items) => stage_effect(stage, plan) == Ok::<PlanView, Seq<char>>(
                PlanView { group_by: plan.group_by + items, ..plan },
            ),
            Err(why) => stage_effect(stage, plan) == Err::<PlanView, Seq<char>>(why),
        },
{
    let s = trimmed(stage);
    lemma_stage_starts(s);
    reveal_strlit("group_by");
    reveal_strlit("group by");
    if keyword_rest(s, "group by"@) is Some {
        lemma_keyword_start(s, "group by"@, 5);
        lemma_other_keyword(s, "group_by"@, 5);
    }
}

/// A `having` stage adds a filter on groups, whether there is a grouping yet or not.
pub proof fn having_stages_filter_groups(stage: Seq<char>, plan: PlanView, rest: Seq<char>)
    requires
        keyword_rest(trimmed(stage), "having"@) == Some(rest),
    ensures
        stage_effect(stage, plan) == Ok::<PlanView, Seq<char>>(
            PlanView { havings: plan.havings.push(filter_sql(rest)), ..plan },
        ),
{
    lemma_stage_starts(trimmed(stage));
}

/// `distinct`, in any case, asks for different rows, and nothing else.
pub proof fn distinct_stages_keep_rows_apart(stage: Seq<char>, plan: PlanView)
    requires
        lowered(trimmed(stage)) == "distinct"@,
    ensures
        stage_effect(stage, plan) == Ok::<PlanView, Seq<char>>(
            PlanView { distinct: true, ..plan },
        ),
{
    let s = trimmed(stage);
    reveal_strlit("distinct");
    assert(lowered(s).len() == s.len());
    lemma_stage_starts(s);
    if aggregates_of_stage(s) is Some {
        lemma_aggregates_start(stage);
    }
}

/// A sort stage adds one sort expression behind those before it: ascending,
/// unless it says `desc`.
pub proof fn sort_stages_sort(stage: Seq<char>, plan: PlanView, col: Seq<char>)
    requires
        is_tight(col),
        !has_suffix(lowered(col), " desc"@),
        !has_suffix(lowered(col), " asc"@),
    ensures
        ({
            let sorted = |ascending: bool|
                Ok::<PlanView, Seq<char>>(
                    PlanView {
                        order_by: plan.order_by.push((column_sql(col), ascending)),
                        ..plan
                    },
                );
            let rest = keyword_rest(trimmed(stage), "sort by"@);
            &&& rest == Some(col) ==> stage_effect(stage, plan) == sorted(true)
            &&& rest == Some(col + " asc"@) ==> stage_effect(stage, plan) == sorted(true)
            &&& rest == Some(col + " desc"@) ==> stage_effect(stage, plan) == sorted(false)
        }),
{
    let s = trimmed(stage);
    lemma_stage_starts(s);
    if aggregates_of_stage(s) is Some {
        lemma_aggregates_start(stage);
    }
    sort_words_give_the_direction(col, true);
}

/// The word behind a sort column, in any case, is its direction; without one it has
/// the default direction.
#[verifier::rlimit(50)]
pub proof fn sort_words_give_the_direction(col: Seq<char>, default_asc: bool)
    requires
        is_tight(col),
        !has_suffix(lowered(col), " desc"@),
        !has_suffix(lowered(col), " asc"@),
    ensures
        order_clause(col, default_asc) == (column_sql(col), default_asc),
        order_clause(col + " asc"@, default_asc) == (column_sql(col), true),
        order_clause(col + " desc"@, default_asc) == (column_sql(col), false),
        order_clause(col + " ASC"@, default_asc) == (column_sql(col), true),
        order_clause(col + " DESC"@, default_asc) == (column_sql(col), false),
{
    reveal_strlit(" asc");
    reveal_strlit(" desc");
    reveal_strlit(" ASC");
    reveal_strlit(" DESC");
    lemma_direction(col, " asc"@, " asc"@);
    lemma_direction(col, " ASC"@, " asc"@);
    lemma_direction(col, " desc"@, " desc"@);
    lemma_direction(col, " DESC"@, " desc"@);
    lemma_tight(col);
    let up = lowered(col + " asc"@);
    if has_suffix(up, " desc"@) {
        let tail = up.subrange(up.len() - 5, up.len() as int);
        assert(tail[1] == up[up.len() - 4]);
        assert(up[up.len() - 4] == lower_char((col + " asc"@)[col.len() as int]));
    }
    let capital = lowered(col + " ASC"@);
    if has_suffix(capital, " desc"@) {
        let tail = capital.subrange(capital.len() - 5, capital.len() as int);
        assert(tail[1] == capital[capital.len() - 4]);
        assert(capital[capital.len() - 4] == lower_char((col + " ASC"@)[col.len() as int]));
    }
}

proof fn lemma_direction(col: Seq<char>, word: Seq<char>, low: Seq<char>)
    requires
        is_tight(col),
        low.len() == word.len(),
        word.len() > 1,
        lowered(word) =~= low,
        !is_space(word[word.len() - 1]),
    ensures
        has_suffix(lowered(col + word), low),
        lowered(col + word).take(lowered(col + word).len() - low.len()).len() == col.len(),
        (col + word).take(col.len() as int) == col,
        trimmed(col + word) == col + word,
        trimmed(col) == col,
{
    let s = col + word;
    let all = lowered(s);
    assert(all.len() == s.len());
    assert(all.subrange(all.len() - low.len(), all.len() as int) =~= lowered(word));
    assert(s.take(col.len() as int) =~= col);
    assert(s[0] == col[0]);
    assert(s[s.len() - 1] == word[word.len() - 1]);
}

/// A number of rows is a limit; the forms of the `head` command are taken too.
/// Anything else is refused.
#[verifier::rlimit(50)]
pub proof fn limits_are_numbers_of_rows(plan: PlanView, n: nat)
    requires
        n <= usize::MAX,
    ensures
        ({
            let limited = Ok::<PlanView, Seq<char>>(PlanView { limit: Some(n as int), ..plan });
            &&& with_limit(plan, decimal(n)) == limited
            &&& with_limit(plan, "-"@ + decimal(n)) == limited
            &&& with_limit(plan, "-n"@ + decimal(n)) == limited
            &&& with_limit(plan, "-n "@ + decimal(n)) == limited
        }),
{
    let d = decimal(n);
    reveal_strlit("-");
    reveal_strlit("-n");
    reveal_strlit("-n ");
    decimal_reads_back(n);
    large_numbers_are_refused(n, usize::MAX as int);
    assert(is_digit(d[0]) && is_digit(d[d.len() - 1]));
    lemma_tight(d);
    lemma_first_differs(d, "-n"@);
    lemma_first_differs(d, "-"@);
    let a = "-"@ + d;
    assert(a[0] == '-' && a[1] == d[0] && a[a.len() - 1] == d[d.len() - 1]);
    lemma_tight(a);
    assert(a.subrange(0, 1) =~= "-"@);
    assert(a.skip(1) =~= d);
    if has_prefix(a, "-n"@) {
        assert(a.subrange(0, 2)[1] == 'n');
    }
    let b = "-n"@ + d;
    assert(b[0] == '-' && b[b.len() - 1] == d[d.len() - 1]);
    lemma_tight(b);
    assert(b.subrange(0, 2) =~= "-n"@);
    assert(b.skip(2) =~= d);
    let c = "-n "@ + d;
    assert(c[0] == '-' && c[c.len() - 1] == d[d.len() - 1]);
    lemma_tight(c);
    assert(c.subrange(0, 2) =~= "-n"@);
    let blank = seq![' '];
    assert(c.skip(2) =~= blank + d + Seq::<char>::empty());
    trimming_takes_the_space_around(blank, d, Seq::empty());
}

proof fn lemma_first_differs(s: Seq<char>, p: Seq<char>)
    requires
        s.len() > 0,
        p.len() > 0,
        s[0] != p[0],
    ensures
        !has_prefix(s, p),
{
    if has_prefix(s, p) {
        assert(s.subrange(0, p.len() as int)[0] == s[0]);
    }
}

/// A limit stage sets the limit, and refuses what is no number of rows.
pub proof fn limit_stages_limit(stage: Seq<char>, plan: PlanView, rest: Seq<char>)
    requires
        keyword_rest(trimmed(stage), "limit"@) == Some(rest),
    ensures
        stage_effect(stage, plan) == with_limit(plan, rest),
        with_limit(plan, rest) matches Ok(later) ==> later == (PlanView {
            limit: later.limit,
            ..plan
        }) && later.limit is Some,
        with_limit(plan, rest) matches Err(why) ==> why
            == "`limit/head` needs a non-negative integer (e.g. `head 5` or `limit 5`), got `"@
            + trimmed(rest) + "`"@,
{
    lemma_stage_starts(trimmed(stage));
    if aggregates_of_stage(trimmed(stage)) is Some {
        lemma_aggregates_start(stage);
    }
}

/// `top N by COL` gives the first rows of the descending order by a column.
#[verifier::rlimit(50)]
pub proof fn top_stages_order_and_limit(
    stage: Seq<char>,
    plan: PlanView,
    n: nat,
    col: Seq<char>,
)
    requires
        n <= usize::MAX,
        is_tight(col),
        !has_suffix(lowered(col), " desc"@),
        !has_suffix(lowered(col), " asc"@),
        keyword_rest(trimmed(stage), "top"@) == Some(decimal(n) + " by "@ + col),
    ensures
        stage_effect(stage, plan) == Ok::<PlanView, Seq<char>>(
            PlanView {
                order_by: plan.order_by.push((column_sql(col), false)),
                limit: Some(n as int),
                ..plan
            },
        ),
{
    let s = trimmed(stage);
    lemma_stage_starts(s);
    if aggregates_of_stage(s) is Some {
        lemma_aggregates_start(stage);
    }
    let d = decimal(n);
    decimal_reads_back(n);
    large_numbers_are_refused(n, usize::MAX as int);
    assert(is_digit(d[0]) && is_digit(d[d.len() - 1]));
    lemma_tight(d);
    reveal_strlit(" by ");
    let rest = d + " by "@ + col;
    assert forall|k: int| 0 <= k < d.len() implies !#[trigger] occurs_at(rest, " by "@, k) by {
        if occurs_at(rest, " by "@, k) {
            assert(rest.subrange(k, k + 4)[0] == ' ');
            assert(rest[k] == d[k]);
            assert(is_digit(d[k]));
        }
    }
    first_separator_splits(d, " by "@, col);
    sort_words_give_the_direction(col, false);
}

/// A `top` without ` by ` or without a number is refused.
pub proof fn bad_tops_are_refused(plan: PlanView, rest: Seq<char>)
    ensures
        !has_text(rest, " by "@) ==> with_top(plan, rest) == Err::<PlanView, Seq<char>>(
            "`top` needs `by COL`: `top N by .col`"@,
        ),
        split_first(rest, " by "@) matches Some((n, _)) ==> parsed_unsigned(
            trimmed(n),
            usize::MAX as int,
        ) is None ==> with_top(plan, rest) == Err::<PlanView, Seq<char>>(
            "`top` needs an integer, got `"@ + trimmed(n) + "`"@,
        ),
{
}

/// Each aggregate keyword is the aggregate of its name over its column; `count`
/// counts rows. Without a column it is refused.
#[verifier::rlimit(50)]
pub proof fn aggregate_keywords_aggregate(s: Seq<char>, rest: Seq<char>)
    requires
        is_tight(rest),
    ensures
        keyword_rest(s, "sum"@) == Some(rest) ==> aggregate_item(s) == Ok::<
            AggregateView,
            Seq<char>,
        >(AggregateView::Sum(column_sql(rest))),
        keyword_rest(s, "avg"@) == Some(rest) ==> aggregate_item(s) == Ok::<
            AggregateView,
            Seq<char>,
        >(AggregateView::Avg(column_sql(rest))),
        keyword_rest(s, "min"@) == Some(rest) ==> aggregate_item(s) == Ok::<
            AggregateView,
            Seq<char>,
        >(AggregateView::Min(column_sql(rest))),
        keyword_rest(s, "max"@) == Some(rest) ==> aggregate_item(s) == Ok::<
            AggregateView,
            Seq<char>,
        >(AggregateView::Max(column_sql(rest))),
        keyword_rest(s, "count_distinct"@) == Some(rest) ==> aggregate_item(s) == Ok::<
            AggregateView,
            Seq<char>,
        >(AggregateView::CountDistinct(column_sql(rest))),
        lowered(s) == "count"@ || lowered(s) == "count(*)"@ ==> aggregate_item(s) == Ok::<
            AggregateView,
            Seq<char>,
        >(AggregateView::Count),
{
    lemma_stage_starts(s);
    lemma_tight(rest);
    reveal_strlit("count");
    reveal_strlit("count(*)");
    reveal_strlit("count_distinct");
    reveal_strlit("sum");
    reveal_strlit("avg");
    reveal_strlit("min");
    reveal_strlit("max");
    assert("sum"@.len() == 3 && "avg"@.len() == 3 && "min"@.len() == 3 && "max"@.len() == 3);
    assert("sum"@[0] == 's' && "avg"@[0] == 'a' && "min"@[1] == 'i' && "max"@[1] == 'a');
    assert("count_distinct"@.len() == 14);
    assert("count"@.len() == 5 && "count(*)"@.len() == 8);
    if keyword_rest(s, "count_distinct"@) is Some {
        lemma_keyword_start(s, "count_distinct"@, 5);
        lemma_keyword_start(s, "count_distinct"@, 13);
        assert(lowered(s).len() == s.len());
    }
}

/// An aggregate keyword alone is refused, and asks for a column.
pub proof fn aggregates_need_a_column(s: Seq<char>)
    ensures
        keyword_rest(s, "sum"@) == Some(""@) ==> aggregate_item(s) == Err::<
            AggregateView,
            Seq<char>,
        >("`"@ + "sum"@ + "` requires a column (e.g. `"@ + "sum"@ + " .revenue`)"@),
        keyword_rest(s, "avg"@) == Some(""@) ==> aggregate_item(s) == Err::<
            AggregateView,
            Seq<char>,
        >("`"@ + "avg"@ + "` requires a column (e.g. `"@ + "avg"@ + " .revenue`)"@),
        keyword_rest(s, "min"@) == Some(""@) ==> aggregate_item(s) == Err::<
            AggregateView,
            Seq<char>,
        >("`"@ + "min"@ + "` requires a column (e.g. `"@ + "min"@ + " .revenue`)"@),
        keyword_rest(s, "max"@) == Some(""@) ==> aggregate_item(s) == Err::<
            AggregateView,
            Seq<char>,
        >("`"@ + "max"@ + "` requires a column (e.g. `"@ + "max"@ + " .revenue`)"@),
{
    reveal_strlit("");
    assert(trimmed(""@).len() == 0);
    lemma_stage_starts(s);
    reveal_strlit("count");
    reveal_strlit("count(*)");
}

/// The columns that a stage names are those that it aggregates: a stage of one
/// aggregate adds it behind those before it.
pub proof fn aggregate_stages_aggregate(stage: Seq<char>, plan: PlanView, a: AggregateView)
    requires
        is_aggregate_item(trimmed(stage)),
        without_comma(trimmed(stage)),
        aggregate_item(trimmed(stage)) == Ok::<AggregateView, Seq<char>>(a),
    ensures
        stage_effect(stage, plan) == Ok::<PlanView, Seq<char>>(
            PlanView { aggregates: plan.aggregates.push(a), ..plan },
        ),
{
    let s = trimmed(stage);
    lemma_trimmed_is_trimmed(stage);
    lemma_aggregate_stage_effect(s, plan);
}

/// The join keywords are those of the four kinds of join; `join` alone is an inner
/// one.
#[verifier::rlimit(50)]
pub proof fn join_keywords_tell_the_kind(s: Seq<char>, rest: Seq<char>)
    ensures
        keyword_rest(s, "join"@) == Some(rest) || keyword_rest(s, "inner_join"@) == Some(rest)
            || keyword_rest(s, "inner join"@) == Some(rest) ==> join_stage(s) == Some(
            (JoinKind::Inner, rest),
        ),
        keyword_rest(s, "left_join"@) == Some(rest) || keyword_rest(s, "left join"@) == Some(rest)
            ==> join_stage(s) == Some((JoinKind::Left, rest)),
        keyword_rest(s, "right_join"@) == Some(rest) || keyword_rest(s, "right join"@) == Some(
            rest,
        ) ==> join_stage(s) == Some((JoinKind::Right, rest)),
        keyword_rest(s, "full_join"@) == Some(rest) || keyword_rest(s, "full join"@) == Some(rest)
            || keyword_rest(s, "outer_join"@) == Some(rest) || keyword_rest(s, "outer join"@)
            == Some(rest) ==> join_stage(s) == Some((JoinKind::Full, rest)),
{
    lemma_stage_starts(s);
    reveal_strlit("left_join");
    reveal_strlit("left join");
    reveal_strlit("right_join");
    reveal_strlit("right join");
    reveal_strlit("full_join");
    reveal_strlit("full join");
    reveal_strlit("outer_join");
    reveal_strlit("outer join");
    reveal_strlit("inner_join");
    reveal_strlit("inner join");
    if keyword_rest(s, "left join"@) is Some {
        lemma_keyword_start(s, "left join"@, 4);
        lemma_other_keyword(s, "left_join"@, 4);
    }
    if keyword_rest(s, "right join"@) is Some {
        lemma_keyword_start(s, "right join"@, 5);
        lemma_other_keyword(s, "right_join"@, 5);
    }
    if keyword_rest(s, "full join"@) is Some {
        lemma_keyword_start(s, "full join"@, 4);
        lemma_other_keyword(s, "full_join"@, 4);
    }
    if keyword_rest(s, "outer join"@) is Some {
        lemma_keyword_start(s, "outer join"@, 5);
        lemma_other_keyword(s, "outer_join"@, 5);
    }
    if keyword_rest(s, "inner join"@) is Some {
        lemma_keyword_start(s, "inner join"@, 5);
        lemma_other_keyword(s, "inner_join"@, 5);
    }
}

/// A column behind `on` means that both sides agree in it; an expression means
/// itself.
#[verifier::rlimit(50)]
pub proof fn joins_are_on_their_condition(col: Seq<char>, expr: Seq<char>)
    requires
        is_name(col),
        expr.contains('='),
        trimmed(filter_sql(expr)).len() > 0,
    ensures
        join_condition("."@ + col) == Ok::<Seq<char>, Seq<char>>("a."@ + col + " = b."@ + col),
        join_condition(col) == Ok::<Seq<char>, Seq<char>>("a."@ + col + " = b."@ + col),
        join_condition(expr) == Ok::<Seq<char>, Seq<char>>(trimmed(filter_sql(expr))),
{
    reveal_strlit(".");
    let dotted = "."@ + col;
    assert(is_word(col[0]) && is_word(col[col.len() - 1]));
    assert(dotted[0] == '.' && dotted[dotted.len() - 1] == col[col.len() - 1]);
    lemma_tight(col);
    lemma_tight(dotted);
    assert(dotted.skip(1) =~= col);
    assert(without_leading(dotted, '.') == without_leading(col, '.'));
    assert(without_leading(col, '.') == col);
    assert forall|k: int| 0 <= k < dotted.len() implies dotted[k] != '=' by {
        if k > 0 {
            assert(dotted[k] == col[k - 1]);
            assert(is_word(col[k - 1]));
        }
    }
    assert forall|k: int| 0 <= k < col.len() implies col[k] != '=' by {
        assert(is_word(col[k]));
    }
}

/// A join reads the file that stands in quotes, and joins on what stands behind
/// `on`.
#[verifier::rlimit(50)]
pub proof fn joins_read_the_quoted_file(
    plan: PlanView,
    kind: JoinKind,
    file: Seq<char>,
    on: Seq<char>,
    cond: Seq<char>,
)
    requires
        plan.join is None,
        is_tight(file),
        file[0] != '"' && file[0] != '\'' && file[file.len() - 1] != '"' && file[file.len() - 1]
            != '\'',
        !file.contains(' '),
        join_condition(on) == Ok::<Seq<char>, Seq<char>>(cond),
    ensures
        with_join(plan, kind, "\""@ + file + "\""@ + " on "@ + on) == Ok::<PlanView, Seq<char>>(
            PlanView {
                join: Some(JoinView { kind, right_source: source_sql(file), on_expr: cond }),
                ..plan
            },
        ),
{
    reveal_strlit("\"");
    reveal_strlit(" on ");
    let q = "\""@ + file + "\""@;
    let rest = q + " on "@ + on;
    assert(rest =~= "\""@ + file + "\""@ + " on "@ + on);
    assert forall|k: int| 0 <= k < q.len() implies !#[trigger] occurs_at(rest, " on "@, k) by {
        if occurs_at(rest, " on "@, k) {
            assert(rest.subrange(k, k + 4)[0] == ' ');
            assert(rest[k] == q[k]);
            if 0 < k < q.len() - 1 {
                assert(q[k] == file[k - 1]);
                assert(file.contains(' '));
            }
        }
    }
    first_separator_splits(q, " on "@, on);
    assert(q[0] == '"' && q[q.len() - 1] == '"');
    lemma_tight(q);
    assert(q.skip(1) =~= file + "\""@);
    let half = file + "\""@;
    assert(half[0] == file[0]);
    assert(without_leading(q, '"') == without_leading(half, '"'));
    assert(without_leading(half, '"') == half);
    assert(half.last() == '"');
    assert(half.drop_last() =~= file);
    assert(without_trailing(half, '"') == without_trailing(file, '"'));
    assert(file.last() == file[file.len() - 1]);
    assert(without_trailing(file, '"') == file);
    assert(without_leading(file, '\'') == file);
    assert(without_trailing(file, '\'') == file);
    lemma_tight(file);
}

/// The stage starts as no keyword does.
pub open spec fn starts_freely(s: Seq<char>) -> bool {
    &&& s.len() > 0
    &&& !starts_as(s, 'g', 'r') && !starts_as(s, 'w', 'h') && !starts_as(s, 'h', 'a')
    &&& !starts_as(s, 'h', 'e') && !starts_as(s, 'c', 'o') && !starts_as(s, 's', 'u')
    &&& !starts_as(s, 'a', 'v') && !starts_as(s, 'm', 'i') && !starts_as(s, 'm', 'a')
    &&& !starts_as(s, 't', 'o') && !starts_as(s, 's', 'o') && !starts_as(s, 'o', 'r')
    &&& !starts_as(s, 'l', 'i') && !starts_as(s, 'l', 'e') && !starts_as(s, 'r', 'i')
    &&& !starts_as(s, 'f', 'u') && !starts_as(s, 'o', 'u') && !starts_as(s, 'i', 'n')
    &&& !starts_as(s, 'j', 'o') && !starts_as(s, 's', 'e') && !starts_as(s, 'd', 'i')
}

/// A stage that starts with a dot selects columns, with the filter behind its
/// `where`; any other stage without a keyword is a filter: on groups where there
/// are groups, on rows where there are none.
#[verifier::rlimit(50)]
pub proof fn other_stages_select_or_filter(stage: Seq<char>, plan: PlanView)
    requires
        starts_freely(trimmed(stage)),
    ensures
        ({
            let s = trimmed(stage);
            &&& s[0] == '.' && inline_where(s) is None ==> match projection_items(s) {
                Ok(items) => stage_effect(stage, plan) == Ok::<PlanView, Seq<char>>(
                    PlanView { projections: plan.projections + items, ..plan },
                ),
                Err(why) => stage_effect(stage, plan) == Err::<PlanView, Seq<char>>(why),
            }
            &&& s[0] == '.' && inline_where(s) is Some ==> {
                let (columns, filter) = inline_where(s)->0;
                match projection_items(columns) {
                    Ok(items) => stage_effect(stage, plan) == Ok::<PlanView, Seq<char>>(
                        if plan.aggregates.len() > 0 || plan.group_by.len() > 0 {
                            PlanView {
                                projections: plan.projections + items,
                                havings: plan.havings.push(filter_sql(filter)),
                                ..plan
                            }
                        } else {
                            PlanView {
                                projections: plan.projections + items,
                                filters: plan.filters.push(filter_sql(filter)),
                                ..plan
                            }
                        },
                    ),
                    Err(why) => stage_effect(stage, plan) == Err::<PlanView, Seq<char>>(why),
                }
            }
            &&& s[0] != '.' && function_sql(s) is None && inline_where(s) is None
                ==> stage_effect(stage, plan) == Ok::<PlanView, Seq<char>>(
                if plan.aggregates.len() > 0 || plan.group_by.len() > 0 {
                    PlanView { havings: plan.havings.push(filter_sql(s)), ..plan }
                } else {
                    PlanView { filters: plan.filters.push(filter_sql(s)), ..plan }
                },
            )
        }),
{
    let s = trimmed(stage);
    reveal_strlit(".");
    lemma_stage_starts(s);
    if aggregates_of_stage(s) is Some {
        lemma_aggregates_start(stage);
    }
    assert(s.subrange(0, 1) =~= seq![s[0]]);
    assert("."@ =~= seq!['.']);
    if has_prefix(s, "."@) {
        assert(seq![s[0]][0] == '.');
    }
}

/// An empty stage is refused.
pub proof fn empty_stages_are_refused(stage: Seq<char>, plan: PlanView)
    requires
        trimmed(stage).len() == 0,
    ensures
        stage_effect(stage, plan) == Err::<PlanView, Seq<char>>("empty stage"@),
{
}

/// A `|` outside quotes ends a stage, and the next one begins behind it.
pub proof fn pipes_separate_stages(s: Seq<char>, start: int, i: int)
    requires
        0 <= start <= i < s.len(),
    ensures
        s[i] == '|' ==> stages_from(s, start, i, false, false) == seq![
            trimmed(s.subrange(start, i)),
        ] + stages_from(s, i + 1, i + 1, false, false),
        s[i] != '|' && s[i] != '"' && s[i] != '\'' ==> stages_from(s, start, i, false, false)
            == stages_from(s, start, i + 1, false, false),
        stages_from(s, start, s.len() as int, false, false) == seq![trimmed(s.skip(start))],
{
}

/// A comma outside brackets and quotes ends an item; inside them it is part of it.
#[verifier::rlimit(50)]
pub proof fn commas_separate_items(s: Seq<char>, start: int, i: int, depth: int)
    requires
        0 <= start <= i < s.len(),
        depth >= 0,
    ensures
        s[i] == ',' && depth == 0 ==> pieces_from(s, start, i, 0, false, false) == seq![
            s.subrange(start, i),
        ] + pieces_from(s, i + 1, i + 1, 0, false, false),
        s[i] == ',' && depth > 0 ==> pieces_from(s, start, i, depth, false, false) == pieces_from(
            s,
            start,
            i + 1,
            depth,
            false,
            false,
        ),
        s[i] == '(' || s[i] == '[' || s[i] == '{' ==> pieces_from(s, start, i, depth, false, false)
            == pieces_from(s, start, i + 1, depth + 1, false, false),
        (s[i] == ')' || s[i] == ']' || s[i] == '}') && depth > 0 ==> pieces_from(
            s,
            start,
            i,
            depth,
            false,
            false,
        ) == pieces_from(s, start, i + 1, depth - 1, false, false),
        s[i] == '\'' ==> pieces_from(s, start, i, depth, false, false) == pieces_from(
            s,
            start,
            i + 1,
            depth,
            true,
            false,
        ),
        s[i] == '"' ==> pieces_from(s, start, i, depth, false, false) == pieces_from(
            s,
            start,
            i + 1,
            depth,
            false,
            true,
        ),
        pieces_from(s, start, i, depth, true, false) == pieces_from(
            s,
            start,
            i + 1,
            depth,
            s[i] != '\'',
            false,
        ),
        s[i] != '\\' ==> pieces_from(s, start, i, depth, false, true) == pieces_from(
            s,
            start,
            i + 1,
            depth,
            false,
            s[i] != '"',
        ),
{
}

/// What one item of a projection means: `.*` all columns; a path its SQL, under its
/// alias where it has one; a path function its SQL under its name; and any other
/// expression itself, with its paths as SQL. A bad path is refused with its text.
pub proof fn items_mean_their_sql(c: Seq<char>)
    requires
        c.len() > 0,
    ensures
        c == ".*"@ ==> item_sql(c) == Ok::<Seq<char>, Seq<char>>("*"@),
        c != ".*"@ && c[0] == '.' ==> match path_sql(c) {
            Ok(sql) => item_sql(c) == Ok::<Seq<char>, Seq<char>>(
                if path_alias(c) is Some {
                    sql + " AS "@ + path_alias(c)->0
                } else {
                    sql
                },
            ),
            Err(why) => item_sql(c) == Err::<Seq<char>, Seq<char>>(
                "invalid path '"@ + c + "': "@ + why,
            ),
        },
        c[0] != '.' && function_sql(c) is Some && function_alias(c) is Some ==> item_sql(c) == Ok::<
            Seq<char>,
            Seq<char>,
        >(function_sql(c)->0 + " AS "@ + function_alias(c)->0),
        c[0] != '.' && function_sql(c) is None ==> item_sql(c) == Ok::<Seq<char>, Seq<char>>(
            expression_sql(c),
        ),
{
    reveal_strlit(".");
    reveal_strlit(".*");
    assert(c.subrange(0, 1) =~= seq![c[0]]);
    assert("."@ =~= seq!['.']);
    if has_prefix(c, "."@) {
        assert(seq![c[0]][0] == '.');
    }
}

/// The items of a projection are translated one by one, in order; empty ones are
/// left out, and the first bad one decides.
pub proof fn items_are_translated_in_order(
    pieces: Seq<Seq<char>>,
    i: int,
    acc: Seq<Seq<char>>,
)
    requires
        0 <= i <= pieces.len(),
    ensures
        i == pieces.len() ==> items_from(pieces, i, acc) == Ok::<Seq<Seq<char>>, Seq<char>>(acc),
        i < pieces.len() && trimmed(pieces[i]).len() == 0 ==> items_from(pieces, i, acc)
            == items_from(pieces, i + 1, acc),
        i < pieces.len() && trimmed(pieces[i]).len() > 0 ==> match item_sql(trimmed(pieces[i])) {
            Ok(sql) => items_from(pieces, i, acc) == items_from(pieces, i + 1, acc.push(sql)),
            Err(why) => items_from(pieces, i, acc) == Err::<Seq<Seq<char>>, Seq<char>>(why),
        },
{
}

/// A projection that starts with a dot is all of its text; it has at least one item.
pub proof fn projections_have_items(input: Seq<char>)
    requires
        is_tight(input),
        input[0] == '.',
    ensures
        match items_from(list_pieces(input), 0, Seq::empty()) {
            Ok(items) => if items.len() == 0 {
                projection_items(input) is Err
            } else {
                projection_items(input) == Ok::<Seq<Seq<char>>, Seq<char>>(items)
            },
            Err(why) => projection_items(input) == Err::<Seq<Seq<char>>, Seq<char>>(why),
        },
        match projection_items(input) {
            Ok(items) => projection_sql(input) == Ok::<Seq<char>, Seq<char>>(joined(items, ", "@)),
            Err(why) => projection_sql(input) == Err::<Seq<char>, Seq<char>>(why),
        },
        projection_items(""@) == Err::<Seq<Seq<char>>, Seq<char>>("empty projection"@),
{
    reveal_strlit("select ");
    reveal_strlit("SELECT ");
    reveal_strlit("");
    lemma_tight(input);
    lemma_first_differs(input, "select "@);
    lemma_first_differs(input, "SELECT "@);
    assert(projection_body(input) == input);
    assert(trimmed(""@).len() == 0);
    assert(!has_prefix(""@, "select "@) && !has_prefix(""@, "SELECT "@));
    assert(projection_body(""@).len() == 0);
}

/// The first ` where ` outside quotes, in any case, splits the columns from the
/// filter.
#[verifier::rlimit(50)]
pub proof fn inline_filters_are_split_off(columns: Seq<char>, filter: Seq<char>)
    requires
        is_tight(columns),
        is_tight(filter),
        forall|k: int|
            0 <= k < columns.len() ==> #[trigger] columns[k] != '\'' && columns[k] != '"',
        forall|k: int|
            0 <= k < columns.len() ==> !#[trigger] occurs_at(
                lowered(columns + " where "@ + filter),
                " where "@,
                k,
            ),
    ensures
        inline_where(columns + " where "@ + filter) == Some((columns, filter)),
{
    reveal_strlit(" where ");
    let s = columns + " where "@ + filter;
    let n = columns.len() as int;
    assert forall|k: int| 0 <= k < n implies #[trigger] s[k] != '\'' && s[k] != '"' by {
        assert(s[k] == columns[k]);
    }
    lemma_where_run(s, 0, n);
    assert(lowered(s).subrange(n, n + 7) =~= " where "@);
    assert(s[n] == ' ');
    assert(s.skip(n + 7) =~= filter);
    assert(s.take(n) =~= columns);
    lemma_tight(filter);
    lemma_tight(columns);
}

proof fn lemma_where_run(s: Seq<char>, i: int, n: int)
    requires
        0 <= i <= n <= s.len(),
        forall|k: int| i <= k < n ==> #[trigger] s[k] != '\'' && s[k] != '"',
        forall|k: int| i <= k < n ==> !#[trigger] occurs_at(lowered(s), " where "@, k),
    ensures
        inline_where_from(s, i, false, false) == inline_where_from(s, n, false, false),
    decreases n - i,
{
    if i < n {
        assert(s[i] != '\'' && s[i] != '"');
        assert(!occurs_at(lowered(s), " where "@, i));
        lemma_where_run(s, i + 1, n);
    }
}

/// A column is the SQL of its path, or, where it is no path, its text without the
/// dot.
pub proof fn columns_mean_their_path(c: Seq<char>)
    requires
        is_tight(c),
    ensures
        c[0] == '.' && path_sql(c) is Ok ==> column_sql(c) == path_sql(c)->Ok_0,
        c[0] != '.' ==> column_sql(c) == c,
{
    reveal_strlit(".");
    lemma_tight(c);
    assert(c.subrange(0, 1) =~= seq![c[0]]);
    assert("."@ =~= seq!['.']);
    if has_prefix(c, "."@) {
        assert(seq![c[0]][0] == '.');
    }
    if c[0] != '.' {
        assert(without_leading(c, '.') == c);
    }
}

/// A call of a path function is a column of the projection.
#[verifier::rlimit(50)]
pub proof fn path_function_stages_select(stage: Seq<char>, plan: PlanView)
    requires
        function_sql(trimmed(stage)) is Some,
        inline_where(trimmed(stage)) is None,
    ensures
        match projection_items(trimmed(stage)) {
            Ok(items) => stage_effect(stage, plan) == Ok::<PlanView, Seq<char>>(
                PlanView { projections: plan.projections + items, ..plan },
            ),
            Err(why) => stage_effect(stage, plan) == Err::<PlanView, Seq<char>>(why),
        },
{
    let s = trimmed(stage);
    let low = lowered(s);
    lemma_trimmed_is_trimmed(stage);
    assert(low.len() == s.len());
    lemma_stage_starts(s);
    reveal_strlit("len(");
    reveal_strlit("length(");
    reveal_strlit("keys(");
    reveal_strlit("values(");
    reveal_strlit("left_join");
    reveal_strlit("left join");
    lemma_call_start(s, "len("@);
    lemma_call_start(s, "length("@);
    lemma_call_start(s, "keys("@);
    lemma_call_start(s, "values("@);
    assert(low[0] == lower_char(s[0]) && low[1] == lower_char(s[1]) && low[2] == lower_char(s[2]));
    if aggregates_of_stage(s) is Some {
        lemma_aggregates_start(stage);
    }
    if low[0] == 'l' {
        lemma_other_keyword(s, "left_join"@, 2);
        lemma_other_keyword(s, "left join"@, 2);
    }
}

proof fn lemma_call_start(s: Seq<char>, head: Seq<char>)
    requires
        head.len() >= 4,
    ensures
        crate::path::call_argument(s, head) is Some ==> s.len() > 4 && lowered(s)[0] == head[0]
            && lowered(s)[1] == head[1] && lowered(s)[2] == head[2],
{
    let low = lowered(s);
    if has_prefix(low, head) {
        let start = low.subrange(0, head.len() as int);
        assert(start[0] == low[0] && start[1] == low[1] && start[2] == low[2]);
    }
}

/// A join without `on`, without a file or without a condition is refused.
pub proof fn bad_joins_are_refused(plan: PlanView, kind: JoinKind, rest: Seq<char>, on: Seq<char>)
    requires
        plan.join is None,
    ensures
        !has_text(rest, " on "@) ==> with_join(plan, kind, rest) is Err,
        split_first(rest, " on "@) matches Some((file, _)) ==> unquoted(file).len() == 0
            ==> with_join(plan, kind, rest) == Err::<PlanView, Seq<char>>(
            "`join` needs a quoted file path"@,
        ),
        split_first(rest, " on "@) matches Some((file, cond)) ==> unquoted(file).len() > 0
            && join_condition(cond) is Err ==> with_join(plan, kind, rest) == Err::<
            PlanView,
            Seq<char>,
        >(join_condition(cond)->Err_0),
        !on.contains('=') && undotted(on).len() == 0 ==> join_condition(on) == Err::<
            Seq<char>,
            Seq<char>,
        >("`join` needs a column name after `on`"@),
{
}

/// A second join is refused with the advice to write SQL.
pub proof fn second_joins_are_explained(plan: PlanView, kind: JoinKind, rest: Seq<char>)
    requires
        plan.join is Some,
    ensures
        with_join(plan, kind, rest) == Err::<PlanView, Seq<char>>(
            "multiple joins are not supported yet; fall back to raw SQL via SELECT/WITH for chained joins"@,
        ),
{
}

} // verus!
