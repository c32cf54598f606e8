//! Column paths: `.user.email`, `.tags[0]`, `.events[].kind`, `.meta["plan"]`.
//!
//! A path is read into segments and rendered as DuckDB SQL. List indices count
//! from 0 in a path and from 1 in SQL; negative ones count from the end in both.
use vstd::prelude::*;
use vstd::utf8::encode_utf8;

use crate::filter::{expression_sql, rewrite_expression};
use crate::number::{
    decimal, decimal_reads_back, parse_i64, parsed_signed, show, show_signed, signed_decimal,
    signed_decimal_reads_back,
};
use crate::sql::{quotes_doubled, sql_escape};
use crate::text::{
    cat2, cat3, cat4, cat5, chars_of, copy_of, find_chars, find_from, has_prefix, is_digit,
    is_space, is_word, join, joined, lemma_find_behind, lemma_find_from_range,
    lemma_trimmed_contains, lower, lower_char, lowered, occurs_at, starts_with, substring, texts,
    trim, trim_end, trimmed, word,
};
use crate::unnest::{
    alias_safe, all_word, lemma_joined_keeps_words, safe_alias, safe_alias_is_a_name,
};

verus! {

/// One step of a path.
#[derive(Debug, PartialEq, Eq)]
pub enum PathSegment {
    /// A column or a struct field.
    Field(String),
    /// `[N]`, a list index in SQL's counting.
    Index(i64),
    /// `[]`, one row per list element.
    Unnest,
    /// `["k"]` or `['k']`, a map lookup.
    MapKey(String),
}

/// The mathematical value of a `PathSegment`.
pub enum SegmentView {
    Field(Seq<char>),
    Index(int),
    Unnest,
    MapKey(Seq<char>),
}

impl View for PathSegment {
    type V = SegmentView;

    open spec fn view(&self) -> SegmentView {
        match self {
            PathSegment::Field(name) => SegmentView::Field(name@),
            PathSegment::Index(n) => SegmentView::Index(*n as int),
            PathSegment::Unnest => SegmentView::Unnest,
            PathSegment::MapKey(key) => SegmentView::MapKey(key@),
        }
    }
}

/// The views of a list of segments.
pub open spec fn segment_views(v: Seq<PathSegment>) -> Seq<SegmentView> {
    Seq::new(v.len(), |i: int| v[i]@)
}

// ─── reading ────────────────────────────────────────────────────────────────
/// The first position at or after `i` that holds no name character.
pub open spec fn ident_end(s: Seq<char>, i: int) -> int
    decreases s.len() - i,
{
    if 0 <= i < s.len() && is_word(s[i]) {
        ident_end(s, i + 1)
    } else {
        i
    }
}

proof fn lemma_ident_end_range(s: Seq<char>, i: int)
    requires
        0 <= i <= s.len(),
    ensures
        i <= ident_end(s, i) <= s.len(),
    decreases s.len() - i,
{
    if i < s.len() && is_word(s[i]) {
        lemma_ident_end_range(s, i + 1);
    }
}

/// The hexadecimal digit of `d`, for `d` below sixteen.
pub open spec fn hex_digit(d: int) -> char {
    if d < 10 {
        ((48 + d) as u8) as char
    } else {
        ((87 + d) as u8) as char
    }
}

/// A byte in single quotes, taken as a character, with the escapes of a Rust
/// character literal.
pub open spec fn quoted_byte(b: u8) -> Seq<char> {
    if b == 0 {
        "'\\0'"@
    } else if b == 9 {
        "'\\t'"@
    } else if b == 10 {
        "'\\n'"@
    } else if b == 13 {
        "'\\r'"@
    } else if b == 39 {
        "'\\''"@
    } else if b == 92 {
        "'\\\\'"@
    } else if b < 16 {
        "'\\u{"@ + seq![hex_digit(b as int)] + "}'"@
    } else if b < 32 || (127 <= b && b <= 160) || b == 173 {
        "'\\u{"@ + seq![hex_digit(b as int / 16), hex_digit(b as int % 16)] + "}'"@
    } else {
        "'"@ + seq![b as char] + "'"@
    }
}

/// The first byte of the UTF-8 form of `c`.
pub open spec fn lead_byte(c: char) -> u8 {
    encode_utf8(seq![c])[0]
}

/// The complaint about a missing name at position `i` of `s`. The place is
/// given in bytes.
pub open spec fn ident_complaint(s: Seq<char>, i: int) -> Seq<char> {
    "expected an identifier at offset "@ + decimal(encode_utf8(s.take(i)).len()) + ", got "@ + (
    if i < s.len() {
        "Some("@ + quoted_byte(lead_byte(s[i])) + ")"@
    } else {
        "None"@
    })
}

/// `s` stands between two of the quotes `q`.
pub open spec fn quoted_by(s: Seq<char>, q: char) -> bool {
    s.len() >= 2 && s[0] == q && s.last() == q
}

/// What a trimmed subscript means.
pub open spec fn subscript(inner: Seq<char>) -> Result<SegmentView, Seq<char>> {
    if inner.len() == 0 {
        Ok(SegmentView::Unnest)
    } else if quoted_by(inner, '"') || quoted_by(inner, '\'') {
        Ok(SegmentView::MapKey(inner.subrange(1, inner.len() - 1)))
    } else {
        match parsed_signed(inner, i64::MAX as int) {
            Some(n) => if n < 0 {
                Ok(SegmentView::Index(n))
            } else if n < i64::MAX {
                Ok(SegmentView::Index(n + 1))
            } else {
                Err("can't parse bracket subscript ["@ + inner + "]"@)
            },
            None => Err("can't parse bracket subscript ["@ + inner + "]"@),
        }
    }
}

/// The complaint about a character that no segment starts with.
pub open spec fn stray_complaint(c: char, path: Seq<char>) -> Seq<char> {
    "unexpected character '"@ + seq![lead_byte(c) as char] + "' in path '"@ + path + "'"@
}

/// The segments `acc`, followed by those that `s[i..]` spells.
pub open spec fn segments_from(
    s: Seq<char>,
    i: int,
    acc: Seq<SegmentView>,
    path: Seq<char>,
) -> Result<Seq<SegmentView>, Seq<char>>
    decreases s.len() - i,
    via segments_from_decreases
{
    if i < 0 || i >= s.len() {
        Ok(acc)
    } else if s[i] == '.' {
        let end = ident_end(s, i + 1);
        if end == i + 1 {
            Err(ident_complaint(s, i + 1))
        } else {
            segments_from(s, end, acc.push(SegmentView::Field(s.subrange(i + 1, end))), path)
        }
    } else if s[i] == '[' {
        match find_from(s, "]"@, i + 1) {
            Some(close) => match subscript(trimmed(s.subrange(i + 1, close))) {
                Ok(segment) => segments_from(s, close + 1, acc.push(segment), path),
                Err(why) => Err(why),
            },
            None => Err("unterminated '[' in path"@),
        }
    } else {
        Err(stray_complaint(s[i], path))
    }
}

#[via_fn]
proof fn segments_from_decreases(
    s: Seq<char>,
    i: int,
    acc: Seq<SegmentView>,
    path: Seq<char>,
) {
    if 0 <= i < s.len() {
        lemma_ident_end_range(s, i + 1);
        lemma_find_from_range(s, "]"@, i + 1);
        reveal_strlit("]");
    }
}

/// The segments of a path: a name, after an optional dot, and what follows it.
pub open spec fn path_segments(path: Seq<char>) -> Result<Seq<SegmentView>, Seq<char>> {
    let s = trimmed(path);
    if s.len() == 0 {
        Err("empty path"@)
    } else {
        let start = if s[0] == '.' {
            1int
        } else {
            0
        };
        let end = ident_end(s, start);
        if end == start {
            Err(ident_complaint(s, start))
        } else {
            segments_from(s, end, seq![SegmentView::Field(s.subrange(start, end))], path)
        }
    }
}

fn hex(d: u8) -> (r: char)
    requires
        d < 16,
    ensures
        r == hex_digit(d as int),
{
    if d < 10 {
        (48 + d) as char
    } else {
        (87 + d) as char
    }
}

/// A byte in single quotes, taken as a character, with its escape where it needs one.
fn quote_byte(b: u8) -> (r: String)
    ensures
        r@ == quoted_byte(b),
{
    if b == 0 {
        copy_of("'\\0'")
    } else if b == 9 {
        copy_of("'\\t'")
    } else if b == 10 {
        copy_of("'\\n'")
    } else if b == 13 {
        copy_of("'\\r'")
    } else if b == 39 {
        copy_of("'\\''")
    } else if b == 92 {
        copy_of("'\\\\'")
    } else if b < 32 || (127 <= b && b <= 160) || b == 173 {
        let mut digits = String::new();
        if b >= 16 {
            digits.push(hex(b / 16));
        }
        digits.push(hex(b % 16));
        proof {
            if b >= 16 {
                assert(digits@ =~= seq![hex_digit(b as int / 16), hex_digit(b as int % 16)]);
            } else {
                assert(digits@ =~= seq![hex_digit(b as int)]);
            }
        }
        cat3("'\\u{", digits.as_str(), "}'")
    } else {
        let mut c = String::new();
        c.push(b as char);
        assert(c@ =~= seq![b as char]);
        cat3("'", c.as_str(), "'")
    }
}

proof fn lemma_encoded_char_is_not_empty(c: char)
    ensures
        encode_utf8(seq![c]).len() > 0,
{
    vstd::utf8::encode_utf8_first_scalar(seq![c]);
    reveal_with_fuel(encode_utf8, 2);
}

/// The first byte of the UTF-8 form of `cs[i]`.
fn byte_at(cs: &Vec<char>, i: usize) -> (r: u8)
    requires
        i < cs.len(),
    ensures
        r == lead_byte(cs@[i as int]),
{
    let one = substring(cs, i, i + 1);
    assert(one@ =~= seq![cs@[i as int]]);
    proof {
        lemma_encoded_char_is_not_empty(cs@[i as int]);
    }
    let bytes = one.as_str().as_bytes();
    bytes[0]
}

/// Explains that a name is missing at `cs[i]`.
fn complain_about_ident(cs: &Vec<char>, i: usize) -> (r: String)
    requires
        i <= cs@.len(),
    ensures
        r@ == ident_complaint(cs@, i as int),
{
    let before = substring(cs, 0, i);
    assert(before@ =~= cs@.take(i as int));
    let offset: usize = before.as_str().as_bytes().len();
    let found = if i < cs.len() {
        cat3("Some(", quote_byte(byte_at(cs, i)).as_str(), ")")
    } else {
        copy_of("None")
    };
    cat4(
        "expected an identifier at offset ",
        show(offset as u128).as_str(),
        ", got ",
        found.as_str(),
    )
}

/// The end of the name that starts at `cs[i]`.
fn scan_ident(cs: &Vec<char>, i: usize) -> (r: usize)
    requires
        i <= cs@.len(),
    ensures
        r == ident_end(cs@, i as int),
        i <= r <= cs@.len(),
{
    let mut end: usize = i;
    while end < cs.len() && word(cs[end])
        invariant
            i <= end <= cs@.len(),
            ident_end(cs@, i as int) == ident_end(cs@, end as int),
        decreases cs@.len() - end,
    {
        end += 1;
    }
    end
}

/// Reads what stands between brackets.
fn read_subscript(inner: &str) -> (r: Result<PathSegment, String>)
    ensures
        match r {
            Ok(segment) => subscript(inner@) == Ok::<SegmentView, Seq<char>>(segment@),
            Err(why) => subscript(inner@) == Err::<SegmentView, Seq<char>>(why@),
        },
{
    let cs = chars_of(inner);
    let n: usize = cs.len();
    if n == 0 {
        return Ok(PathSegment::Unnest);
    }
    if n >= 2 && ((cs[0] == '"' && cs[n - 1] == '"') || (cs[0] == '\'' && cs[n - 1] == '\'')) {
        return Ok(PathSegment::MapKey(substring(&cs, 1, n - 1)));
    }
    match parse_i64(inner) {
        Some(k) => if k < 0 {
            Ok(PathSegment::Index(k))
        } else if k < i64::MAX {
            Ok(PathSegment::Index(k + 1))
        } else {
            Err(cat3("can't parse bracket subscript [", inner, "]"))
        },
        None => Err(cat3("can't parse bracket subscript [", inner, "]")),
    }
}

/// Reads a path into its segments.
pub fn tokenize_path(path: &str) -> (r: Result<Vec<PathSegment>, String>)
    ensures
        match r {
            Ok(segments) => {
                &&& path_segments(path@) == Ok::<Seq<SegmentView>, Seq<char>>(
                    segment_views(segments@),
                )
                &&& segments@.len() > 0
                &&& segments@[0] is Field
            },
            Err(why) => path_segments(path@) == Err::<Seq<SegmentView>, Seq<char>>(why@),
        },
{
    let s = trim(path);
    let cs = chars_of(s.as_str());
    if cs.len() == 0 {
        return Err(copy_of("empty path"));
    }
    let start: usize = if cs[0] == '.' {
        1
    } else {
        0
    };
    let end = scan_ident(&cs, start);
    if end == start {
        return Err(complain_about_ident(&cs, start));
    }
    let mut out: Vec<PathSegment> = Vec::new();
    let first = PathSegment::Field(substring(&cs, start, end));
    let ghost first_view = first@;
    out.push(first);
    assert(segment_views(out@) =~= seq![first_view]);
    let mut i: usize = end;
    while i < cs.len()
        invariant
            i <= cs@.len(),
            cs@ == trimmed(path@),
            out@.len() > 0,
            out@[0] is Field,
            path_segments(path@) == segments_from(
                cs@,
                i as int,
                segment_views(out@),
                path@,
            ),
        decreases cs@.len() - i,
    {
        let ghost before = out@;
        if cs[i] == '.' {
            let end = scan_ident(&cs, i + 1);
            if end == i + 1 {
                return Err(complain_about_ident(&cs, i + 1));
            }
            let field = PathSegment::Field(substring(&cs, i + 1, end));
            let ghost v = field@;
            out.push(field);
            assert(segment_views(out@) =~= segment_views(before).push(v));
            i = end;
        } else if cs[i] == '[' {
            let bracket = chars_of("]");
            match find_chars(&cs, &bracket, i + 1) {
                Some(close) => {
                    proof {
                        reveal_strlit("]");
                        lemma_find_from_range(cs@, "]"@, i + 1);
                    }
                    let inner = trim(substring(&cs, i + 1, close).as_str());
                    match read_subscript(inner.as_str()) {
                        Ok(segment) => {
                            let ghost v = segment@;
                            out.push(segment);
                            assert(segment_views(out@) =~= segment_views(before).push(v));
                            i = close + 1;
                        },
                        Err(why) => {
                            return Err(why);
                        },
                    }
                },
                None => {
                    return Err(copy_of("unterminated '[' in path"));
                },
            }
        } else {
            let mut stray = String::new();
            stray.push(byte_at(&cs, i) as char);
            assert(stray@ =~= seq![lead_byte(cs@[i as int]) as char]);
            return Err(
                cat5("unexpected character '", stray.as_str(), "' in path '", path, "'"),
            );
        }
    }
    Ok(out)
}

// ─── rendering ──────────────────────────────────────────────────────────────
/// The SQL of the segments: a name, and each further step applied to what
/// stands before it.
pub open spec fn rendered(segments: Seq<SegmentView>) -> Seq<char>
    decreases segments.len(),
{
    if segments.len() == 0 {
        Seq::empty()
    } else {
        let base = rendered(segments.drop_last());
        match segments.last() {
            SegmentView::Field(name) => if segments.len() == 1 {
                name
            } else {
                base + "."@ + name
            },
            SegmentView::Index(n) => base + "["@ + signed_decimal(n) + "]"@,
            SegmentView::MapKey(key) => "element_at("@ + base + ", '"@ + quotes_doubled(key)
                + "')[1]"@,
            SegmentView::Unnest => "UNNEST("@ + base + ")"@,
        }
    }
}

/// Renders segments as SQL. The first one is a name.
pub fn render_path(segments: &Vec<PathSegment>) -> (r: String)
    requires
        segments@.len() > 0,
        segments@[0] is Field,
    ensures
        r@ == rendered(segment_views(segments@)),
{
    let mut sql = String::new();
    let mut i: usize = 0;
    while i < segments.len()
        invariant
            i <= segments@.len(),
            segments@.len() > 0,
            segments@[0] is Field,
            sql@ == rendered(segment_views(segments@).take(i as int)),
        decreases segments@.len() - i,
    {
        let ghost views = segment_views(segments@);
        assert(views.take(i + 1).drop_last() =~= views.take(i as int));
        assert(views.take(i + 1).last() == segments@[i as int]@);
        match &segments[i] {
            PathSegment::Field(name) => {
                if i == 0 {
                    sql = name.clone();
                } else {
                    sql = cat3(sql.as_str(), ".", name.as_str());
                }
            },
            PathSegment::Index(n) => {
                sql = cat4(sql.as_str(), "[", show_signed(*n as i128).as_str(), "]");
            },
            PathSegment::MapKey(key) => {
                sql =
                cat5(
                    "element_at(",
                    sql.as_str(),
                    ", '",
                    sql_escape(key.as_str()).as_str(),
                    "')[1]",
                );
            },
            PathSegment::Unnest => {
                sql = cat3("UNNEST(", sql.as_str(), ")");
            },
        }
        i += 1;
    }
    assert(segment_views(segments@).take(segments@.len() as int) =~= segment_views(segments@));
    sql
}

/// The SQL of a path, or the complaint about it.
pub open spec fn path_sql(path: Seq<char>) -> Result<Seq<char>, Seq<char>> {
    match path_segments(path) {
        Ok(segments) => Ok(rendered(segments)),
        Err(why) => Err(why),
    }
}

/// Translates a path to SQL.
pub fn path_to_sql(path: &str) -> (r: Result<String, String>)
    ensures
        match r {
            Ok(sql) => path_sql(path@) == Ok::<Seq<char>, Seq<char>>(sql@),
            Err(why) => path_sql(path@) == Err::<Seq<char>, Seq<char>>(why@),
        },
{
    match tokenize_path(path) {
        Ok(segments) => Ok(render_path(&segments)),
        Err(why) => Err(why),
    }
}

// ─── aliases ────────────────────────────────────────────────────────────────
/// The part of an alias that a segment gives, none for `[]`.
pub open spec fn alias_part(segment: SegmentView) -> Option<Seq<char>> {
    match segment {
        SegmentView::Field(name) => Some(name),
        SegmentView::Index(n) => Some(
            if n > 0 {
                decimal((n - 1) as nat)
            } else if n == 0 {
                decimal(0)
            } else {
                "neg"@ + decimal((-n) as nat)
            },
        ),
        SegmentView::MapKey(key) => Some(safe_alias(key)),
        SegmentView::Unnest => None,
    }
}

/// The alias parts of the segments, in order.
pub open spec fn alias_parts(segments: Seq<SegmentView>) -> Seq<Seq<char>>
    decreases segments.len(),
{
    if segments.len() == 0 {
        Seq::empty()
    } else {
        let parts = alias_parts(segments.drop_last());
        match alias_part(segments.last()) {
            Some(part) => parts.push(part),
            None => parts,
        }
    }
}

/// Some segment is written with brackets.
pub open spec fn has_bracket(segments: Seq<SegmentView>) -> bool {
    exists|i: int| 0 <= i < segments.len() && !(#[trigger] segments[i] is Field)
}

/// The alias of a path: its parts joined by `_` where it has a bracket, none
/// for plain names and struct fields.
pub open spec fn path_alias(path: Seq<char>) -> Option<Seq<char>> {
    match path_segments(path) {
        Ok(segments) => if has_bracket(segments) {
            let alias = joined(alias_parts(segments), "_"@);
            if alias.len() == 0 {
                None
            } else {
                Some(alias)
            }
        } else {
            None
        },
        Err(_) => None,
    }
}

/// Derives a plain column name from a path with brackets.
pub fn alias_for_path(path: &str) -> (r: Option<String>)
    ensures
        match r {
            Some(alias) => path_alias(path@) == Some(alias@),
            None => path_alias(path@) is None,
        },
{
    let segments = match tokenize_path(path) {
        Ok(segments) => segments,
        Err(_) => {
            return None;
        },
    };
    let ghost views = segment_views(segments@);
    let mut bracket = false;
    let mut parts: Vec<String> = Vec::new();
    let mut i: usize = 0;
    assert(views.take(0) =~= Seq::empty());
    assert(texts(parts@) =~= Seq::empty());
    while i < segments.len()
        invariant
            i <= segments@.len(),
            views == segment_views(segments@),
            bracket == exists|k: int| 0 <= k < i && !(#[trigger] views[k] is Field),
            texts(parts@) == alias_parts(views.take(i as int)),
        decreases segments@.len() - i,
    {
        let ghost before = parts@;
        assert(views.take(i + 1).drop_last() =~= views.take(i as int));
        assert(views.take(i + 1).last() == views[i as int]);
        match &segments[i] {
            PathSegment::Field(name) => {
                parts.push(name.clone());
            },
            PathSegment::Index(n) => {
                assert(!(views[i as int] is Field));
                bracket = true;
                let n: i128 = *n as i128;
                let part = if n > 0 {
                    show((n - 1) as u128)
                } else if n == 0 {
                    show(0)
                } else {
                    cat2("neg", show((-n) as u128).as_str())
                };
                parts.push(part);
            },
            PathSegment::MapKey(key) => {
                assert(!(views[i as int] is Field));
                bracket = true;
                parts.push(alias_safe(key.as_str()));
            },
            PathSegment::Unnest => {
                assert(!(views[i as int] is Field));
                bracket = true;
            },
        }
        proof {
            if parts@.len() > before.len() {
                assert(texts(parts@) =~= texts(before).push(parts@.last()@));
            }
        }
        i += 1;
    }
    assert(views.take(segments@.len() as int) =~= views);
    if !bracket {
        return None;
    }
    assert(has_bracket(views));
    let alias = join(&parts, "_");
    if alias.as_str().is_empty() {
        None
    } else {
        Some(alias)
    }
}

// ─── path functions ─────────────────────────────────────────────────────────
/// The trimmed argument of the call `head arg )`, where `s` is one. The head,
/// in lower case, ends with the opening parenthesis.
pub open spec fn call_argument(s: Seq<char>, head: Seq<char>) -> Option<Seq<char>> {
    if has_prefix(lowered(s), head) && s.len() > head.len() && s.last() == ')' {
        Some(trimmed(s.subrange(head.len() as int, s.len() - 1)))
    } else {
        None
    }
}

/// Splits off the argument of a call.
fn argument_of(s: &str, head: &str) -> (r: Option<String>)
    ensures
        match r {
            Some(arg) => call_argument(s@, head@) == Some(arg@),
            None => call_argument(s@, head@) is None,
        },
{
    let low = lower(s);
    if !starts_with(low.as_str(), head) {
        return None;
    }
    let cs = chars_of(s);
    let n: usize = cs.len();
    let h: usize = chars_of(head).len();
    if n > h && cs[n - 1] == ')' {
        Some(trim(substring(&cs, h, n - 1).as_str()))
    } else {
        None
    }
}

/// The alias part of a path function's argument.
pub open spec fn argument_alias(arg: Seq<char>) -> Seq<char> {
    if has_prefix(arg, "."@) {
        match path_alias(arg) {
            Some(alias) => alias,
            None => safe_alias(arg),
        }
    } else {
        safe_alias(arg)
    }
}

/// Names the argument of a path function.
fn name_argument(arg: &str) -> (r: String)
    ensures
        r@ == argument_alias(arg@),
{
    if starts_with(arg, ".") {
        match alias_for_path(arg) {
            Some(alias) => alias,
            None => alias_safe(arg),
        }
    } else {
        alias_safe(arg)
    }
}

/// The alias of a path function call: the function's name, `_` and the
/// argument's name. `len` and `length` are one function.
pub open spec fn function_alias(expr: Seq<char>) -> Option<Seq<char>> {
    let s = trimmed(expr);
    if call_argument(s, "len("@) is Some {
        Some("len_"@ + argument_alias(call_argument(s, "len("@)->0))
    } else if call_argument(s, "length("@) is Some {
        Some("len_"@ + argument_alias(call_argument(s, "length("@)->0))
    } else if call_argument(s, "keys("@) is Some {
        Some("keys_"@ + argument_alias(call_argument(s, "keys("@)->0))
    } else if call_argument(s, "values("@) is Some {
        Some("values_"@ + argument_alias(call_argument(s, "values("@)->0))
    } else {
        None
    }
}

/// Derives a plain column name from a path function call.
pub fn path_function_alias(expr: &str) -> (r: Option<String>)
    ensures
        match r {
            Some(alias) => function_alias(expr@) == Some(alias@),
            None => function_alias(expr@) is None,
        },
{
    let s = trim(expr);
    if let Some(arg) = argument_of(s.as_str(), "len(") {
        return Some(cat2("len_", name_argument(arg.as_str()).as_str()));
    }
    if let Some(arg) = argument_of(s.as_str(), "length(") {
        return Some(cat2("len_", name_argument(arg.as_str()).as_str()));
    }
    if let Some(arg) = argument_of(s.as_str(), "keys(") {
        return Some(cat2("keys_", name_argument(arg.as_str()).as_str()));
    }
    if let Some(arg) = argument_of(s.as_str(), "values(") {
        return Some(cat2("values_", name_argument(arg.as_str()).as_str()));
    }
    None
}

/// A call of `name` on a path, or on an expression where the argument is none.
pub open spec fn call_sql(name: Seq<char>, arg: Seq<char>) -> Seq<char> {
    match path_sql(arg) {
        Ok(sql) => name + sql + ")"@,
        Err(_) => name + expression_sql(arg) + ")"@,
    }
}

fn render_call(name: &str, arg: &str) -> (r: String)
    ensures
        r@ == call_sql(name@, arg@),
{
    match path_to_sql(arg) {
        Ok(sql) => cat3(name, sql.as_str(), ")"),
        Err(_) => cat3(name, rewrite_expression(arg).as_str(), ")"),
    }
}

/// The SQL of a path function call.
pub open spec fn function_sql(expr: Seq<char>) -> Option<Seq<char>> {
    let s = trimmed(expr);
    if call_argument(s, "len("@) is Some {
        Some(call_sql("len("@, call_argument(s, "len("@)->0))
    } else if call_argument(s, "length("@) is Some {
        Some(call_sql("len("@, call_argument(s, "length("@)->0))
    } else if call_argument(s, "keys("@) is Some {
        Some(call_sql("map_keys("@, call_argument(s, "keys("@)->0))
    } else if call_argument(s, "values("@) is Some {
        Some(call_sql("map_values("@, call_argument(s, "values("@)->0))
    } else {
        None
    }
}

/// Translates `len(.x)`, `length(.x)`, `keys(.x)` and `values(.x)` to SQL.
pub fn rewrite_path_function(expr: &str) -> (r: Option<String>)
    ensures
        match r {
            Some(sql) => function_sql(expr@) == Some(sql@),
            None => function_sql(expr@) is None,
        },
{
    let s = trim(expr);
    if let Some(arg) = argument_of(s.as_str(), "len(") {
        return Some(render_call("len(", arg.as_str()));
    }
    if let Some(arg) = argument_of(s.as_str(), "length(") {
        return Some(render_call("len(", arg.as_str()));
    }
    if let Some(arg) = argument_of(s.as_str(), "keys(") {
        return Some(render_call("map_keys(", arg.as_str()));
    }
    if let Some(arg) = argument_of(s.as_str(), "values(") {
        return Some(render_call("map_values(", arg.as_str()));
    }
    None
}

// ─── laws ───────────────────────────────────────────────────────────────────
/// A list index is read in a path's counting and written in SQL's, and the
/// alias shows it as the path does.
pub proof fn index_counts_from_zero_in_paths(inner: Seq<char>, n: int)
    requires
        parsed_signed(inner, i64::MAX as int) == Some(n),
        n < i64::MAX,
    ensures
        ({
            let sql_index = if n < 0 {
                n
            } else {
                n + 1
            };
            &&& subscript(inner) == Ok::<SegmentView, Seq<char>>(SegmentView::Index(sql_index))
            &&& alias_part(SegmentView::Index(sql_index)) == Some(
                if n < 0 {
                    "neg"@ + decimal((-n) as nat)
                } else {
                    decimal(n as nat)
                },
            )
        }),
{
    if inner[0] != '-' && inner[0] != '+' {
        assert(is_digit(inner[0]));
    }
}

proof fn lemma_ident_end_shift(c: char, s: Seq<char>, i: int)
    requires
        0 <= i,
    ensures
        ident_end(seq![c] + s, i + 1) == ident_end(s, i) + 1,
    decreases s.len() - i,
{
    if i < s.len() && is_word(s[i]) {
        lemma_ident_end_shift(c, s, i + 1);
    }
}

proof fn lemma_segments_shift(
    c: char,
    s: Seq<char>,
    i: int,
    acc: Seq<SegmentView>,
    path: Seq<char>,
    dotted: Seq<char>,
)
    requires
        0 <= i,
    ensures
        segments_from(s, i, acc, path) is Ok == segments_from(seq![c] + s, i + 1, acc, dotted) is Ok,
        segments_from(s, i, acc, path) matches Ok(v) ==> segments_from(
            seq![c] + s,
            i + 1,
            acc,
            dotted,
        ) == Ok::<Seq<SegmentView>, Seq<char>>(v),
    decreases s.len() - i,
{
    let t = seq![c] + s;
    if i < s.len() {
        assert(t[i + 1] == s[i]);
        if s[i] == '.' {
            let end = ident_end(s, i + 1);
            lemma_ident_end_range(s, i + 1);
            lemma_ident_end_shift(c, s, i + 1);
            assert(t.subrange(i + 2, end + 1) =~= s.subrange(i + 1, end));
            if end != i + 1 {
                let next = acc.push(SegmentView::Field(s.subrange(i + 1, end)));
                lemma_segments_shift(c, s, end, next, path, dotted);
            }
        } else if s[i] == '[' {
            lemma_find_behind(seq![c], s, "]"@, i + 1);
            lemma_find_from_range(s, "]"@, i + 1);
            reveal_strlit("]");
            match find_from(s, "]"@, i + 1) {
                Some(close) => {
                    assert(t.subrange(i + 2, close + 1) =~= s.subrange(i + 1, close));
                    match subscript(trimmed(s.subrange(i + 1, close))) {
                        Ok(segment) => {
                            lemma_segments_shift(c, s, close + 1, acc.push(segment), path, dotted);
                        },
                        Err(_) => {},
                    }
                },
                None => {},
            }
        }
    }
}

/// The dot before the first name of a path may be left out.
pub proof fn leading_dot_is_optional(path: Seq<char>)
    requires
        path.len() > 0,
        is_word(path[0]),
        trimmed(path) == path,
    ensures
        path_segments("."@ + path) is Ok == path_segments(path) is Ok,
        path_segments(path) is Ok ==> path_segments("."@ + path) == path_segments(path),
{
    reveal_strlit(".");
    let dotted = "."@ + path;
    assert(dotted =~= seq!['.'] + path);
    assert(dotted.last() == path.last());
    lemma_trimmed_ends(path);
    assert(trimmed(dotted) == dotted);
    let end = ident_end(path, 0);
    lemma_ident_end_shift('.', path, 0);
    lemma_ident_end_range(path, 0);
    assert(dotted.subrange(1, end + 1) =~= path.subrange(0, end));
    let first = seq![SegmentView::Field(path.subrange(0, end))];
    lemma_segments_shift('.', path, end, first, path, dotted);
}

proof fn lemma_trimmed_ends(s: Seq<char>)
    requires
        s.len() > 0,
        !is_space(s[0]),
        trimmed(s) == s,
    ensures
        !is_space(s.last()),
{
    if is_space(s.last()) {
        lemma_trim_end_shrinks(s.drop_last());
    }
}

proof fn lemma_trim_end_shrinks(s: Seq<char>)
    ensures
        trim_end(s).len() <= s.len(),
    decreases s.len(),
{
    if s.len() > 0 && is_space(s.last()) {
        lemma_trim_end_shrinks(s.drop_last());
    }
}

/// A name: at least one character, all of them letters, digits or underscores.
pub open spec fn is_name(s: Seq<char>) -> bool {
    s.len() > 0 && all_word(s)
}

/// The names of struct fields as segments.
pub open spec fn fields(names: Seq<Seq<char>>) -> Seq<SegmentView> {
    Seq::new(names.len(), |i: int| SegmentView::Field(names[i]))
}

proof fn lemma_ident_end_at(s: Seq<char>, i: int, end: int)
    requires
        0 <= i <= end <= s.len(),
        forall|k: int| i <= k < end ==> is_word(#[trigger] s[k]),
        end < s.len() ==> !is_word(s[end]),
    ensures
        ident_end(s, i) == end,
    decreases end - i,
{
    if i < end {
        lemma_ident_end_at(s, i + 1, end);
    }
}

/// The first `n` names, each behind a dot.
spec fn dotted(names: Seq<Seq<char>>, n: int) -> Seq<char>
    decreases n,
{
    if n <= 0 {
        Seq::empty()
    } else {
        dotted(names, n - 1) + "."@ + names[n - 1]
    }
}

proof fn lemma_dotted_prefix(names: Seq<Seq<char>>, n: int, m: int)
    requires
        0 <= n <= m <= names.len(),
    ensures
        dotted(names, n).len() <= dotted(names, m).len(),
        dotted(names, m).take(dotted(names, n).len() as int) == dotted(names, n),
    decreases m - n,
{
    if n < m {
        lemma_dotted_prefix(names, n, m - 1);
        let a = dotted(names, n);
        let b = dotted(names, m - 1);
        let c = dotted(names, m);
        assert(c.take(a.len() as int) =~= b.take(a.len() as int));
    } else {
        assert(dotted(names, m).take(dotted(names, n).len() as int) =~= dotted(names, n));
    }
}

proof fn lemma_dotted_segments(names: Seq<Seq<char>>, n: int, path: Seq<char>)
    requires
        0 <= n <= names.len(),
        forall|k: int| 0 <= k < names.len() ==> is_name(#[trigger] names[k]),
    ensures
        segments_from(
            dotted(names, names.len() as int),
            dotted(names, n).len() as int,
            fields(names).take(n),
            path,
        ) == Ok::<Seq<SegmentView>, Seq<char>>(fields(names)),
    decreases names.len() - n,
{
    let s = dotted(names, names.len() as int);
    let i = dotted(names, n).len() as int;
    if n == names.len() {
        assert(fields(names).take(n) =~= fields(names));
    } else {
        reveal_strlit(".");
        let total = names.len() as int;
        lemma_dotted_prefix(names, n + 1, total);
        let upto = dotted(names, n + 1);
        let end = upto.len() as int;
        assert(is_name(names[n]));
        assert forall|k: int| 0 <= k < end implies s[k] == upto[k] by {
            assert(s.take(end)[k] == upto[k]);
        }
        assert(s[i] == '.');
        assert forall|k: int| i + 1 <= k < end implies is_word(#[trigger] s[k]) by {
            assert(s[k] == upto[k]);
            assert(upto[k] == names[n][k - i - 1]);
        }
        if end < s.len() {
            assert(n + 1 < total);
            lemma_dotted_prefix(names, n + 2, total);
            let more = dotted(names, n + 2);
            assert(s.take(more.len() as int)[end] == more[end]);
            assert(more[end] == '.');
        }
        lemma_ident_end_at(s, i + 1, end);
        assert(s.subrange(i + 1, end) =~= names[n]);
        assert(fields(names).take(n).push(SegmentView::Field(names[n])) =~= fields(names).take(
            n + 1,
        ));
        lemma_dotted_segments(names, n + 1, path);
    }
}

proof fn lemma_rendered_fields(names: Seq<Seq<char>>)
    requires
        names.len() > 0,
    ensures
        rendered(fields(names)) == joined(names, "."@),
    decreases names.len(),
{
    let v = fields(names);
    assert(v.drop_last() =~= fields(names.drop_last()));
    if names.len() > 1 {
        lemma_rendered_fields(names.drop_last());
    }
}

proof fn lemma_dotted_is_joined(names: Seq<Seq<char>>)
    requires
        names.len() > 0,
    ensures
        dotted(names, names.len() as int) == "."@ + joined(names, "."@),
    decreases names.len(),
{
    let n = names.len() as int;
    if n == 1 {
        assert(dotted(names, 0) =~= Seq::empty());
        assert(dotted(names, 1) =~= "."@ + names[0]);
    } else {
        let front = names.drop_last();
        lemma_dotted_is_joined(front);
        lemma_dotted_of_front(names, n - 1);
        assert(dotted(names, n) =~= "."@ + joined(names, "."@));
    }
}

proof fn lemma_dotted_of_front(names: Seq<Seq<char>>, n: int)
    requires
        0 <= n < names.len(),
    ensures
        dotted(names, n) == dotted(names.drop_last(), n),
    decreases n,
{
    if n > 0 {
        lemma_dotted_of_front(names, n - 1);
    }
}

/// A path of plain names is its own SQL, without the leading dot, and needs no
/// alias.
pub proof fn struct_paths_stay_as_they_are(names: Seq<Seq<char>>)
    requires
        names.len() > 0,
        forall|k: int| 0 <= k < names.len() ==> is_name(#[trigger] names[k]),
    ensures
        path_sql("."@ + joined(names, "."@)) == Ok::<Seq<char>, Seq<char>>(joined(names, "."@)),
        path_alias("."@ + joined(names, "."@)) is None,
{
    let total = names.len() as int;
    let path = "."@ + joined(names, "."@);
    let s = dotted(names, total);
    lemma_dotted_is_joined(names);
    reveal_strlit(".");
    assert(is_name(names[0]) && is_name(names[total - 1]));
    assert(s.last() == names[total - 1].last()) by {
        assert(s == dotted(names, total - 1) + "."@ + names[total - 1]);
    }
    assert(is_word(names[total - 1][names[total - 1].len() - 1]));
    assert(s[0] == '.');
    assert(trimmed(s) == s);
    lemma_dotted_segments(names, 1, path);
    lemma_dotted_prefix(names, 1, total);
    let first = dotted(names, 1);
    let end = first.len() as int;
    assert(dotted(names, 0) =~= Seq::empty());
    assert(first =~= "."@ + names[0]);
    assert forall|k: int| 0 <= k < end implies s[k] == first[k] by {
        assert(s.take(end)[k] == first[k]);
    }
    assert forall|k: int| 1 <= k < end implies is_word(#[trigger] s[k]) by {
        assert(s[k] == first[k]);
        assert(first[k] == names[0][k - 1]);
    }
    if end < s.len() {
        assert(total > 1);
        lemma_dotted_prefix(names, 2, total);
        let more = dotted(names, 2);
        assert(s.take(more.len() as int)[end] == more[end]);
    }
    lemma_ident_end_at(s, 1, end);
    assert(s.subrange(1, end) =~= names[0]);
    assert(fields(names).take(1) =~= seq![SegmentView::Field(names[0])]);
    lemma_rendered_fields(names);
    assert(!has_bracket(fields(names)));
}

/// The fields of a path are names.
spec fn fields_are_names(segments: Seq<SegmentView>) -> bool {
    forall|i: int|
        0 <= i < segments.len() ==> (#[trigger] segments[i] matches SegmentView::Field(name)
            ==> is_name(name))
}

proof fn lemma_ident_is_name(s: Seq<char>, i: int)
    requires
        0 <= i <= s.len(),
    ensures
        forall|k: int| i <= k < ident_end(s, i) ==> is_word(#[trigger] s[k]),
    decreases s.len() - i,
{
    if i < s.len() && is_word(s[i]) {
        lemma_ident_is_name(s, i + 1);
    }
}

proof fn lemma_subscript_is_no_field(inner: Seq<char>)
    ensures
        subscript(inner) matches Ok(segment) ==> !(segment is Field),
{
}

proof fn lemma_segments_have_names(s: Seq<char>, i: int, acc: Seq<SegmentView>, path: Seq<char>)
    requires
        0 <= i,
        fields_are_names(acc),
    ensures
        segments_from(s, i, acc, path) matches Ok(v) ==> fields_are_names(v),
    decreases s.len() - i,
{
    if i < s.len() {
        if s[i] == '.' {
            let end = ident_end(s, i + 1);
            lemma_ident_end_range(s, i + 1);
            lemma_ident_is_name(s, i + 1);
            if end != i + 1 {
                let name = s.subrange(i + 1, end);
                assert(is_name(name));
                lemma_segments_have_names(s, end, acc.push(SegmentView::Field(name)), path);
            }
        } else if s[i] == '[' {
            reveal_strlit("]");
            lemma_find_from_range(s, "]"@, i + 1);
            if let Some(close) = find_from(s, "]"@, i + 1) {
                let inner = trimmed(s.subrange(i + 1, close));
                lemma_subscript_is_no_field(inner);
                if let Ok(segment) = subscript(inner) {
                    lemma_segments_have_names(s, close + 1, acc.push(segment), path);
                }
            }
        }
    }
}

proof fn lemma_path_has_names(path: Seq<char>)
    ensures
        path_segments(path) matches Ok(v) ==> fields_are_names(v),
{
    let s = trimmed(path);
    if s.len() > 0 {
        let start = if s[0] == '.' {
            1int
        } else {
            0
        };
        let end = ident_end(s, start);
        lemma_ident_end_range(s, start);
        lemma_ident_is_name(s, start);
        if end != start {
            let name = s.subrange(start, end);
            assert(is_name(name));
            lemma_segments_have_names(s, end, seq![SegmentView::Field(name)], path);
        }
    }
}

proof fn lemma_decimal_is_word(n: nat)
    ensures
        all_word(decimal(n)),
{
    decimal_reads_back(n);
    let d = decimal(n);
    assert forall|i: int| 0 <= i < d.len() implies is_word(#[trigger] d[i]) by {
        assert(is_digit(d[i]));
    }
}

proof fn lemma_alias_parts_are_words(segments: Seq<SegmentView>)
    requires
        fields_are_names(segments),
    ensures
        forall|k: int|
            0 <= k < alias_parts(segments).len() ==> all_word(#[trigger] alias_parts(segments)[k]),
    decreases segments.len(),
{
    if segments.len() > 0 {
        let front = segments.drop_last();
        assert forall|i: int| 0 <= i < front.len() implies (#[trigger] front[i] matches
            SegmentView::Field(name) ==> is_name(name)) by {
            assert(front[i] == segments[i]);
        }
        lemma_alias_parts_are_words(front);
        let last = segments[segments.len() - 1];
        match last {
            SegmentView::Field(_) => {},
            SegmentView::Index(n) => {
                reveal_strlit("neg");
                if n > 0 {
                    lemma_decimal_is_word((n - 1) as nat);
                } else if n == 0 {
                    lemma_decimal_is_word(0);
                } else {
                    lemma_decimal_is_word((-n) as nat);
                }
            },
            SegmentView::MapKey(key) => {
                safe_alias_is_a_name(key);
            },
            SegmentView::Unnest => {},
        }
        if let Some(part) = alias_part(last) {
            assert(all_word(part));
        }
        let all = alias_parts(segments);
        assert forall|k: int| 0 <= k < all.len() implies all_word(#[trigger] all[k]) by {
            if k < alias_parts(front).len() {
                assert(all[k] == alias_parts(front)[k]);
            }
        }
    }
}

/// The alias of a path holds only letters, digits and underscores.
pub proof fn path_alias_is_a_name(path: Seq<char>)
    requires
        path_alias(path) is Some,
    ensures
        is_name(path_alias(path)->0),
{
    lemma_path_has_names(path);
    let segments = path_segments(path)->Ok_0;
    lemma_alias_parts_are_words(segments);
    reveal_strlit("_");
    lemma_joined_keeps_words(alias_parts(segments), "_"@);
}

/// A bracket opens in `s` at or after `i`.
spec fn bracket_from(s: Seq<char>, i: int) -> bool {
    exists|k: int| i <= k < s.len() && #[trigger] s[k] == '['
}

proof fn lemma_words_hold_no_bracket(s: Seq<char>, i: int, end: int)
    requires
        0 <= i <= end <= s.len(),
        forall|k: int| i <= k < end ==> #[trigger] s[k] != '[',
    ensures
        bracket_from(s, i) == bracket_from(s, end),
{
    if bracket_from(s, i) {
        let k = choose|k: int| i <= k < s.len() && #[trigger] s[k] == '[';
        assert(k >= end);
    }
}

proof fn lemma_segments_show_brackets(
    s: Seq<char>,
    i: int,
    acc: Seq<SegmentView>,
    path: Seq<char>,
)
    requires
        0 <= i <= s.len(),
        acc.len() > 0,
    ensures
        segments_from(s, i, acc, path) matches Ok(v) ==> v.len() > 0 && v[0] == acc[0]
            && has_bracket(v) == (has_bracket(acc) || bracket_from(s, i)),
    decreases s.len() - i,
{
    if i < s.len() {
        if s[i] == '.' {
            let end = ident_end(s, i + 1);
            lemma_ident_end_range(s, i + 1);
            lemma_ident_is_name(s, i + 1);
            if end != i + 1 {
                let next = acc.push(SegmentView::Field(s.subrange(i + 1, end)));
                assert forall|k: int| i <= k < end implies #[trigger] s[k] != '[' by {
                    if k > i {
                        assert(is_word(s[k]));
                    }
                }
                lemma_words_hold_no_bracket(s, i, end);
                lemma_pushed_bracket(acc, next.last());
                lemma_segments_show_brackets(s, end, next, path);
            }
        } else if s[i] == '[' {
            reveal_strlit("]");
            lemma_find_from_range(s, "]"@, i + 1);
            if let Some(close) = find_from(s, "]"@, i + 1) {
                let inner = trimmed(s.subrange(i + 1, close));
                lemma_subscript_is_no_field(inner);
                if let Ok(segment) = subscript(inner) {
                    lemma_pushed_bracket(acc, segment);
                    lemma_segments_show_brackets(s, close + 1, acc.push(segment), path);
                }
            }
        }
    }
}

proof fn lemma_pushed_bracket(acc: Seq<SegmentView>, segment: SegmentView)
    ensures
        has_bracket(acc.push(segment)) == (has_bracket(acc) || !(segment is Field)),
{
    let all = acc.push(segment);
    if has_bracket(acc) {
        let k = choose|k: int| 0 <= k < acc.len() && !(#[trigger] acc[k] is Field);
        assert(all[k] == acc[k]);
    }
    if !(segment is Field) {
        assert(all[acc.len() as int] == segment);
    }
    if has_bracket(all) {
        let k = choose|k: int| 0 <= k < all.len() && !(#[trigger] all[k] is Field);
        if k < acc.len() {
            assert(all[k] == acc[k]);
        }
    }
}

proof fn lemma_first_alias_part(segments: Seq<SegmentView>)
    requires
        segments.len() > 0,
        segments[0] is Field,
    ensures
        alias_parts(segments).len() > 0,
        alias_parts(segments)[0] == segments[0]->Field_0,
    decreases segments.len(),
{
    let front = segments.drop_last();
    if front.len() > 0 {
        assert(front[0] == segments[0]);
        lemma_first_alias_part(front);
    } else {
        assert(alias_parts(front) =~= Seq::empty());
        assert(segments.last() == segments[0]);
    }
}

proof fn lemma_joined_is_not_empty(parts: Seq<Seq<char>>, sep: Seq<char>)
    requires
        parts.len() > 0,
        parts[0].len() > 0,
    ensures
        joined(parts, sep).len() > 0,
    decreases parts.len(),
{
    if parts.len() > 1 {
        assert(parts.drop_last()[0] == parts[0]);
        lemma_joined_is_not_empty(parts.drop_last(), sep);
    }
}

/// Of the paths, those with brackets have an alias, and no others.
pub proof fn bracket_paths_have_an_alias(path: Seq<char>)
    requires
        path_segments(path) is Ok,
    ensures
        path_alias(path) is Some == path.contains('['),
{
    let s = trimmed(path);
    let start = if s[0] == '.' {
        1int
    } else {
        0
    };
    let end = ident_end(s, start);
    lemma_ident_end_range(s, start);
    lemma_ident_is_name(s, start);
    let name = s.subrange(start, end);
    let first = seq![SegmentView::Field(name)];
    assert(!has_bracket(first));
    lemma_segments_show_brackets(s, end, first, path);
    assert forall|k: int| 0 <= k < end implies #[trigger] s[k] != '[' by {
        if k >= start {
            assert(is_word(s[k]));
        }
    }
    lemma_words_hold_no_bracket(s, 0, end);
    lemma_trimmed_contains(path, '[');
    assert(s.contains('[') == bracket_from(s, 0)) by {
        if s.contains('[') {
            let k = choose|k: int| 0 <= k < s.len() && s[k] == '[';
            assert(s[k] == '[');
        }
    }
    let segments = path_segments(path)->Ok_0;
    lemma_first_alias_part(segments);
    lemma_joined_is_not_empty(alias_parts(segments), "_"@);
}

/// The alias of a path function call holds only letters, digits and underscores.
pub proof fn function_alias_is_a_name(expr: Seq<char>)
    requires
        function_alias(expr) is Some,
    ensures
        all_word(function_alias(expr)->0),
{
    let s = trimmed(expr);
    reveal_strlit("len_");
    reveal_strlit("keys_");
    reveal_strlit("values_");
    lemma_argument_alias_is_words(call_argument(s, "len("@));
    lemma_argument_alias_is_words(call_argument(s, "length("@));
    lemma_argument_alias_is_words(call_argument(s, "keys("@));
    lemma_argument_alias_is_words(call_argument(s, "values("@));
}

proof fn lemma_argument_alias_is_words(arg: Option<Seq<char>>)
    ensures
        arg is Some ==> all_word(argument_alias(arg->0)),
{
    if let Some(a) = arg {
        safe_alias_is_a_name(a);
        if path_alias(a) is Some {
            path_alias_is_a_name(a);
        }
    }
}

/// A path of one name is that name in SQL.
pub proof fn single_names_stay_as_they_are(name: Seq<char>)
    requires
        is_name(name),
    ensures
        path_sql("."@ + name) == Ok::<Seq<char>, Seq<char>>(name),
        path_sql(name) == Ok::<Seq<char>, Seq<char>>(name),
        path_alias("."@ + name) is None,
{
    struct_paths_stay_as_they_are(seq![name]);
    assert(joined(seq![name], "."@) == name);
    assert(is_word(name[0]) && is_word(name[name.len() - 1]));
    assert(trimmed(name) == name);
    lemma_ident_end_at(name, 0, name.len() as int);
    assert(name.subrange(0, name.len() as int) =~= name);
    let segments = seq![SegmentView::Field(name)];
    assert(segments.drop_last() =~= Seq::empty());
    assert(path_segments(name) == Ok::<Seq<SegmentView>, Seq<char>>(segments));
    assert(rendered(segments) == name);
}

/// Each step of a path is applied to the SQL of what stands before it: a field
/// behind a dot, an index in brackets, a key as the first match in a map, and an
/// exploded list as a call.
pub proof fn steps_apply_to_what_stands_before(
    segments: Seq<SegmentView>,
    name: Seq<char>,
    n: int,
)
    requires
        segments.len() > 0,
    ensures
        rendered(segments.push(SegmentView::Field(name))) == rendered(segments) + "."@ + name,
        rendered(segments.push(SegmentView::Index(n))) == rendered(segments) + "["@
            + signed_decimal(n) + "]"@,
        rendered(segments.push(SegmentView::MapKey(name))) == "element_at("@ + rendered(segments)
            + ", '"@ + quotes_doubled(name) + "')[1]"@,
        rendered(segments.push(SegmentView::Unnest)) == "UNNEST("@ + rendered(segments) + ")"@,
{
    assert(segments.push(SegmentView::Field(name)).drop_last() =~= segments);
    assert(segments.push(SegmentView::Index(n)).drop_last() =~= segments);
    assert(segments.push(SegmentView::MapKey(name)).drop_last() =~= segments);
    assert(segments.push(SegmentView::Unnest).drop_last() =~= segments);
}

/// The text starts and ends with something other than white space.
pub open spec fn is_tight(s: Seq<char>) -> bool {
    s.len() > 0 && !is_space(s[0]) && !is_space(s[s.len() - 1])
}

proof fn lemma_ident_end_before(s: Seq<char>, t: Seq<char>, i: int)
    requires
        0 <= i <= s.len(),
        t.len() > 0,
        !is_word(t[0]),
    ensures
        ident_end(s + t, i) == ident_end(s, i),
    decreases s.len() - i,
{
    let all = s + t;
    if i < s.len() {
        assert(all[i] == s[i]);
        if is_word(s[i]) {
            lemma_ident_end_before(s, t, i + 1);
        }
    } else {
        assert(all[i] == t[0]);
    }
}

proof fn lemma_find_before(s: Seq<char>, t: Seq<char>, c: char, i: int)
    requires
        0 <= i <= s.len(),
        find_from(s, seq![c], i) is Some,
    ensures
        find_from(s + t, seq![c], i) == find_from(s, seq![c], i),
    decreases s.len() - i,
{
    let all = s + t;
    lemma_find_from_range(s, seq![c], i);
    lemma_find_from_range(all, seq![c], i);
    if i < s.len() {
        assert(all.subrange(i, i + 1) =~= s.subrange(i, i + 1));
        if !occurs_at(s, seq![c], i) {
            lemma_find_before(s, t, c, i + 1);
        }
    } else {
        assert(s.subrange(i, i) =~= Seq::empty());
    }
}

proof fn lemma_segments_go_on(
    s: Seq<char>,
    t: Seq<char>,
    i: int,
    acc: Seq<SegmentView>,
    path: Seq<char>,
    longer: Seq<char>,
)
    requires
        0 <= i <= s.len(),
        t.len() > 0,
        !is_word(t[0]),
        segments_from(s, i, acc, path) is Ok,
    ensures
        segments_from(s + t, i, acc, longer) == segments_from(
            s + t,
            s.len() as int,
            segments_from(s, i, acc, path)->Ok_0,
            longer,
        ),
    decreases s.len() - i,
{
    let all = s + t;
    if i < s.len() {
        assert(all[i] == s[i]);
        if s[i] == '.' {
            let end = ident_end(s, i + 1);
            lemma_ident_end_range(s, i + 1);
            lemma_ident_end_before(s, t, i + 1);
            assert(all.subrange(i + 1, end) =~= s.subrange(i + 1, end));
            lemma_segments_go_on(
                s,
                t,
                end,
                acc.push(SegmentView::Field(s.subrange(i + 1, end))),
                path,
                longer,
            );
        } else if s[i] == '[' {
            reveal_strlit("]");
            assert("]"@ =~= seq![']']);
            lemma_find_from_range(s, "]"@, i + 1);
            lemma_find_before(s, t, ']', i + 1);
            let close = find_from(s, "]"@, i + 1)->0;
            let inner = trimmed(s.subrange(i + 1, close));
            assert(all.subrange(i + 1, close) =~= s.subrange(i + 1, close));
            lemma_segments_go_on(s, t, close + 1, acc.push(subscript(inner)->Ok_0), path, longer);
        }
    }
}

proof fn lemma_path_goes_on(p: Seq<char>, t: Seq<char>)
    requires
        is_tight(p),
        is_tight(t),
        !is_word(t[0]),
        path_segments(p) is Ok,
    ensures
        path_segments(p + t) == segments_from(
            p + t,
            p.len() as int,
            path_segments(p)->Ok_0,
            p + t,
        ),
        path_segments(p)->Ok_0.len() > 0,
{
    let all = p + t;
    assert(trimmed(p) == p);
    assert(all[0] == p[0]);
    assert(all[all.len() - 1] == t[t.len() - 1]);
    assert(trimmed(all) == all);
    let start = if p[0] == '.' {
        1int
    } else {
        0
    };
    let end = ident_end(p, start);
    lemma_ident_end_range(p, start);
    lemma_ident_end_before(p, t, start);
    assert(all.subrange(start, end) =~= p.subrange(start, end));
    let first = seq![SegmentView::Field(p.subrange(start, end))];
    lemma_segments_go_on(p, t, end, first, p, all);
    lemma_segments_show_brackets(p, end, first, p);
}

/// A field behind a path selects that field of what the path means.
#[verifier::rlimit(50)]
pub proof fn fields_select_from_the_path(p: Seq<char>, name: Seq<char>)
    requires
        is_tight(p),
        path_sql(p) is Ok,
        is_name(name),
    ensures
        path_sql(p + "."@ + name) == Ok::<Seq<char>, Seq<char>>(path_sql(p)->Ok_0 + "."@ + name),
{
    reveal_strlit(".");
    let t = "."@ + name;
    let all = p + t;
    assert(p + "."@ + name =~= all);
    assert(is_word(name[name.len() - 1]));
    assert(t[t.len() - 1] == name[name.len() - 1]);
    lemma_path_goes_on(p, t);
    let segments = path_segments(p)->Ok_0;
    let n = p.len() as int;
    assert(all[n] == '.');
    assert forall|k: int| n + 1 <= k < all.len() implies is_word(#[trigger] all[k]) by {
        assert(all[k] == name[k - n - 1]);
    }
    lemma_ident_end_at(all, n + 1, all.len() as int);
    assert(all.subrange(n + 1, all.len() as int) =~= name);
    let more = segments.push(SegmentView::Field(name));
    assert(segments_from(all, all.len() as int, more, all) == Ok::<Seq<SegmentView>, Seq<char>>(
        more,
    ));
    assert(path_segments(all) == Ok::<Seq<SegmentView>, Seq<char>>(more));
    steps_apply_to_what_stands_before(segments, name, 0);
}

#[verifier::rlimit(50)]
proof fn lemma_subscript_goes_on(p: Seq<char>, inner: Seq<char>)
    requires
        is_tight(p),
        path_sql(p) is Ok,
        !inner.contains(']'),
        subscript(trimmed(inner)) is Ok,
    ensures
        path_segments(p + "["@ + inner + "]"@) == Ok::<Seq<SegmentView>, Seq<char>>(
            path_segments(p)->Ok_0.push(subscript(trimmed(inner))->Ok_0),
        ),
        path_segments(p)->Ok_0.len() > 0,
{
    reveal_strlit("[");
    reveal_strlit("]");
    let t = "["@ + inner + "]"@;
    let all = p + t;
    assert(p + "["@ + inner + "]"@ =~= all);
    assert(t[0] == '[' && t[t.len() - 1] == ']');
    lemma_path_goes_on(p, t);
    let n = p.len() as int;
    let close = n + 1 + inner.len() as int;
    assert(all[n] == '[' && all[close] == ']');
    assert(all.subrange(close, close + 1) =~= "]"@);
    assert forall|k: int| n + 1 <= k < close implies !occurs_at(all, "]"@, k) by {
        if occurs_at(all, "]"@, k) {
            assert(all.subrange(k, k + 1)[0] == ']');
            assert(all[k] == inner[k - n - 1]);
            assert(inner.contains(']'));
        }
    }
    lemma_first_find(all, n + 1, close);
    assert(all.subrange(n + 1, close) =~= inner);
    let more = path_segments(p)->Ok_0.push(subscript(trimmed(inner))->Ok_0);
    assert(segments_from(all, close + 1, more, all) == Ok::<Seq<SegmentView>, Seq<char>>(more));
}

proof fn lemma_first_find(s: Seq<char>, i: int, at: int)
    requires
        0 <= i <= at < s.len(),
        occurs_at(s, "]"@, at),
        forall|k: int| i <= k < at ==> !occurs_at(s, "]"@, k),
    ensures
        find_from(s, "]"@, i) == Some(at),
{
    reveal_strlit("]");
    lemma_find_from_range(s, "]"@, i);
}

/// An index behind a path counts from zero in the path and from one in SQL; one
/// from the end is the same in both.
#[verifier::rlimit(50)]
pub proof fn indexes_select_from_the_path(p: Seq<char>, n: nat)
    requires
        is_tight(p),
        path_sql(p) is Ok,
        n < i64::MAX,
    ensures
        path_sql(p + "["@ + decimal(n) + "]"@) == Ok::<Seq<char>, Seq<char>>(
            path_sql(p)->Ok_0 + "["@ + decimal(n + 1) + "]"@,
        ),
        n > 0 ==> path_sql(p + "["@ + ("-"@ + decimal(n)) + "]"@) == Ok::<Seq<char>, Seq<char>>(
            path_sql(p)->Ok_0 + "["@ + ("-"@ + decimal(n)) + "]"@,
        ),
{
    let d = decimal(n);
    decimal_reads_back(n);
    assert(is_digit(d[0]) && is_digit(d[d.len() - 1]));
    assert(trimmed(d) == d);
    assert forall|k: int| 0 <= k < d.len() implies d[k] != ']' by {
        assert(is_digit(d[k]));
    }
    signed_decimal_reads_back(n as int, i64::MAX as int);
    assert(subscript(d) == Ok::<SegmentView, Seq<char>>(SegmentView::Index(n as int + 1)));
    lemma_subscript_goes_on(p, d);
    let segments = path_segments(p)->Ok_0;
    steps_apply_to_what_stands_before(segments, d, n as int + 1);
    if n > 0 {
        reveal_strlit("-");
        let m = "-"@ + d;
        assert(m[0] == '-' && m[m.len() - 1] == d[d.len() - 1]);
        assert(trimmed(m) == m);
        assert forall|k: int| 0 <= k < m.len() implies m[k] != ']' by {
            if k > 0 {
                assert(m[k] == d[k - 1]);
                assert(is_digit(d[k - 1]));
            }
        }
        signed_decimal_reads_back(-(n as int), i64::MAX as int);
        assert(subscript(m) == Ok::<SegmentView, Seq<char>>(SegmentView::Index(-(n as int))));
        lemma_subscript_goes_on(p, m);
        steps_apply_to_what_stands_before(segments, m, -(n as int));
    }
}

/// A key in quotes, of either kind, looks the key up in a map.
#[verifier::rlimit(50)]
pub proof fn keys_look_up_in_the_path(p: Seq<char>, key: Seq<char>)
    requires
        is_tight(p),
        path_sql(p) is Ok,
        !key.contains(']'),
    ensures
        ({
            let want = "element_at("@ + path_sql(p)->Ok_0 + ", '"@ + quotes_doubled(key)
                + "')[1]"@;
            &&& path_sql(p + "["@ + ("\""@ + key + "\""@) + "]"@) == Ok::<Seq<char>, Seq<char>>(want)
            &&& path_sql(p + "["@ + ("'"@ + key + "'"@) + "]"@) == Ok::<Seq<char>, Seq<char>>(want)
        }),
{
    reveal_strlit("\"");
    reveal_strlit("'");
    let a = "\""@ + key + "\""@;
    let b = "'"@ + key + "'"@;
    assert(a[0] == '"' && a[a.len() - 1] == '"');
    assert(b[0] == '\'' && b[b.len() - 1] == '\'');
    assert(trimmed(a) == a);
    assert(trimmed(b) == b);
    assert forall|k: int| 0 <= k < a.len() implies a[k] != ']' && b[k] != ']' by {
        if 0 < k <= key.len() {
            assert(a[k] == key[k - 1] && b[k] == key[k - 1]);
            assert(key.contains(key[k - 1]));
        }
    }
    assert(a.subrange(1, a.len() - 1) =~= key);
    assert(b.subrange(1, b.len() - 1) =~= key);
    lemma_subscript_goes_on(p, a);
    lemma_subscript_goes_on(p, b);
    steps_apply_to_what_stands_before(path_segments(p)->Ok_0, key, 0);
}

/// Empty brackets behind a path explode the list that it means.
pub proof fn empty_brackets_explode_the_path(p: Seq<char>)
    requires
        is_tight(p),
        path_sql(p) is Ok,
    ensures
        path_sql(p + "["@ + ""@ + "]"@) == Ok::<Seq<char>, Seq<char>>(
            "UNNEST("@ + path_sql(p)->Ok_0 + ")"@,
        ),
{
    reveal_strlit("");
    assert(trimmed(""@) == ""@);
    lemma_subscript_goes_on(p, ""@);
    steps_apply_to_what_stands_before(path_segments(p)->Ok_0, ""@, 0);
}

/// A bracket that does not close, one with anything but an index, a key or
/// nothing, and a sign that starts no step make a path bad.
pub proof fn bad_steps_are_refused(s: Seq<char>, i: int, acc: Seq<SegmentView>, path: Seq<char>)
    requires
        0 <= i < s.len(),
    ensures
        s[i] != '.' && s[i] != '[' ==> segments_from(s, i, acc, path) is Err,
        s[i] == '[' && find_from(s, "]"@, i + 1) is None ==> segments_from(s, i, acc, path)
            == Err::<Seq<SegmentView>, Seq<char>>("unterminated '[' in path"@),
        s[i] == '.' && (i + 1 == s.len() || !is_word(s[i + 1])) ==> segments_from(s, i, acc, path)
            is Err,
{
}

/// What stands in brackets, and is neither empty, nor in quotes, nor a number, is
/// refused with its text.
pub proof fn other_subscripts_are_refused(inner: Seq<char>)
    requires
        inner.len() > 0,
        !(inner.len() >= 2 && inner[0] == '"' && inner[inner.len() - 1] == '"'),
        !(inner.len() >= 2 && inner[0] == '\'' && inner[inner.len() - 1] == '\''),
        parsed_signed(inner, i64::MAX as int) is None,
    ensures
        subscript(inner) == Err::<SegmentView, Seq<char>>(
            "can't parse bracket subscript ["@ + inner + "]"@,
        ),
        path_sql(""@) == Err::<Seq<char>, Seq<char>>("empty path"@),
{
    reveal_strlit("");
    assert(trimmed(""@) == ""@);
}

/// The alias of a path is made of its names, its indexes as they are written, with
/// `neg` for a minus sign, and its keys, with `_` between them.
pub proof fn aliases_spell_the_path(segments: Seq<SegmentView>, name: Seq<char>, n: nat)
    ensures
        alias_parts(segments.push(SegmentView::Field(name))) == alias_parts(segments).push(name),
        alias_parts(segments.push(SegmentView::Index(n as int + 1))) == alias_parts(segments).push(
            decimal(n),
        ),
        n > 0 ==> alias_parts(segments.push(SegmentView::Index(-(n as int)))) == alias_parts(
            segments,
        ).push("neg"@ + decimal(n)),
        alias_parts(segments.push(SegmentView::MapKey(name))) == alias_parts(segments).push(
            safe_alias(name),
        ),
        alias_parts(segments.push(SegmentView::Unnest)) == alias_parts(segments),
        alias_parts(Seq::empty()).len() == 0,
{
    assert(segments.push(SegmentView::Field(name)).drop_last() =~= segments);
    assert(segments.push(SegmentView::Index(n as int + 1)).drop_last() =~= segments);
    assert(segments.push(SegmentView::Index(-(n as int))).drop_last() =~= segments);
    assert(segments.push(SegmentView::MapKey(name)).drop_last() =~= segments);
    assert(segments.push(SegmentView::Unnest).drop_last() =~= segments);
}

/// A path with brackets has its parts, joined by `_`, for an alias.
pub proof fn bracket_aliases_join_their_parts(path: Seq<char>)
    requires
        path_segments(path) is Ok,
        path.contains('['),
    ensures
        path_alias(path) == Some(joined(alias_parts(path_segments(path)->Ok_0), "_"@)),
{
    bracket_paths_have_an_alias(path);
}

/// Calls of the path functions, in any case: `len` and `length` count the items of
/// a list, `keys` and `values` are those of a map. The column is named after the
/// function and its argument.
#[verifier::rlimit(50)]
pub proof fn path_functions_call_their_sql(head: Seq<char>, arg: Seq<char>)
    requires
        ({
            let low = lowered(head);
            low == "len("@ || low == "length("@ || low == "keys("@ || low == "values("@
        }),
        is_tight(arg),
        path_sql(arg) is Ok,
    ensures
        ({
            let call = head + arg + ")"@;
            let low = lowered(head);
            let sql = path_sql(arg)->Ok_0;
            let name = match path_alias(arg) {
                Some(alias) => alias,
                None => safe_alias(arg),
            };
            &&& low == "len("@ || low == "length("@ ==> function_sql(call) == Some(
                "len("@ + sql + ")"@,
            ) && (arg[0] == '.' ==> function_alias(call) == Some("len_"@ + name))
            &&& low == "keys("@ ==> function_sql(call) == Some("map_keys("@ + sql + ")"@) && (arg[0]
                == '.' ==> function_alias(call) == Some("keys_"@ + name))
            &&& low == "values("@ ==> function_sql(call) == Some("map_values("@ + sql + ")"@) && (
            arg[0] == '.' ==> function_alias(call) == Some("values_"@ + name))
        }),
{
    reveal_strlit("len(");
    reveal_strlit("length(");
    reveal_strlit("keys(");
    reveal_strlit("values(");
    reveal_strlit(")");
    reveal_strlit(".");
    let call = head + arg + ")"@;
    let low = lowered(head);
    assert(low.len() == head.len());
    assert(head.len() > 0);
    assert(low[0] == lower_char(head[0]));
    assert(!is_space(head[0]));
    assert(call[0] == head[0]);
    assert(call[call.len() - 1] == ')');
    assert(trimmed(call) == call);
    assert(trimmed(arg) == arg);
    let all = lowered(call);
    assert(all.subrange(0, head.len() as int) =~= low);
    assert(call.subrange(head.len() as int, call.len() - 1) =~= arg);
    assert("len("@.len() == 4 && "length("@.len() == 7 && "keys("@.len() == 5 && "values("@.len()
        == 7);
    assert(all[0] == low[0]);
    lemma_other_head(call, "len("@, 0);
    lemma_other_head(call, "len("@, 3);
    lemma_other_head(call, "length("@, 0);
    lemma_other_head(call, "keys("@, 0);
    if low == "length("@ {
        assert(all[3] == low[3]);
    }
    assert(has_prefix(arg, "."@) == (arg[0] == '.')) by {
        assert(arg.subrange(0, 1) =~= seq![arg[0]]);
        assert("."@ =~= seq!['.']);
        if has_prefix(arg, "."@) {
            assert(seq![arg[0]][0] == '.');
        }
    }
}

proof fn lemma_other_head(call: Seq<char>, head: Seq<char>, k: int)
    requires
        0 <= k < head.len(),
    ensures
        k < call.len() && lowered(call)[k] != head[k] ==> call_argument(call, head) is None,
{
    let low = lowered(call);
    if has_prefix(low, head) {
        assert(low.subrange(0, head.len() as int)[k] == low[k]);
    }
}

} // verus!
