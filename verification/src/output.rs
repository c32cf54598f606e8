//! Results as text: CSV, JSON and raw lines.
use vstd::prelude::*;

use crate::json::{
    json_array, json_insert, json_map, json_object, json_pretty_text, json_text, json_to_string,
    json_to_string_pretty, json_tree, json_trees, map_members, member_index, with_member, JsonTree,
};
use crate::sql::{
    doubled_text_reads_back, escaped_text_reads_back, literal_text, quoted_text_from,
    quotes_doubled, sql_escape,
};
use crate::text::{
    cat3, cat5, contains_char, join, joined, lemma_joined_head, occurs_at, replace, replaced,
    replaced_from, same, texts,
};
use crate::value::{value_json, value_text, value_to_display, value_to_json, CellValue};

verus! {

/// How a result is written.
#[derive(Copy, Clone, Debug, PartialEq, Eq, Structural)]
pub enum OutputFormat {
    Table,
    Json,
    Ndjson,
    Csv,
    Parquet,
    /// One row per line: the first column's text as it is.
    RawLines,
}

/// The format that a name stands for. Any other name goes by where the output
/// goes.
pub open spec fn format_named(name: Seq<char>, to_terminal: bool) -> OutputFormat {
    if name == "table"@ {
        OutputFormat::Table
    } else if name == "json"@ {
        OutputFormat::Json
    } else if name == "ndjson"@ {
        OutputFormat::Ndjson
    } else if name == "csv"@ {
        OutputFormat::Csv
    } else if name == "parquet"@ {
        OutputFormat::Parquet
    } else if to_terminal {
        OutputFormat::Table
    } else {
        OutputFormat::Ndjson
    }
}

impl OutputFormat {
    /// Picks the format by its name; `auto`, as any unknown name, is a table on
    /// a terminal and JSON lines elsewhere.
    pub fn resolve(name: &str, to_terminal: bool) -> (r: OutputFormat)
        ensures
            r == format_named(name@, to_terminal),
    {
        if same(name, "table") {
            OutputFormat::Table
        } else if same(name, "json") {
            OutputFormat::Json
        } else if same(name, "ndjson") {
            OutputFormat::Ndjson
        } else if same(name, "csv") {
            OutputFormat::Csv
        } else if same(name, "parquet") {
            OutputFormat::Parquet
        } else if to_terminal {
            OutputFormat::Table
        } else {
            OutputFormat::Ndjson
        }
    }
}

/// The statement that writes a query's result to a parquet file.
pub open spec fn copy_statement(sql: Seq<char>, path: Seq<char>) -> Seq<char> {
    "COPY ("@ + sql + ") TO '"@ + quotes_doubled(path) + "' (FORMAT PARQUET)"@
}

/// Builds the statement that writes a query's result to a parquet file.
pub fn copy_sql(sql: &str, path: &str) -> (r: String)
    ensures
        r@ == copy_statement(sql@, path@),
{
    cat5("COPY (", sql, ") TO '", sql_escape(path).as_str(), "' (FORMAT PARQUET)")
}

// ─── CSV ────────────────────────────────────────────────────────────────────
/// A text has to be quoted in CSV.
pub open spec fn needs_quotes(s: Seq<char>) -> bool {
    s.contains(',') || s.contains('"') || s.contains('\n')
}

/// A text as a CSV cell: in quotes, with its own quotes doubled, where it has to be.
pub open spec fn csv_text(s: Seq<char>) -> Seq<char> {
    if needs_quotes(s) {
        "\""@ + replaced(s, "\""@, "\"\""@) + "\""@
    } else {
        s
    }
}

fn text_to_csv(s: String) -> (r: String)
    ensures
        r@ == csv_text(s@),
{
    if contains_char(s.as_str(), ',') || contains_char(s.as_str(), '"') || contains_char(
        s.as_str(),
        '\n',
    ) {
        proof {
            reveal_strlit("\"");
        }
        cat3("\"", replace(s.as_str(), "\"", "\"\"").as_str(), "\"")
    } else {
        s
    }
}

/// A value as a CSV cell.
pub fn value_to_csv(v: &CellValue) -> (r: String)
    ensures
        r@ == csv_text(value_text(*v)),
{
    text_to_csv(value_to_display(v))
}

/// What a CSV cell says: the text between its quotes, or the cell itself.
pub open spec fn csv_cell_text(cell: Seq<char>) -> Option<Seq<char>> {
    if cell.len() >= 2 && cell[0] == '"' && cell.last() == '"' {
        quoted_text_from(cell.subrange(1, cell.len() - 1), '"', 0)
    } else {
        Some(cell)
    }
}

/// A CSV cell says the text that it was made of.
pub proof fn csv_cell_reads_back(s: Seq<char>)
    ensures
        csv_cell_text(csv_text(s)) == Some(s),
{
    reveal_strlit("\"");
    reveal_strlit("\"\"");
    assert("\""@ =~= seq!['"']);
    assert("\"\""@ =~= seq!['"', '"']);
    if needs_quotes(s) {
        let body = replaced(s, "\""@, "\"\""@);
        let cell = csv_text(s);
        assert(cell.subrange(1, cell.len() - 1) =~= body);
        doubled_text_reads_back(s, '"');
    } else if s.len() > 0 && s[0] == '"' {
        assert(s.contains('"'));
    }
}

/// The cells of a row in CSV.
pub open spec fn csv_cells(row: Seq<CellValue>) -> Seq<Seq<char>> {
    Seq::new(row.len(), |i: int| csv_text(value_text(row[i])))
}

/// A row as a CSV line.
pub open spec fn csv_line(row: Seq<CellValue>) -> Seq<char> {
    joined(csv_cells(row), ","@)
}

/// Writes a row as a CSV line.
pub fn row_to_csv(row: &Vec<CellValue>) -> (r: String)
    ensures
        r@ == csv_line(row@),
{
    let mut cells: Vec<String> = Vec::new();
    let mut i: usize = 0;
    while i < row.len()
        invariant
            i <= row.len(),
            texts(cells@) == csv_cells(row@).take(i as int),
        decreases row.len() - i,
    {
        let cell = value_to_csv(&row[i]);
        proof {
            crate::text::lemma_texts_push(cells@, cell);
            assert(csv_cells(row@).take(i + 1) =~= csv_cells(row@).take(i as int).push(cell@));
        }
        cells.push(cell);
        i += 1;
    }
    assert(csv_cells(row@).take(row@.len() as int) =~= csv_cells(row@));
    join(&cells, ",")
}

/// The cells of texts.
pub open spec fn csv_texts(row: Seq<Seq<char>>) -> Seq<Seq<char>> {
    Seq::new(row.len(), |i: int| csv_text(row[i]))
}

/// Writes the column names as a CSV line.
pub fn header_to_csv(cols: &Vec<String>) -> (r: String)
    ensures
        r@ == joined(csv_texts(texts(cols@)), ","@),
{
    let ghost want = csv_texts(texts(cols@));
    let mut cells: Vec<String> = Vec::new();
    let mut i: usize = 0;
    assert(texts(cells@) =~= want.take(0));
    while i < cols.len()
        invariant
            i <= cols.len(),
            want == csv_texts(texts(cols@)),
            texts(cells@) == want.take(i as int),
        decreases cols.len() - i,
    {
        let cell = text_to_csv(cols[i].clone());
        proof {
            crate::text::lemma_texts_push(cells@, cell);
            assert(want.take(i + 1) =~= want.take(i as int).push(cell@));
        }
        cells.push(cell);
        i += 1;
    }
    assert(want.take(want.len() as int) =~= want);
    join(&cells, ",")
}

/// The lines of a result in CSV: the column names and the rows.
pub open spec fn csv_text_lines(cols: Seq<Seq<char>>, rows: Seq<Vec<CellValue>>) -> Seq<
    Seq<char>,
> {
    Seq::new(
        rows.len() + 1,
        |i: int|
            if i == 0 {
                joined(csv_texts(cols), ","@)
            } else {
                csv_line(rows[i - 1]@)
            },
    )
}

/// Writes a result in CSV, line by line.
pub fn csv_lines(cols: &Vec<String>, rows: &Vec<Vec<CellValue>>) -> (r: Vec<String>)
    ensures
        texts(r@) == csv_text_lines(texts(cols@), rows@),
{
    let ghost want = csv_text_lines(texts(cols@), rows@);
    let mut out: Vec<String> = Vec::new();
    let header = header_to_csv(cols);
    let ghost header_text = header@;
    out.push(header);
    assert(texts(out@) =~= want.take(1));
    let mut i: usize = 0;
    while i < rows.len()
        invariant
            i <= rows.len(),
            want == csv_text_lines(texts(cols@), rows@),
            texts(out@) == want.take(i + 1),
        decreases rows.len() - i,
    {
        let line = row_to_csv(&rows[i]);
        proof {
            crate::text::lemma_texts_push(out@, line);
            assert(want.take(i + 2) =~= want.take(i + 1).push(line@));
        }
        out.push(line);
        i += 1;
    }
    assert(want.take(want.len() as int) =~= want);
    out
}

// ─── JSON ───────────────────────────────────────────────────────────────────
/// The cell of a row at an index; a missing cell is null.
pub open spec fn cell_json(row: Seq<CellValue>, i: int) -> JsonTree {
    if i < row.len() {
        value_json(row[i])
    } else {
        JsonTree::Null
    }
}

/// The members of the first `n` columns of a row's JSON object.
pub open spec fn row_members(cols: Seq<Seq<char>>, row: Seq<CellValue>, n: int) -> Seq<
    (Seq<char>, JsonTree),
>
    decreases n,
{
    if n <= 0 {
        Seq::empty()
    } else {
        with_member(row_members(cols, row, n - 1), cols[n - 1], cell_json(row, n - 1))
    }
}

/// A row as a JSON object, with a member for each column, in order.
pub open spec fn row_json(cols: Seq<Seq<char>>, row: Seq<CellValue>) -> JsonTree {
    JsonTree::Object(row_members(cols, row, cols.len() as int))
}

/// A row as a JSON object.
pub fn row_to_json(cols: &Vec<String>, row: &Vec<CellValue>) -> (r: serde_json::Value)
    ensures
        json_tree(r) == row_json(texts(cols@), row@),
{
    let mut m = json_map();
    let mut i: usize = 0;
    while i < cols.len()
        invariant
            i <= cols.len(),
            map_members(m) == row_members(texts(cols@), row@, i as int),
        decreases cols.len() - i,
    {
        let j = if i < row.len() {
            value_to_json(&row[i])
        } else {
            crate::json::json_null()
        };
        json_insert(&mut m, cols[i].clone(), j);
        i += 1;
    }
    json_object(m)
}

/// The lines of a result in JSON: one object a row.
pub open spec fn ndjson_text_lines(cols: Seq<Seq<char>>, rows: Seq<Vec<CellValue>>) -> Seq<
    Seq<char>,
> {
    Seq::new(rows.len(), |i: int| json_text(row_json(cols, rows[i]@)))
}

/// Writes a result as JSON lines. A row never takes more than one line.
pub fn ndjson_lines(cols: &Vec<String>, rows: &Vec<Vec<CellValue>>) -> (r: Vec<String>)
    ensures
        texts(r@) == ndjson_text_lines(texts(cols@), rows@),
        forall|i: int| 0 <= i < r@.len() ==> !(#[trigger] r@[i])@.contains('\n'),
{
    let ghost want = ndjson_text_lines(texts(cols@), rows@);
    let mut out: Vec<String> = Vec::new();
    let mut i: usize = 0;
    while i < rows.len()
        invariant
            i <= rows.len(),
            want == ndjson_text_lines(texts(cols@), rows@),
            texts(out@) == want.take(i as int),
            forall|k: int| 0 <= k < out@.len() ==> !(#[trigger] out@[k])@.contains('\n'),
        decreases rows.len() - i,
    {
        let line = json_to_string(&row_to_json(cols, &rows[i]));
        proof {
            crate::text::lemma_texts_push(out@, line);
            assert(want.take(i + 1) =~= want.take(i as int).push(line@));
        }
        out.push(line);
        i += 1;
    }
    assert(want.take(want.len() as int) =~= want);
    out
}

/// A result as a JSON array of its rows.
pub open spec fn rows_json(cols: Seq<Seq<char>>, rows: Seq<Vec<CellValue>>) -> JsonTree {
    JsonTree::Array(Seq::new(rows.len(), |i: int| row_json(cols, rows[i]@)))
}

/// Writes a result as an indented JSON array.
pub fn json_document(cols: &Vec<String>, rows: &Vec<Vec<CellValue>>) -> (r: String)
    ensures
        r@ == json_pretty_text(rows_json(texts(cols@), rows@)),
{
    let ghost want = rows_json(texts(cols@), rows@)->Array_0;
    let mut out: Vec<serde_json::Value> = Vec::new();
    let mut i: usize = 0;
    assert(json_trees(out@) =~= want.take(0));
    while i < rows.len()
        invariant
            i <= rows.len(),
            want == rows_json(texts(cols@), rows@)->Array_0,
            want.len() == rows@.len(),
            json_trees(out@) == want.take(i as int),
        decreases rows.len() - i,
    {
        let j = row_to_json(cols, &rows[i]);
        proof {
            assert(json_trees(out@.push(j)) =~= json_trees(out@).push(json_tree(j)));
            assert(want.take(i + 1) =~= want.take(i as int).push(json_tree(j)));
        }
        out.push(j);
        i += 1;
    }
    assert(want.take(want.len() as int) =~= want);
    json_to_string_pretty(&json_array(out))
}

// ─── raw lines and cells ────────────────────────────────────────────────────
/// The text of a row's first cell, empty where there is none or it is null.
pub open spec fn raw_line(row: Seq<CellValue>) -> Seq<char> {
    if row.len() == 0 || row[0] is Null {
        Seq::empty()
    } else {
        value_text(row[0])
    }
}

/// The raw line of each row.
pub open spec fn raw_text_lines(rows: Seq<Vec<CellValue>>) -> Seq<Seq<char>> {
    Seq::new(rows.len(), |i: int| raw_line(rows[i]@))
}

/// Writes the first column of a result, line by line.
pub fn raw_lines(rows: &Vec<Vec<CellValue>>) -> (r: Vec<String>)
    ensures
        texts(r@) == raw_text_lines(rows@),
{
    let ghost want = raw_text_lines(rows@);
    let mut out: Vec<String> = Vec::new();
    let mut i: usize = 0;
    while i < rows.len()
        invariant
            i <= rows.len(),
            want == raw_text_lines(rows@),
            texts(out@) == want.take(i as int),
        decreases rows.len() - i,
    {
        let row = &rows[i];
        let line = if row.len() == 0 {
            String::new()
        } else {
            match &row[0] {
                CellValue::Null => String::new(),
                v => value_to_display(v),
            }
        };
        proof {
            if row@.len() == 0 || row@[0] is Null {
                assert(line@ =~= Seq::empty());
            }
            crate::text::lemma_texts_push(out@, line);
            assert(want.take(i + 1) =~= want.take(i as int).push(line@));
        }
        out.push(line);
        i += 1;
    }
    assert(want.take(want.len() as int) =~= want);
    out
}

/// The texts of a row's cells.
pub open spec fn row_texts(row: Seq<CellValue>) -> Seq<Seq<char>> {
    Seq::new(row.len(), |i: int| value_text(row[i]))
}

/// The texts of a row's cells, for a table.
pub fn row_to_texts(row: &Vec<CellValue>) -> (r: Vec<String>)
    ensures
        texts(r@) == row_texts(row@),
{
    let ghost want = row_texts(row@);
    let mut out: Vec<String> = Vec::new();
    let mut i: usize = 0;
    while i < row.len()
        invariant
            i <= row.len(),
            want == row_texts(row@),
            texts(out@) == want.take(i as int),
        decreases row.len() - i,
    {
        let cell = value_to_display(&row[i]);
        proof {
            crate::text::lemma_texts_push(out@, cell);
            assert(want.take(i + 1) =~= want.take(i as int).push(cell@));
        }
        out.push(cell);
        i += 1;
    }
    assert(want.take(want.len() as int) =~= want);
    out
}

// ─── laws ───────────────────────────────────────────────────────────────────
proof fn lemma_no_such_member(members: Seq<(Seq<char>, JsonTree)>, key: Seq<char>, i: int)
    requires
        0 <= i,
        forall|k: int| i <= k < members.len() ==> (#[trigger] members[k]).0 != key,
    ensures
        member_index(members, key, i) is None,
    decreases members.len() - i,
{
    if i < members.len() {
        lemma_no_such_member(members, key, i + 1);
    }
}

proof fn lemma_members_in_order(cols: Seq<Seq<char>>, row: Seq<CellValue>, n: int)
    requires
        cols.no_duplicates(),
        0 <= n <= cols.len(),
    ensures
        row_members(cols, row, n) == Seq::new(n as nat, |i: int| (cols[i], cell_json(row, i))),
    decreases n,
{
    let want = Seq::new(n as nat, |i: int| (cols[i], cell_json(row, i)));
    if n > 0 {
        lemma_members_in_order(cols, row, n - 1);
        let before = row_members(cols, row, n - 1);
        lemma_no_such_member(before, cols[n - 1], 0);
    }
    assert(row_members(cols, row, n) =~= want);
}

/// The members of a row's JSON object are the columns in the order of the
/// result, each with its cell.
pub proof fn row_json_keeps_column_order(cols: Seq<Seq<char>>, row: Seq<CellValue>)
    requires
        cols.no_duplicates(),
    ensures
        row_json(cols, row) == JsonTree::Object(
            Seq::new(cols.len(), |i: int| (cols[i], cell_json(row, i))),
        ),
{
    lemma_members_in_order(cols, row, cols.len() as int);
}

/// The place of the first comma at or after `i`, or the end.
pub open spec fn comma_from(s: Seq<char>, i: int) -> int
    decreases s.len() - i,
{
    if 0 <= i < s.len() && s[i] != ',' {
        comma_from(s, i + 1)
    } else {
        i
    }
}

/// The place of the quote that ends a quoted text, read from `i` on. A pair of
/// quotes does not end it.
pub open spec fn closing_quote(s: Seq<char>, i: int) -> int
    decreases s.len() - i,
{
    if i < 0 || i >= s.len() {
        i
    } else if s[i] != '"' {
        closing_quote(s, i + 1)
    } else if i + 1 < s.len() && s[i + 1] == '"' {
        closing_quote(s, i + 2)
    } else {
        i
    }
}

/// The end of the cell that starts at `i`.
pub open spec fn field_end(s: Seq<char>, i: int) -> int {
    if i < s.len() && s[i] == '"' {
        let close = closing_quote(s, i + 1);
        if close < s.len() {
            close + 1
        } else {
            s.len() as int
        }
    } else {
        comma_from(s, i)
    }
}

/// The cells that a reader finds in a CSV line from `i` on. Commas inside quotes
/// separate nothing.
pub open spec fn csv_fields(s: Seq<char>, i: int) -> Seq<Option<Seq<char>>>
    decreases s.len() - i + 1,
    via csv_fields_decreases
{
    if i < 0 || i > s.len() {
        Seq::empty()
    } else {
        let end = field_end(s, i);
        seq![csv_cell_text(s.subrange(i, end))] + if end < s.len() {
            csv_fields(s, end + 1)
        } else {
            Seq::empty()
        }
    }
}

#[via_fn]
proof fn csv_fields_decreases(s: Seq<char>, i: int) {
    if 0 <= i <= s.len() {
        lemma_field_range(s, i);
    }
}

proof fn lemma_comma_range(s: Seq<char>, i: int)
    requires
        0 <= i <= s.len(),
    ensures
        i <= comma_from(s, i) <= s.len(),
    decreases s.len() - i,
{
    if i < s.len() && s[i] != ',' {
        lemma_comma_range(s, i + 1);
    }
}

proof fn lemma_closing_range(s: Seq<char>, i: int)
    requires
        0 <= i <= s.len(),
    ensures
        i <= closing_quote(s, i) <= s.len(),
    decreases s.len() - i,
{
    if i < s.len() {
        lemma_closing_range(s, i + 1);
        if i + 1 < s.len() {
            lemma_closing_range(s, i + 2);
        }
    }
}

proof fn lemma_field_range(s: Seq<char>, i: int)
    requires
        0 <= i <= s.len(),
    ensures
        i <= field_end(s, i) <= s.len(),
{
    lemma_comma_range(s, i);
    if i < s.len() {
        lemma_closing_range(s, i + 1);
    }
}

proof fn lemma_comma_behind(a: Seq<char>, b: Seq<char>, i: int)
    requires
        0 <= i,
    ensures
        comma_from(a + b, a.len() + i) == a.len() + comma_from(b, i),
    decreases b.len() - i,
{
    if i < b.len() && b[i] != ',' {
        lemma_comma_behind(a, b, i + 1);
    }
}

proof fn lemma_closing_behind(a: Seq<char>, b: Seq<char>, i: int)
    requires
        0 <= i,
    ensures
        closing_quote(a + b, a.len() + i) == a.len() + closing_quote(b, i),
    decreases b.len() - i,
{
    if i < b.len() {
        lemma_closing_behind(a, b, i + 1);
        if i + 1 < b.len() {
            lemma_closing_behind(a, b, i + 2);
        }
    }
}

proof fn lemma_fields_behind(a: Seq<char>, b: Seq<char>, i: int)
    requires
        0 <= i <= b.len(),
    ensures
        csv_fields(a + b, a.len() + i) == csv_fields(b, i),
    decreases b.len() - i + 1,
{
    let t = a + b;
    let n = a.len() as int;
    lemma_comma_behind(a, b, i);
    lemma_closing_behind(a, b, i + 1);
    lemma_field_range(b, i);
    let end = field_end(b, i);
    assert(field_end(t, n + i) == n + end);
    assert(t.subrange(n + i, n + end) =~= b.subrange(i, end));
    if end < b.len() {
        lemma_fields_behind(a, b, end + 1);
    }
}

proof fn lemma_comma_at(s: Seq<char>, i: int, end: int)
    requires
        0 <= i <= end <= s.len(),
        forall|k: int| i <= k < end ==> s[k] != ',',
        end < s.len() ==> s[end] == ',',
    ensures
        comma_from(s, i) == end,
    decreases end - i,
{
    if i < end {
        lemma_comma_at(s, i + 1, end);
    }
}

/// The doubled quotes of a text end no quoted text: the quote behind it does.
proof fn lemma_closing_after(pre: Seq<char>, t: Seq<char>, i: int, rest: Seq<char>)
    requires
        0 <= i <= t.len(),
        rest.len() > 0,
        rest[0] == '"',
        rest.len() > 1 ==> rest[1] != '"',
    ensures
        closing_quote(
            pre + replaced_from(t, seq!['"'], seq!['"', '"'], i) + rest,
            pre.len() as int,
        ) == pre.len() + replaced_from(t, seq!['"'], seq!['"', '"'], i).len(),
    decreases t.len() - i,
{
    let q = seq!['"'];
    let qq = seq!['"', '"'];
    let tail = replaced_from(t, q, qq, i);
    let s = pre + tail + rest;
    let n = pre.len() as int;
    if i == t.len() {
        assert(tail =~= Seq::empty());
        assert(s[n] == rest[0]);
        if rest.len() > 1 {
            assert(s[n + 1] == rest[1]);
        }
    } else {
        let next = replaced_from(t, q, qq, i + 1);
        assert(t.subrange(i, i + 1) =~= seq![t[i]]);
        if t[i] == '"' {
            assert(occurs_at(t, q, i));
            assert(tail =~= qq + next);
            lemma_closing_after(pre + qq, t, i + 1, rest);
            assert(pre + qq + next + rest =~= s);
            assert(s[n] == '"' && s[n + 1] == '"');
        } else {
            assert(t.subrange(i, i + 1)[0] != q[0]);
            assert(tail =~= seq![t[i]] + next);
            lemma_closing_after(pre + seq![t[i]], t, i + 1, rest);
            assert(pre + seq![t[i]] + next + rest =~= s);
            assert(s[n] == t[i]);
        }
    }
}

/// A cell is found up to its end, whether a comma follows or nothing.
proof fn lemma_cell_end(text: Seq<char>, rest: Seq<char>)
    requires
        rest.len() > 0 ==> rest[0] == ',',
    ensures
        field_end(csv_text(text) + rest, 0) == csv_text(text).len(),
{
    let cell = csv_text(text);
    let s = cell + rest;
    reveal_strlit("\"");
    reveal_strlit("\"\"");
    assert("\""@ =~= seq!['"']);
    assert("\"\""@ =~= seq!['"', '"']);
    if needs_quotes(text) {
        let body = replaced(text, seq!['"'], seq!['"', '"']);
        let after = seq!['"'] + rest;
        lemma_closing_after(seq!['"'], text, 0, after);
        assert(s =~= seq!['"'] + body + after);
        assert(s[0] == '"');
    } else {
        assert forall|k: int| 0 <= k < text.len() implies s[k] != ',' && s[k] != '"' by {
            assert(s[k] == text[k]);
            assert(text.contains(text[k]));
        }
        lemma_comma_at(s, 0, text.len() as int);
    }
}

/// A reader finds in a CSV line the texts that it was written of.
pub proof fn csv_line_reads_back(row: Seq<Seq<char>>)
    requires
        row.len() > 0,
    ensures
        csv_fields(joined(csv_texts(row), ","@), 0) == Seq::new(row.len(), |i: int| Some(row[i])),
    decreases row.len(),
{
    let cells = csv_texts(row);
    let line = joined(cells, ","@);
    let want = Seq::new(row.len(), |i: int| Some(row[i]));
    csv_cell_reads_back(row[0]);
    if row.len() == 1 {
        lemma_cell_end(row[0], Seq::empty());
        assert(cells[0] + Seq::<char>::empty() =~= cells[0]);
        assert(line == cells[0]);
        assert(line.subrange(0, line.len() as int) =~= line);
        assert(csv_fields(line, 0) =~= want);
    } else {
        reveal_strlit(",");
        let rest = row.skip(1);
        csv_line_reads_back(rest);
        assert(cells =~= seq![cells[0]] + csv_texts(rest));
        lemma_joined_head(cells[0], csv_texts(rest), ","@);
        let tail = joined(csv_texts(rest), ","@);
        lemma_cell_end(row[0], ","@ + tail);
        assert(line =~= cells[0] + (","@ + tail));
        assert(line.subrange(0, cells[0].len() as int) =~= cells[0]);
        lemma_fields_behind(cells[0] + ","@, tail, 0);
        assert(cells[0] + ","@ + tail =~= line);
        assert(csv_fields(line, 0) =~= want) by {
            let more = Seq::new(rest.len(), |i: int| Some(rest[i]));
            assert(csv_fields(line, 0) == seq![Some(row[0])] + more);
            assert(seq![Some(row[0])] + more =~= want);
        }
    }
}

/// The line of a row is that of its cells' texts.
pub proof fn csv_line_is_made_of_texts(row: Seq<CellValue>)
    ensures
        csv_line(row) == joined(csv_texts(row_texts(row)), ","@),
{
    assert(csv_cells(row) =~= csv_texts(row_texts(row)));
}

/// Every format has its name; any other name is `auto`, which is a table on a
/// terminal and JSON lines elsewhere.
pub proof fn formats_have_their_names(name: Seq<char>, to_terminal: bool)
    ensures
        name == "table"@ ==> format_named(name, to_terminal) == OutputFormat::Table,
        name == "json"@ ==> format_named(name, to_terminal) == OutputFormat::Json,
        name == "ndjson"@ ==> format_named(name, to_terminal) == OutputFormat::Ndjson,
        name == "csv"@ ==> format_named(name, to_terminal) == OutputFormat::Csv,
        name == "parquet"@ ==> format_named(name, to_terminal) == OutputFormat::Parquet,
        name != "table"@ && name != "json"@ && name != "ndjson"@ && name != "csv"@ && name
            != "parquet"@ ==> format_named(name, true) == OutputFormat::Table && format_named(
            name,
            false,
        ) == OutputFormat::Ndjson,
{
    reveal_strlit("table");
    reveal_strlit("json");
    reveal_strlit("ndjson");
    reveal_strlit("csv");
    reveal_strlit("parquet");
    assert("table"@[0] == 't' && "json"@[0] == 'j' && "ndjson"@[0] == 'n' && "csv"@[0] == 'c'
        && "parquet"@[0] == 'p');
}

/// A result is copied, as parquet, to the path that a literal names.
pub proof fn results_are_copied_as_parquet(sql: Seq<char>, path: Seq<char>)
    ensures
        copy_statement(sql, path) == "COPY ("@ + sql + ") TO "@ + ("'"@ + quotes_doubled(path)
            + "'"@) + " (FORMAT PARQUET)"@,
        literal_text(quotes_doubled(path)) == Some(path),
{
    escaped_text_reads_back(path);
    reveal_strlit("'");
    reveal_strlit(") TO '");
    reveal_strlit(") TO ");
    reveal_strlit("' (FORMAT PARQUET)");
    reveal_strlit(" (FORMAT PARQUET)");
    assert(copy_statement(sql, path) =~= "COPY ("@ + sql + ") TO "@ + ("'"@ + quotes_doubled(path)
        + "'"@) + " (FORMAT PARQUET)"@);
}

/// A CSV cell is the text of its value, in quotes where a comma, a quote or a line
/// end makes that necessary, and else as it is.
pub proof fn csv_cells_are_quoted_where_needed(s: Seq<char>)
    ensures
        !s.contains(',') && !s.contains('"') && !s.contains('\n') ==> csv_text(s) == s,
        s.contains(',') || s.contains('"') || s.contains('\n') ==> csv_text(s).len() >= 2
            && csv_text(s)[0] == '"' && csv_text(s)[csv_text(s).len() - 1] == '"',
{
    reveal_strlit("\"");
}

/// A CSV result is a line of the column names and a line for each row, with a cell
/// for each value; a row of JSON lines is the JSON text of an object, and a raw
/// line the text of the first value, or nothing where that is missing.
pub proof fn results_have_a_line_a_row(
    cols: Seq<Seq<char>>,
    rows: Seq<Vec<CellValue>>,
    i: int,
)
    requires
        0 <= i < rows.len(),
    ensures
        csv_text_lines(cols, rows).len() == rows.len() + 1,
        csv_text_lines(cols, rows)[0] == joined(csv_texts(cols), ","@),
        csv_text_lines(cols, rows)[i + 1] == csv_line(rows[i]@),
        csv_cells(rows[i]@).len() == rows[i]@.len(),
        forall|k: int|
            0 <= k < rows[i]@.len() ==> #[trigger] csv_cells(rows[i]@)[k] == csv_text(
                value_text(rows[i]@[k]),
            ),
        csv_line(rows[i]@) == joined(csv_cells(rows[i]@), ","@),
        ndjson_text_lines(cols, rows).len() == rows.len(),
        ndjson_text_lines(cols, rows)[i] == json_text(row_json(cols, rows[i]@)),
        rows_json(cols, rows) is Array && rows_json(cols, rows)->Array_0.len() == rows.len()
            && rows_json(cols, rows)->Array_0[i] == row_json(cols, rows[i]@),
        raw_text_lines(rows).len() == rows.len(),
        rows[i]@.len() > 0 && !(rows[i]@[0] is Null) ==> raw_text_lines(rows)[i] == value_text(
            rows[i]@[0],
        ),
        rows[i]@.len() == 0 || rows[i]@[0] is Null ==> raw_text_lines(rows)[i].len() == 0,
{
}

/// The member of a column is the value of the row's cell there, and null where the
/// row has none; the texts of a row are those of its values.
pub proof fn cells_are_those_of_the_row(row: Seq<CellValue>, i: int)
    requires
        0 <= i,
    ensures
        i < row.len() ==> cell_json(row, i) == value_json(row[i]) && row_texts(row)[i]
            == value_text(row[i]),
        i >= row.len() ==> cell_json(row, i) == JsonTree::Null,
        row_texts(row).len() == row.len(),
{
}

} // verus!
