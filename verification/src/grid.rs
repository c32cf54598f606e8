//! The table of preview rows: column widths, alignment and highlighting.
use vstd::prelude::*;

use crate::drill::{is_numeric, looks_numeric};
use crate::lineage::{source_named, Lineage, LineageView};
use crate::number::{decimal, show};
use crate::text::{cat3, chars_of, copy_of, opt_text, push_text, same, substring, texts};

verus! {

/// The least width of a column.
pub const MIN_WIDTH: usize = 4;

/// The greatest width of a column.
pub const MAX_WIDTH: usize = 40;

/// The number of characters of a text.
pub fn display_width(s: &str) -> (r: usize)
    ensures
        r == s@.len(),
{
    chars_of(s).len()
}

/// A text cut to a width, with a mark in place of its last character where
/// something was cut off.
pub open spec fn ellipsised(s: Seq<char>, max: int) -> Seq<char> {
    if s.len() <= max {
        s
    } else if max <= 0 {
        Seq::empty()
    } else {
        s.take(max - 1).push('…')
    }
}

/// Cuts a text to a width.
pub fn ellipsise(s: &str, max_chars: usize) -> (r: String)
    ensures
        r@ == ellipsised(s@, max_chars as int),
        r@.len() <= max_chars,
{
    let cs = chars_of(s);
    if cs.len() <= max_chars {
        return copy_of(s);
    }
    if max_chars == 0 {
        let r = String::new();
        assert(r@ =~= Seq::empty());
        return r;
    }
    let mut out = substring(&cs, 0, max_chars - 1);
    assert(out@ =~= s@.take(max_chars - 1));
    out.push('…');
    out
}

/// `n` spaces.
pub open spec fn spaces(n: int) -> Seq<char> {
    Seq::new(
        if n < 0 {
            0
        } else {
            n as nat
        },
        |i: int| ' ',
    )
}

/// A text at the right end of a width.
pub open spec fn right_aligned(s: Seq<char>, width: int) -> Seq<char> {
    spaces(width - s.len()) + s
}

fn align_right(s: &str, width: usize) -> (r: String)
    ensures
        r@ == right_aligned(s@, width as int),
{
    let n: usize = chars_of(s).len();
    let mut out = String::new();
    let mut i: usize = n;
    assert(out@ =~= spaces(0));
    while i < width
        invariant
            n <= i,
            i == n || i <= width,
            out@ == spaces(i - n),
        decreases width - i,
    {
        out.push(' ');
        assert(out@ =~= spaces(i + 1 - n));
        i += 1;
    }
    assert(spaces(width - n) =~= out@);
    push_text(&mut out, s);
    out
}

// ─── columns ────────────────────────────────────────────────────────────────
/// No row has more cells than there are columns.
pub open spec fn fits(headers: Seq<String>, rows: Seq<Vec<String>>) -> bool {
    forall|r: int| 0 <= r < rows.len() ==> (#[trigger] rows[r])@.len() <= headers.len()
}

/// The width of a cell, at most the greatest width of a column.
pub open spec fn cell_width(s: Seq<char>) -> int {
    if s.len() > 40 {
        40
    } else {
        s.len() as int
    }
}

/// The width that a header asks for.
pub open spec fn header_width(s: Seq<char>) -> int {
    if s.len() < 4 {
        4
    } else {
        cell_width(s)
    }
}

/// The width of a column over its first `n` rows: that of its widest text.
pub open spec fn column_width(
    header: Seq<char>,
    rows: Seq<Vec<String>>,
    col: int,
    n: int,
) -> int
    decreases n,
{
    if n <= 0 {
        header_width(header)
    } else {
        let before = column_width(header, rows, col, n - 1);
        let row = rows[n - 1]@;
        if col < row.len() && cell_width(row[col]@) > before {
            cell_width(row[col]@)
        } else {
            before
        }
    }
}

/// The widths of all columns.
pub open spec fn column_widths(headers: Seq<String>, rows: Seq<Vec<String>>) -> Seq<int> {
    Seq::new(
        headers.len(),
        |i: int| column_width(headers[i]@, rows, i, rows.len() as int),
    )
}

/// The widths of a list of machine integers.
pub open spec fn as_ints(v: Seq<usize>) -> Seq<int> {
    Seq::new(v.len(), |i: int| v[i] as int)
}

fn width_of_cell(s: &str) -> (r: usize)
    ensures
        r == cell_width(s@),
{
    let n = display_width(s);
    if n > MAX_WIDTH {
        MAX_WIDTH
    } else {
        n
    }
}

fn width_of_column(header: &str, rows: &Vec<Vec<String>>, col: usize) -> (r: usize)
    ensures
        r == column_width(header@, rows@, col as int, rows@.len() as int),
        4 <= r <= 40,
{
    let n = display_width(header);
    let mut width: usize = if n < MIN_WIDTH {
        MIN_WIDTH
    } else if n > MAX_WIDTH {
        MAX_WIDTH
    } else {
        n
    };
    let mut i: usize = 0;
    while i < rows.len()
        invariant
            i <= rows.len(),
            4 <= width <= 40,
            width == column_width(header@, rows@, col as int, i as int),
        decreases rows.len() - i,
    {
        let row = &rows[i];
        if col < row.len() {
            let w = width_of_cell(row[col].as_str());
            if w > width {
                width = w;
            }
        }
        i += 1;
    }
    width
}

/// Finds the widths of all columns.
pub fn find_widths(headers: &Vec<String>, rows: &Vec<Vec<String>>) -> (r: Vec<usize>)
    ensures
        as_ints(r@) == column_widths(headers@, rows@),
        forall|i: int| 0 <= i < r@.len() ==> 4 <= #[trigger] r@[i] <= 40,
{
    let ghost want = column_widths(headers@, rows@);
    let mut out: Vec<usize> = Vec::new();
    let mut i: usize = 0;
    assert(as_ints(out@) =~= want.take(0));
    while i < headers.len()
        invariant
            i <= headers.len(),
            want == column_widths(headers@, rows@),
            as_ints(out@) == want.take(i as int),
            forall|k: int| 0 <= k < out@.len() ==> 4 <= #[trigger] out@[k] <= 40,
        decreases headers.len() - i,
    {
        let w = width_of_column(headers[i].as_str(), rows, i);
        assert(as_ints(out@.push(w)) =~= want.take(i + 1)) by {
            assert(as_ints(out@.push(w)) =~= as_ints(out@).push(w as int));
            assert(want.take(i + 1) =~= want.take(i as int).push(w as int));
        }
        out.push(w);
        i += 1;
    }
    assert(want.take(want.len() as int) =~= want);
    out
}

/// The row has a value in the column: a cell that is neither empty nor null.
pub open spec fn has_value(row: Seq<String>, col: int) -> bool {
    col < row.len() && row[col]@.len() > 0 && row[col]@ != "∅"@
}

/// The column has values, and all of them look like numbers.
pub open spec fn is_numeric_column(rows: Seq<Vec<String>>, col: int) -> bool {
    &&& exists|r: int| 0 <= r < rows.len() && has_value((#[trigger] rows[r])@, col)
    &&& forall|r: int|
        0 <= r < rows.len() && has_value((#[trigger] rows[r])@, col) ==> is_numeric(
            rows[r]@[col]@,
        )
}

fn numeric_column(rows: &Vec<Vec<String>>, col: usize) -> (r: bool)
    ensures
        r == is_numeric_column(rows@, col as int),
{
    let mut any = false;
    let mut i: usize = 0;
    while i < rows.len()
        invariant
            i <= rows.len(),
            any == exists|r: int| 0 <= r < i && has_value((#[trigger] rows@[r])@, col as int),
            forall|r: int|
                0 <= r < i && has_value((#[trigger] rows@[r])@, col as int) ==> is_numeric(
                    rows@[r]@[col as int]@,
                ),
        decreases rows.len() - i,
    {
        let row = &rows[i];
        if col < row.len() {
            let cell = row[col].as_str();
            if !cell.is_empty() && !same(cell, "∅") {
                assert(has_value(rows@[i as int]@, col as int));
                any = true;
                if !looks_numeric(cell) {
                    return false;
                }
            }
        }
        i += 1;
    }
    any
}

/// Which columns are numeric.
pub open spec fn numeric_columns(headers: Seq<String>, rows: Seq<Vec<String>>) -> Seq<bool> {
    Seq::new(headers.len(), |i: int| is_numeric_column(rows, i))
}

/// Finds which columns are numeric.
pub fn find_numeric(headers: &Vec<String>, rows: &Vec<Vec<String>>) -> (r: Vec<bool>)
    ensures
        r@ == numeric_columns(headers@, rows@),
{
    let ghost want = numeric_columns(headers@, rows@);
    let mut out: Vec<bool> = Vec::new();
    let mut i: usize = 0;
    assert(out@ =~= want.take(0));
    while i < headers.len()
        invariant
            i <= headers.len(),
            want == numeric_columns(headers@, rows@),
            out@ == want.take(i as int),
        decreases headers.len() - i,
    {
        let b = numeric_column(rows, i);
        assert(want.take(i + 1) =~= want.take(i as int).push(b));
        out.push(b);
        i += 1;
    }
    assert(want.take(want.len() as int) =~= want);
    out
}

/// A column is highlighted where the column cursor stands, and where it is, or
/// is derived from, the source column in focus.
pub open spec fn is_lit(
    header: Seq<char>,
    col: int,
    cursor: Option<usize>,
    source: Option<Seq<char>>,
    lineage: LineageView,
) -> bool {
    ||| cursor == Some(col as usize)
    ||| source is Some && (header == source->0 || source_named(lineage.derived, header, 0)
        == source)
}

/// Which columns are highlighted.
pub open spec fn lit_columns(
    headers: Seq<String>,
    cursor: Option<usize>,
    source: Option<Seq<char>>,
    lineage: LineageView,
) -> Seq<bool> {
    Seq::new(headers.len(), |i: int| is_lit(headers[i]@, i, cursor, source, lineage))
}

fn column_lit(
    header: &str,
    col: usize,
    cursor: Option<usize>,
    source: &Option<String>,
    lineage: &Lineage,
) -> (r: bool)
    ensures
        r == is_lit(header@, col as int, cursor, opt_text(*source), lineage@),
{
    if let Some(c) = cursor {
        if c == col {
            return true;
        }
    }
    match source {
        Some(src) => {
            if same(header, src.as_str()) {
                return true;
            }
            match lineage.source_of(header) {
                Some(s) => same(s, src.as_str()),
                None => false,
            }
        },
        None => false,
    }
}

/// Finds which columns are highlighted.
pub fn find_lit(
    headers: &Vec<String>,
    cursor: Option<usize>,
    source: &Option<String>,
    lineage: &Lineage,
) -> (r: Vec<bool>)
    ensures
        r@ == lit_columns(headers@, cursor, opt_text(*source), lineage@),
{
    let ghost want = lit_columns(headers@, cursor, opt_text(*source), lineage@);
    let mut out: Vec<bool> = Vec::new();
    let mut i: usize = 0;
    assert(out@ =~= want.take(0));
    while i < headers.len()
        invariant
            i <= headers.len(),
            want == lit_columns(headers@, cursor, opt_text(*source), lineage@),
            out@ == want.take(i as int),
        decreases headers.len() - i,
    {
        let b = column_lit(headers[i].as_str(), i, cursor, source, lineage);
        assert(want.take(i + 1) =~= want.take(i as int).push(b));
        out.push(b);
        i += 1;
    }
    assert(want.take(want.len() as int) =~= want);
    out
}

// ─── cells ──────────────────────────────────────────────────────────────────
/// The shown text of a cell: cut to the column's width, and at its right end
/// where the column is numeric.
pub open spec fn shown_cell(s: Seq<char>, width: int, numeric: bool) -> Seq<char> {
    if numeric {
        right_aligned(ellipsised(s, width), width)
    } else {
        ellipsised(s, width)
    }
}

/// The shown texts of a row.
pub open spec fn shown_row(row: Seq<String>, widths: Seq<int>, numeric: Seq<bool>) -> Seq<
    Seq<char>,
> {
    Seq::new(row.len(), |i: int| shown_cell(row[i]@, widths[i], numeric[i]))
}

/// Shows a row.
pub fn show_row(row: &Vec<String>, widths: &Vec<usize>, numeric: &Vec<bool>) -> (r: Vec<String>)
    requires
        row@.len() <= widths@.len(),
        row@.len() <= numeric@.len(),
    ensures
        texts(r@) == shown_row(row@, as_ints(widths@), numeric@),
{
    let ghost want = shown_row(row@, as_ints(widths@), numeric@);
    let mut out: Vec<String> = Vec::new();
    let mut i: usize = 0;
    assert(texts(out@) =~= want.take(0));
    while i < row.len()
        invariant
            i <= row.len(),
            row@.len() <= widths@.len(),
            row@.len() <= numeric@.len(),
            want == shown_row(row@, as_ints(widths@), numeric@),
            texts(out@) == want.take(i as int),
        decreases row.len() - i,
    {
        let w = widths[i];
        let cut = ellipsise(row[i].as_str(), w);
        let cell = if numeric[i] {
            align_right(cut.as_str(), w)
        } else {
            cut
        };
        proof {
            crate::text::lemma_texts_push(out@, cell);
            assert(want.take(i + 1) =~= want.take(i as int).push(cell@));
        }
        out.push(cell);
        i += 1;
    }
    assert(want.take(want.len() as int) =~= want);
    out
}

/// Everything that is needed to draw the table.
#[derive(Debug)]
pub struct Grid {
    pub widths: Vec<usize>,
    pub numeric: Vec<bool>,
    pub lit: Vec<bool>,
    pub cells: Vec<Vec<String>>,
}

/// The shown texts of all rows.
pub open spec fn grid_cells(headers: Seq<String>, rows: Seq<Vec<String>>) -> Seq<Seq<Seq<char>>> {
    Seq::new(
        rows.len(),
        |r: int| shown_row(rows[r]@, column_widths(headers, rows), numeric_columns(headers, rows)),
    )
}

/// The texts of rows of strings.
pub open spec fn rows_texts(rows: Seq<Vec<String>>) -> Seq<Seq<Seq<char>>> {
    Seq::new(rows.len(), |r: int| texts(rows[r]@))
}

/// Lays out the table of preview rows.
pub fn lay_out(
    headers: &Vec<String>,
    rows: &Vec<Vec<String>>,
    cursor: Option<usize>,
    source: &Option<String>,
    lineage: &Lineage,
) -> (r: Grid)
    requires
        fits(headers@, rows@),
    ensures
        as_ints(r.widths@) == column_widths(headers@, rows@),
        r.numeric@ == numeric_columns(headers@, rows@),
        r.lit@ == lit_columns(headers@, cursor, opt_text(*source), lineage@),
        rows_texts(r.cells@) == grid_cells(headers@, rows@),
{
    let widths = find_widths(headers, rows);
    let numeric = find_numeric(headers, rows);
    let lit = find_lit(headers, cursor, source, lineage);
    let ghost want = grid_cells(headers@, rows@);
    let mut cells: Vec<Vec<String>> = Vec::new();
    let mut i: usize = 0;
    assert(as_ints(widths@).len() == widths@.len());
    assert(rows_texts(cells@) =~= want.take(0));
    while i < rows.len()
        invariant
            i <= rows.len(),
            fits(headers@, rows@),
            widths@.len() == headers@.len(),
            numeric@.len() == headers@.len(),
            as_ints(widths@) == column_widths(headers@, rows@),
            numeric@ == numeric_columns(headers@, rows@),
            want == grid_cells(headers@, rows@),
            rows_texts(cells@) == want.take(i as int),
        decreases rows.len() - i,
    {
        assert(rows@[i as int]@.len() <= headers@.len());
        let shown = show_row(&rows[i], &widths, &numeric);
        proof {
            let t = texts(shown@);
            assert(rows_texts(cells@.push(shown)) =~= rows_texts(cells@).push(t));
            assert(want.take(i + 1) =~= want.take(i as int).push(t));
        }
        cells.push(shown);
        i += 1;
    }
    assert(want.take(want.len() as int) =~= want);
    Grid { widths, numeric, lit, cells }
}

/// The title over the table: the number of rows, and the cap where it is reached.
pub fn grid_title(rows: usize, cap: usize) -> (r: String)
    ensures
        r@ == " Data · "@ + decimal(rows as nat) + " rows"@ + (if rows >= cap {
            " (cap="@ + decimal(cap as nat) + ")"@
        } else {
            Seq::empty()
        }) + " "@,
{
    let head = cat3(" Data · ", show(rows as u128).as_str(), " rows");
    let hint = if rows >= cap {
        cat3(" (cap=", show(cap as u128).as_str(), ")")
    } else {
        let none = String::new();
        assert(none@ =~= Seq::empty());
        none
    };
    cat3(head.as_str(), hint.as_str(), " ")
}

// ─── laws ───────────────────────────────────────────────────────────────────
/// A cut text fits its width, and a text that fits is not cut.
pub proof fn ellipsised_text_fits(s: Seq<char>, max: int)
    requires
        0 <= max,
    ensures
        ellipsised(s, max).len() <= max,
        s.len() <= max ==> ellipsised(s, max) == s,
{
}

/// A right-aligned cell that was cut to its column has exactly the column's width.
pub proof fn numeric_cells_fill_their_column(s: Seq<char>, width: int)
    requires
        0 <= width,
    ensures
        shown_cell(s, width, true).len() == width,
{
    ellipsised_text_fits(s, width);
}

/// Every column is at least 4 and at most 40 characters wide.
pub proof fn columns_stay_in_bounds(
    header: Seq<char>,
    rows: Seq<Vec<String>>,
    col: int,
    n: int,
)
    ensures
        4 <= column_width(header, rows, col, n) <= 40,
    decreases n,
{
    if n > 0 {
        columns_stay_in_bounds(header, rows, col, n - 1);
    }
}

/// A text that does not fit is cut, and shows by a sign at its end that it was.
pub proof fn long_texts_are_cut(s: Seq<char>, max: int)
    requires
        0 < max < s.len(),
    ensures
        ellipsised(s, max).len() == max,
        ellipsised(s, max)[max - 1] == '…',
        forall|k: int| 0 <= k < max - 1 ==> #[trigger] ellipsised(s, max)[k] == s[k],
{
}

/// Numbers stand at the right end of their column, behind blanks, and other texts
/// at the left.
pub proof fn numbers_stand_at_the_right(s: Seq<char>, width: int)
    requires
        s.len() <= width,
    ensures
        shown_cell(s, width, false) == s,
        shown_cell(s, width, true).len() == width,
        shown_cell(s, width, true).skip(width - s.len()) == s,
        forall|k: int|
            0 <= k < width - s.len() ==> #[trigger] shown_cell(s, width, true)[k] == ' ',
{
    assert(shown_cell(s, width, true).skip(width - s.len()) =~= s);
}

/// A text counts with its length, up to 40.
pub open spec fn asked_width(s: Seq<char>) -> int {
    if s.len() < 40 {
        s.len() as int
    } else {
        40
    }
}

/// A column is as wide as its widest text asks for, and not wider: as its header, as
/// one of its cells, or as the least width.
pub proof fn columns_are_as_wide_as_needed(
    header: Seq<char>,
    rows: Seq<Vec<String>>,
    col: int,
    n: int,
)
    requires
        0 <= col,
        0 <= n <= rows.len(),
    ensures
        ({
            let w = column_width(header, rows, col, n);
            &&& w >= asked_width(header)
            &&& forall|r: int|
                0 <= r < n && col < (#[trigger] rows[r])@.len() ==> w >= asked_width(
                    rows[r]@[col]@,
                )
            &&& w == 4 || w == asked_width(header) || exists|r: int|
                0 <= r < n && col < (#[trigger] rows[r])@.len() && w == asked_width(rows[r]@[col]@)
        }),
    decreases n,
{
    if n > 0 {
        columns_are_as_wide_as_needed(header, rows, col, n - 1);
        let before = column_width(header, rows, col, n - 1);
        let w = column_width(header, rows, col, n);
        if w == before {
            if w != 4 && w != asked_width(header) {
                let r = choose|r: int|
                    0 <= r < n - 1 && col < (#[trigger] rows[r])@.len() && w == asked_width(
                        rows[r]@[col]@,
                    );
                assert(col < rows[r]@.len());
            }
        } else {
            assert(col < rows[n - 1]@.len() && w == asked_width(rows[n - 1]@[col]@));
        }
    }
}

/// Every cell of the table is the row's cell, cut to its column, at the right where
/// the column is numeric. A cell of up to 40 characters is not cut.
pub proof fn cells_show_the_rows(headers: Seq<String>, rows: Seq<Vec<String>>, r: int, c: int)
    requires
        fits(headers, rows),
        0 <= r < rows.len(),
        0 <= c < rows[r]@.len(),
    ensures
        grid_cells(headers, rows).len() == rows.len(),
        grid_cells(headers, rows)[r].len() == rows[r]@.len(),
        rows[r]@[c]@.len() <= 40 ==> ({
            let shown = grid_cells(headers, rows)[r][c];
            let text = rows[r]@[c]@;
            &&& shown.len() >= text.len()
            &&& shown.skip(shown.len() - text.len()) == text
            &&& !is_numeric_column(rows, c) ==> shown == text
        }),
{
    let text = rows[r]@[c]@;
    let w = column_width(headers[c]@, rows, c, rows.len() as int);
    assert(rows[r]@.len() <= headers.len());
    columns_are_as_wide_as_needed(headers[c]@, rows, c, rows.len() as int);
    if text.len() <= 40 {
        assert(w >= asked_width(text));
        numbers_stand_at_the_right(text, w);
        assert(text.skip(0) =~= text);
    }
}

/// A column is numeric where all of its values look like numbers, and it has one;
/// missing values do not count.
pub proof fn numeric_columns_hold_numbers(rows: Seq<Vec<String>>, col: int, r: int)
    requires
        0 <= r < rows.len(),
        0 <= col < rows[r]@.len(),
        rows[r]@[col]@.len() > 0,
        rows[r]@[col]@ != "∅"@,
    ensures
        !is_numeric(rows[r]@[col]@) ==> !is_numeric_column(rows, col),
        (forall|k: int|
            0 <= k < rows.len() && 0 <= col < (#[trigger] rows[k])@.len() && rows[k]@[col]@.len()
                > 0 && rows[k]@[col]@ != "∅"@ ==> is_numeric(rows[k]@[col]@)) ==> is_numeric_column(
            rows,
            col,
        ),
        !is_numeric_column(Seq::empty(), col),
{
    assert(has_value(rows[r]@, col));
}

/// A column is highlighted where the cursor stands, where it is the source column in
/// question, and where it is derived from that; and nowhere else.
pub proof fn highlights_follow_the_source(
    header: Seq<char>,
    col: usize,
    cursor: Option<usize>,
    source: Seq<char>,
    lineage: LineageView,
)
    ensures
        is_lit(header, col as int, Some(col), Some(source), lineage),
        is_lit(source, col as int, cursor, Some(source), lineage),
        source_named(lineage.derived, header, 0) == Some(source) ==> is_lit(
            header,
            col as int,
            cursor,
            Some(source),
            lineage,
        ),
        cursor != Some(col) && header != source && source_named(lineage.derived, header, 0) != Some(
            source,
        ) ==> !is_lit(header, col as int, cursor, Some(source), lineage),
        cursor != Some(col) ==> !is_lit(header, col as int, cursor, None, lineage),
{
}

} // verus!
