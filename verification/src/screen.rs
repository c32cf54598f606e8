//! What the panels of the browser show.
use vstd::prelude::*;

use crate::editor::{strip_return, without_return};
use crate::explain::{scan_views, ScanInfo, ScanView};
use crate::figures::{count_text, fmt_count};
use crate::grid::{ellipsise, ellipsised};
use crate::number::{decimal, show};
use crate::profile::ExplainSummary;
use crate::session::Flash;
use crate::source::InputFormat;
use crate::text::{
    cat2, cat3, cat4, chars_of, copy_of, find, find_from, has_text, is_word, join, joined,
    lemma_find_from_range, lower, lowered, occurs_at, opt_text, pieces_are_split_off_in_turn,
    push_text, same, split, split_on, substring, texts, texts_without_separator_stay_whole,
};

verus! {

// ─── lines ──────────────────────────────────────────────────────────────────
/// The lines of a text, without their ends. A text that ends with a line end
/// has no empty line behind it.
pub open spec fn lines_of(s: Seq<char>) -> Seq<Seq<char>> {
    let pieces = split_on(s, "\n"@);
    let ended = Seq::new(
        (pieces.len() - 1) as nat,
        |i: int| without_return(pieces[i]),
    );
    if pieces.last().len() == 0 {
        ended
    } else {
        ended.push(pieces.last())
    }
}

/// Splits a text into its lines.
pub fn split_lines(s: &str) -> (r: Vec<String>)
    ensures
        texts(r@) == lines_of(s@),
{
    proof {
        reveal_strlit("\n");
        lemma_find_from_range(s@, "\n"@, 0);
    }
    let pieces = split(s, "\n");
    let ghost views = texts(pieces@);
    assert(views.len() == pieces@.len());
    let last: usize = pieces.len() - 1;
    let ghost want = Seq::new(last as nat, |i: int| without_return(views[i]));
    let mut out: Vec<String> = Vec::new();
    let mut i: usize = 0;
    assert(texts(out@) =~= want.take(0));
    while i < last
        invariant
            i <= last < pieces.len(),
            views == texts(pieces@),
            want == Seq::new(last as nat, |i: int| without_return(views[i])),
            texts(out@) == want.take(i as int),
        decreases last - i,
    {
        assert(views[i as int] == pieces@[i as int]@);
        let line = strip_return(pieces[i].as_str());
        proof {
            crate::text::lemma_texts_push(out@, line);
            assert(want.take(i + 1) =~= want.take(i as int).push(line@));
        }
        out.push(line);
        i += 1;
    }
    assert(want.take(want.len() as int) =~= want);
    assert(views[last as int] == pieces@[last as int]@);
    if !pieces[last].as_str().is_empty() {
        let line = pieces[last].clone();
        proof {
            crate::text::lemma_texts_push(out@, line);
        }
        out.push(line);
    }
    out
}

// ─── spans ──────────────────────────────────────────────────────────────────
/// How a piece of text is drawn.
#[derive(Debug, Clone, Copy, PartialEq, Eq, Structural)]
pub enum SpanStyle {
    Plain,
    /// Something that went well.
    Good,
    /// Something to look at.
    Warn,
    /// Something in the background.
    Dim,
    /// Something that was measured.
    Measured,
}

/// A piece of text with its style.
#[derive(Debug)]
pub struct StyledText {
    pub text: String,
    pub style: SpanStyle,
}

/// The mathematical value of a line of styled text.
pub type RowView = Seq<(Seq<char>, SpanStyle)>;

/// The pieces of a line.
pub open spec fn row_view(row: Seq<StyledText>) -> RowView {
    Seq::new(row.len(), |i: int| (row[i].text@, row[i].style))
}

/// The pieces of all lines.
pub open spec fn row_views(rows: Seq<Vec<StyledText>>) -> Seq<RowView> {
    Seq::new(rows.len(), |i: int| row_view(rows[i]@))
}

fn push_span(row: &mut Vec<StyledText>, text: String, style: SpanStyle)
    ensures
        row_view(final(row)@) == row_view(old(row)@).push((text@, style)),
{
    let ghost before = row@;
    let span = StyledText { text, style };
    row.push(span);
    assert(row_view(before.push(span)) =~= row_view(before).push((text@, style)));
}

fn push_row(rows: &mut Vec<Vec<StyledText>>, row: Vec<StyledText>)
    ensures
        row_views(final(rows)@) == row_views(old(rows)@).push(row_view(row@)),
{
    let ghost before = rows@;
    let ghost v = row_view(row@);
    rows.push(row);
    assert(row_views(rows@) =~= row_views(before).push(v));
}

fn one_span(text: String, style: SpanStyle) -> (r: Vec<StyledText>)
    ensures
        row_view(r@) == seq![(text@, style)],
{
    let mut row: Vec<StyledText> = Vec::new();
    push_span(&mut row, text, style);
    assert(row_view(row@) =~= seq![(text@, style)]);
    row
}

// ─── the Explain panel ──────────────────────────────────────────────────────
/// How many filters the scans apply.
pub open spec fn filter_total(scans: Seq<ScanView>) -> nat
    decreases scans.len(),
{
    if scans.len() == 0 {
        0
    } else {
        filter_total(scans.drop_last()) + scans.last().filters.len()
    }
}

/// How many columns the scans read.
pub open spec fn projection_total(scans: Seq<ScanView>) -> nat
    decreases scans.len(),
{
    if scans.len() == 0 {
        0
    } else {
        projection_total(scans.drop_last()) + scans.last().projections.len()
    }
}

/// The number, or zero where there is none.
pub open spec fn or_zero(n: Option<u64>) -> nat {
    match n {
        Some(n) => n as nat,
        None => 0,
    }
}

/// How many rows the scans were estimated to give.
pub open spec fn estimated_total(scans: Seq<ScanView>) -> nat
    decreases scans.len(),
{
    if scans.len() == 0 {
        0
    } else {
        estimated_total(scans.drop_last()) + or_zero(scans.last().estimated_rows)
    }
}

/// How many rows the scans gave.
pub open spec fn actual_total(scans: Seq<ScanView>) -> nat
    decreases scans.len(),
{
    if scans.len() == 0 {
        0
    } else {
        actual_total(scans.drop_last()) + or_zero(scans.last().actual_rows)
    }
}

/// The row counts of the scans add up to machine integers.
pub open spec fn totals_fit(scans: Seq<ScanView>) -> bool {
    estimated_total(scans) <= u64::MAX && actual_total(scans) <= u64::MAX
}

proof fn lemma_totals_grow(scans: Seq<ScanView>, n: int)
    requires
        0 <= n <= scans.len(),
    ensures
        estimated_total(scans.take(n)) <= estimated_total(scans),
        actual_total(scans.take(n)) <= actual_total(scans),
    decreases scans.len() - n,
{
    if n == scans.len() {
        assert(scans.take(n) =~= scans);
    } else {
        lemma_totals_grow(scans, n + 1);
        assert(scans.take(n + 1).drop_last() =~= scans.take(n));
    }
}

/// Adds up the row counts of the scans, none where they do not fit.
pub fn row_totals(scans: &Vec<ScanInfo>) -> (r: Option<(u64, u64)>)
    ensures
        match r {
            Some((est, act)) => {
                &&& est == estimated_total(scan_views(scans@))
                &&& act == actual_total(scan_views(scans@))
            },
            None => !totals_fit(scan_views(scans@)),
        },
{
    let ghost views = scan_views(scans@);
    let mut est: u64 = 0;
    let mut act: u64 = 0;
    let mut i: usize = 0;
    assert(views.take(0) =~= Seq::empty());
    while i < scans.len()
        invariant
            i <= scans.len(),
            views == scan_views(scans@),
            est == estimated_total(views.take(i as int)),
            act == actual_total(views.take(i as int)),
        decreases scans.len() - i,
    {
        proof {
            assert(views.take(i + 1).drop_last() =~= views.take(i as int));
            assert(views.take(i + 1).last() == scans@[i as int]@);
            lemma_totals_grow(views, i + 1);
        }
        let e: u64 = match scans[i].estimated_rows {
            Some(n) => n,
            None => 0,
        };
        let a: u64 = match scans[i].actual_rows {
            Some(n) => n,
            None => 0,
        };
        if e > u64::MAX - est || a > u64::MAX - act {
            return None;
        }
        est = est + e;
        act = act + a;
        i += 1;
    }
    assert(views.take(views.len() as int) =~= views);
    Some((est, act))
}

fn count_filters(scans: &Vec<ScanInfo>) -> (r: u128)
    requires
        scans@.len() <= usize::MAX,
    ensures
        r == filter_total(scan_views(scans@)),
{
    let ghost views = scan_views(scans@);
    let mut total: u128 = 0;
    let mut i: usize = 0;
    assert(views.take(0) =~= Seq::empty());
    while i < scans.len()
        invariant
            i <= scans.len(),
            views == scan_views(scans@),
            total == filter_total(views.take(i as int)),
            total <= i * 0x1_0000_0000_0000_0000,
        decreases scans.len() - i,
    {
        assert(views.take(i + 1).drop_last() =~= views.take(i as int));
        assert(views.take(i + 1).last() == scans@[i as int]@);
        let n: usize = scans[i].filters.len();
        assert(i * 0x1_0000_0000_0000_0000 + n <= (i + 1) * 0x1_0000_0000_0000_0000);
        total = total + n as u128;
        i += 1;
    }
    assert(views.take(views.len() as int) =~= views);
    total
}

fn count_projections(scans: &Vec<ScanInfo>) -> (r: u128)
    requires
        scans@.len() <= usize::MAX,
    ensures
        r == projection_total(scan_views(scans@)),
{
    let ghost views = scan_views(scans@);
    let mut total: u128 = 0;
    let mut i: usize = 0;
    assert(views.take(0) =~= Seq::empty());
    while i < scans.len()
        invariant
            i <= scans.len(),
            views == scan_views(scans@),
            total == projection_total(views.take(i as int)),
            total <= i * 0x1_0000_0000_0000_0000,
        decreases scans.len() - i,
    {
        assert(views.take(i + 1).drop_last() =~= views.take(i as int));
        assert(views.take(i + 1).last() == scans@[i as int]@);
        let n: usize = scans[i].projections.len();
        assert(i * 0x1_0000_0000_0000_0000 + n <= (i + 1) * 0x1_0000_0000_0000_0000);
        total = total + n as u128;
        i += 1;
    }
    assert(views.take(views.len() as int) =~= views);
    total
}

/// The first line: how many scans, rows, filters and columns there are.
pub open spec fn totals_row(scans: Seq<ScanView>, analyzed: bool) -> RowView {
    let act = actual_total(scans);
    let rows = if analyzed && act > 0 {
        (count_text(act as int) + " actual rows"@, SpanStyle::Measured)
    } else {
        ("~"@ + count_text(estimated_total(scans) as int) + " estimated rows"@, SpanStyle::Plain)
    };
    seq![
        (decimal(scans.len()) + " scan(s)"@, SpanStyle::Plain),
        ("  •  "@, SpanStyle::Plain),
        rows,
        ("  •  "@, SpanStyle::Plain),
        (decimal(filter_total(scans)) + " filter(s) pushed"@, SpanStyle::Plain),
        ("  •  "@, SpanStyle::Plain),
        (decimal(projection_total(scans)) + " projection(s)"@, SpanStyle::Plain),
    ]
}

/// What stands before the facts of a scan.
pub open spec fn scan_prefix(i: int, many: bool) -> Seq<char> {
    if many {
        "  scan "@ + decimal((i + 1) as nat) + ": "@
    } else {
        "  "@
    }
}

/// The line about the filters that a scan applies.
pub open spec fn filter_rows(scan: ScanView, prefix: Seq<char>) -> Seq<RowView> {
    if scan.filters.len() > 0 {
        seq![
            seq![
                (prefix, SpanStyle::Plain),
                ("✓ predicate pushdown: "@, SpanStyle::Good),
                (joined(scan.filters, " AND "@), SpanStyle::Plain),
            ],
        ]
    } else {
        Seq::empty()
    }
}

/// The line about the columns that a scan reads.
pub open spec fn projection_rows(scan: ScanView, prefix: Seq<char>) -> Seq<RowView> {
    if scan.projections.len() > 0 {
        seq![
            seq![
                (prefix, SpanStyle::Plain),
                (
                    "✓ projection pushdown: "@ + decimal(scan.projections.len()) + " col(s) "@,
                    SpanStyle::Good,
                ),
                (ellipsised(joined(scan.projections, ", "@), 60), SpanStyle::Dim),
            ],
        ]
    } else {
        Seq::empty()
    }
}

/// The line about a row count that was estimated otherwise.
pub open spec fn actual_rows(scan: ScanView, prefix: Seq<char>) -> Seq<RowView> {
    match (scan.actual_rows, scan.estimated_rows) {
        (Some(act), Some(est)) => if act != est {
            seq![
                seq![
                    (prefix, SpanStyle::Plain),
                    ("● actual "@ + count_text(act as int) + " rows"@, SpanStyle::Measured),
                    ("  (estimated ~"@ + count_text(est as int) + ")"@, SpanStyle::Dim),
                ],
            ]
        } else {
            Seq::empty()
        },
        _ => Seq::empty(),
    }
}

/// The line about the files that were read.
pub open spec fn files_rows(scan: ScanView, prefix: Seq<char>) -> Seq<RowView> {
    match scan.files_read {
        Some(n) => if n > 1 {
            seq![
                seq![
                    (prefix, SpanStyle::Plain),
                    ("● scanned "@ + decimal(n as nat) + " files"@, SpanStyle::Measured),
                ],
            ]
        } else {
            Seq::empty()
        },
        None => Seq::empty(),
    }
}

/// The colour of a share of skipped rows: half or more, something, or nothing.
pub open spec fn gauge(scanned: u64, total: u64) -> SpanStyle {
    if 2 * scanned <= total && total > 0 {
        SpanStyle::Good
    } else if scanned < total {
        SpanStyle::Warn
    } else {
        SpanStyle::Dim
    }
}

/// The line about the rows that were skipped.
pub open spec fn pruned_rows(scan: ScanView, prefix: Seq<char>) -> Seq<RowView> {
    match (scan.pruned_percent, scan.rows_scanned, scan.file_total_rows) {
        (Some(pct), Some(scanned), Some(total)) => seq![
            seq![
                (prefix, SpanStyle::Plain),
                (
                    "● pruned: "@ + decimal(pct as nat) + "% ("@ + count_text(scanned as int)
                        + "/"@ + count_text(total as int) + " rows)"@,
                    gauge(scanned, total),
                ),
            ],
        ],
        _ => Seq::empty(),
    }
}

/// The lines about a scan.
pub open spec fn scan_rows(scan: ScanView, prefix: Seq<char>, analyzed: bool) -> Seq<RowView> {
    filter_rows(scan, prefix) + projection_rows(scan, prefix) + if analyzed {
        actual_rows(scan, prefix) + files_rows(scan, prefix) + pruned_rows(scan, prefix)
    } else {
        Seq::empty()
    }
}

/// The lines about the first `n` scans.
pub open spec fn all_scan_rows(scans: Seq<ScanView>, analyzed: bool, n: int) -> Seq<RowView>
    decreases n,
{
    if n <= 0 {
        Seq::empty()
    } else {
        all_scan_rows(scans, analyzed, n - 1) + scan_rows(
            scans[n - 1],
            scan_prefix(n - 1, scans.len() > 1),
            analyzed,
        )
    }
}

/// A line of one piece.
pub open spec fn single(text: Seq<char>, style: SpanStyle) -> RowView {
    seq![(text, style)]
}

/// The hints, behind an empty line.
pub open spec fn hint_rows(suggestions: Seq<Seq<char>>) -> Seq<RowView> {
    if suggestions.len() == 0 {
        Seq::empty()
    } else {
        seq![single(""@, SpanStyle::Plain)] + Seq::new(
            suggestions.len(),
            |i: int| single(suggestions[i], SpanStyle::Warn),
        )
    }
}

/// The first lines of the plan's text.
pub open spec fn raw_rows(raw: Seq<char>) -> Seq<RowView> {
    let lines = lines_of(raw);
    Seq::new(
        if lines.len() > 6 {
            6
        } else {
            lines.len()
        },
        |i: int| single(lines[i], SpanStyle::Dim),
    )
}

/// The lines of the Explain panel: totals, scans and hints, and the plan itself
/// where there is nothing but the totals.
pub open spec fn explain_lines(e: Option<ExplainSummary>) -> Seq<RowView> {
    match e {
        None => seq![single("(query failed — fix it to see the plan)"@, SpanStyle::Dim)],
        Some(e) => {
            let scans = scan_views(e.scans@);
            let facts = seq![totals_row(scans, e.analyzed)] + all_scan_rows(
                scans,
                e.analyzed,
                scans.len() as int,
            ) + hint_rows(texts(e.suggestions@));
            if facts.len() <= 1 {
                facts + raw_rows(e.raw@)
            } else {
                facts
            }
        },
    }
}

proof fn lemma_no_rows(rows: Seq<RowView>)
    ensures
        rows + Seq::<RowView>::empty() == rows,
{
    assert(rows + Seq::<RowView>::empty() =~= rows);
}

fn add_row(rows: &mut Vec<Vec<StyledText>>, row: Vec<StyledText>)
    ensures
        row_views(final(rows)@) == row_views(old(rows)@) + seq![row_view(row@)],
{
    push_row(rows, row);
    assert(row_views(old(rows)@).push(row_view(row@)) =~= row_views(old(rows)@) + seq![
        row_view(row@),
    ]);
}

fn two_spans(a: String, x: SpanStyle, b: String, y: SpanStyle) -> (r: Vec<StyledText>)
    ensures
        row_view(r@) == seq![(a@, x), (b@, y)],
{
    let mut row = one_span(a, x);
    push_span(&mut row, b, y);
    assert(row_view(row@) =~= seq![(a@, x), (b@, y)]);
    row
}

fn three_spans(
    a: String,
    x: SpanStyle,
    b: String,
    y: SpanStyle,
    c: String,
    z: SpanStyle,
) -> (r: Vec<StyledText>)
    ensures
        row_view(r@) == seq![(a@, x), (b@, y), (c@, z)],
{
    let mut row = two_spans(a, x, b, y);
    push_span(&mut row, c, z);
    assert(row_view(row@) =~= seq![(a@, x), (b@, y), (c@, z)]);
    row
}

fn show_totals(scans: &Vec<ScanInfo>, analyzed: bool, est: u64, act: u64) -> (r: Vec<StyledText>)
    requires
        est == estimated_total(scan_views(scans@)),
        act == actual_total(scan_views(scans@)),
    ensures
        row_view(r@) == totals_row(scan_views(scans@), analyzed),
{
    let n: usize = scans.len();
    let mut row = two_spans(
        cat2(show(n as u128).as_str(), " scan(s)"),
        SpanStyle::Plain,
        copy_of("  •  "),
        SpanStyle::Plain,
    );
    if analyzed && act > 0 {
        push_span(
            &mut row,
            cat2(fmt_count(act).as_str(), " actual rows"),
            SpanStyle::Measured,
        );
    } else {
        push_span(
            &mut row,
            cat3("~", fmt_count(est).as_str(), " estimated rows"),
            SpanStyle::Plain,
        );
    }
    push_span(&mut row, copy_of("  •  "), SpanStyle::Plain);
    push_span(
        &mut row,
        cat2(show(count_filters(scans)).as_str(), " filter(s) pushed"),
        SpanStyle::Plain,
    );
    push_span(&mut row, copy_of("  •  "), SpanStyle::Plain);
    push_span(
        &mut row,
        cat2(show(count_projections(scans)).as_str(), " projection(s)"),
        SpanStyle::Plain,
    );
    assert(row_view(row@) =~= totals_row(scan_views(scans@), analyzed));
    row
}

fn show_filters(rows: &mut Vec<Vec<StyledText>>, scan: &ScanInfo, prefix: &str)
    ensures
        row_views(final(rows)@) == row_views(old(rows)@) + filter_rows(scan@, prefix@),
{
    if scan.filters.len() > 0 {
        add_row(
            rows,
            three_spans(
                copy_of(prefix),
                SpanStyle::Plain,
                copy_of("✓ predicate pushdown: "),
                SpanStyle::Good,
                join(&scan.filters, " AND "),
                SpanStyle::Plain,
            ),
        );
    } else {
        proof {
            lemma_no_rows(row_views(rows@));
        }
    }
}

fn show_projections(rows: &mut Vec<Vec<StyledText>>, scan: &ScanInfo, prefix: &str)
    ensures
        row_views(final(rows)@) == row_views(old(rows)@) + projection_rows(scan@, prefix@),
{
    let n: usize = scan.projections.len();
    if n > 0 {
        let label = cat3("✓ projection pushdown: ", show(n as u128).as_str(), " col(s) ");
        let list = ellipsise(join(&scan.projections, ", ").as_str(), 60);
        add_row(
            rows,
            three_spans(
                copy_of(prefix),
                SpanStyle::Plain,
                label,
                SpanStyle::Good,
                list,
                SpanStyle::Dim,
            ),
        );
    } else {
        proof {
            lemma_no_rows(row_views(rows@));
        }
    }
}

fn show_actual(rows: &mut Vec<Vec<StyledText>>, scan: &ScanInfo, prefix: &str)
    ensures
        row_views(final(rows)@) == row_views(old(rows)@) + actual_rows(scan@, prefix@),
{
    if let (Some(act), Some(est)) = (scan.actual_rows, scan.estimated_rows) {
        if act != est {
            add_row(
                rows,
                three_spans(
                    copy_of(prefix),
                    SpanStyle::Plain,
                    cat3("● actual ", fmt_count(act).as_str(), " rows"),
                    SpanStyle::Measured,
                    cat3("  (estimated ~", fmt_count(est).as_str(), ")"),
                    SpanStyle::Dim,
                ),
            );
            return ;
        }
    }
    proof {
        lemma_no_rows(row_views(rows@));
    }
}

fn show_files(rows: &mut Vec<Vec<StyledText>>, scan: &ScanInfo, prefix: &str)
    ensures
        row_views(final(rows)@) == row_views(old(rows)@) + files_rows(scan@, prefix@),
{
    if let Some(n) = scan.files_read {
        if n > 1 {
            add_row(
                rows,
                two_spans(
                    copy_of(prefix),
                    SpanStyle::Plain,
                    cat3("● scanned ", show(n as u128).as_str(), " files"),
                    SpanStyle::Measured,
                ),
            );
            return ;
        }
    }
    proof {
        lemma_no_rows(row_views(rows@));
    }
}

fn show_pruned(rows: &mut Vec<Vec<StyledText>>, scan: &ScanInfo, prefix: &str)
    ensures
        row_views(final(rows)@) == row_views(old(rows)@) + pruned_rows(scan@, prefix@),
{
    if let (Some(pct), Some(scanned), Some(total)) = (
        scan.pruned_percent,
        scan.rows_scanned,
        scan.file_total_rows,
    ) {
        let style = if total > 0 && 2 * (scanned as u128) <= total as u128 {
            SpanStyle::Good
        } else if scanned < total {
            SpanStyle::Warn
        } else {
            SpanStyle::Dim
        };
        let mut text = cat3("● pruned: ", show(pct as u128).as_str(), "% (");
        push_text(&mut text, fmt_count(scanned).as_str());
        push_text(&mut text, "/");
        push_text(&mut text, fmt_count(total).as_str());
        push_text(&mut text, " rows)");
        add_row(rows, two_spans(copy_of(prefix), SpanStyle::Plain, text, style));
        return ;
    }
    proof {
        lemma_no_rows(row_views(rows@));
    }
}

fn show_scan(rows: &mut Vec<Vec<StyledText>>, scan: &ScanInfo, prefix: &str, analyzed: bool)
    ensures
        row_views(final(rows)@) == row_views(old(rows)@) + scan_rows(scan@, prefix@, analyzed),
{
    show_filters(rows, scan, prefix);
    show_projections(rows, scan, prefix);
    if analyzed {
        show_actual(rows, scan, prefix);
        show_files(rows, scan, prefix);
        show_pruned(rows, scan, prefix);
    }
    assert(row_views(rows@) =~= row_views(old(rows)@) + scan_rows(scan@, prefix@, analyzed));
}

fn show_hints(rows: &mut Vec<Vec<StyledText>>, suggestions: &Vec<String>)
    ensures
        row_views(final(rows)@) == row_views(old(rows)@) + hint_rows(texts(suggestions@)),
{
    let ghost start = row_views(rows@);
    let ghost views = texts(suggestions@);
    let ghost want = hint_rows(views);
    if suggestions.len() == 0 {
        proof {
            lemma_no_rows(start);
        }
        return ;
    }
    add_row(rows, one_span(copy_of(""), SpanStyle::Plain));
    let mut i: usize = 0;
    assert(row_views(rows@) =~= start + want.take(1));
    while i < suggestions.len()
        invariant
            i <= suggestions.len(),
            suggestions@.len() > 0,
            views == texts(suggestions@),
            want == hint_rows(views),
            row_views(rows@) == start + want.take(i + 1),
        decreases suggestions.len() - i,
    {
        assert(views[i as int] == suggestions@[i as int]@);
        add_row(rows, one_span(suggestions[i].clone(), SpanStyle::Warn));
        assert(row_views(rows@) =~= start + want.take(i + 2));
        i += 1;
    }
    assert(want.take(want.len() as int) =~= want);
}

fn show_raw(rows: &mut Vec<Vec<StyledText>>, raw: &str)
    ensures
        row_views(final(rows)@) == row_views(old(rows)@) + raw_rows(raw@),
{
    let ghost start = row_views(rows@);
    let lines = split_lines(raw);
    let ghost views = texts(lines@);
    let ghost want = raw_rows(raw@);
    assert(views.len() == lines@.len());
    let n: usize = if lines.len() > 6 {
        6
    } else {
        lines.len()
    };
    let mut i: usize = 0;
    assert(start =~= start + want.take(0));
    while i < n
        invariant
            i <= n <= lines.len(),
            n == want.len(),
            views == texts(lines@),
            views == lines_of(raw@),
            want == raw_rows(raw@),
            row_views(rows@) == start + want.take(i as int),
        decreases n - i,
    {
        assert(views[i as int] == lines@[i as int]@);
        add_row(rows, one_span(lines[i].clone(), SpanStyle::Dim));
        assert(row_views(rows@) =~= start + want.take(i + 1));
        i += 1;
    }
    assert(want.take(want.len() as int) =~= want);
}

/// Lists the lines of the Explain panel.
pub fn explain_rows(e: &Option<ExplainSummary>) -> (r: Vec<Vec<StyledText>>)
    requires
        e matches Some(e) ==> totals_fit(scan_views(e.scans@)),
    ensures
        row_views(r@) == explain_lines(*e),
{
    let mut rows: Vec<Vec<StyledText>> = Vec::new();
    match e {
        None => {
            add_row(
                &mut rows,
                one_span(copy_of("(query failed — fix it to see the plan)"), SpanStyle::Dim),
            );
            assert(row_views(rows@) =~= explain_lines(None));
            rows
        },
        Some(e) => {
            let ghost scans = scan_views(e.scans@);
            let (est, act): (u64, u64) = match row_totals(&e.scans) {
                Some(t) => t,
                None => (0, 0),
            };
            add_row(&mut rows, show_totals(&e.scans, e.analyzed, est, act));
            let ghost first = seq![totals_row(scans, e.analyzed)];
            assert(row_views(rows@) =~= first + all_scan_rows(scans, e.analyzed, 0));
            let many = e.scans.len() > 1;
            let mut i: usize = 0;
            while i < e.scans.len()
                invariant
                    i <= e.scans.len(),
                    scans == scan_views(e.scans@),
                    many == (scans.len() > 1),
                    row_views(rows@) == first + all_scan_rows(scans, e.analyzed, i as int),
                decreases e.scans.len() - i,
            {
                assert(scans[i as int] == e.scans@[i as int]@);
                let prefix = if many {
                    cat3("  scan ", show(i as u128 + 1).as_str(), ": ")
                } else {
                    copy_of("  ")
                };
                show_scan(&mut rows, &e.scans[i], prefix.as_str(), e.analyzed);
                assert(row_views(rows@) =~= first + all_scan_rows(scans, e.analyzed, i + 1));
                i += 1;
            }
            show_hints(&mut rows, &e.suggestions);
            assert(row_views(rows@).len() == rows@.len());
            if rows.len() <= 1 {
                show_raw(&mut rows, e.raw.as_str());
            }
            rows
        },
    }
}

// ─── the other panels ───────────────────────────────────────────────────────
/// The mark before a column: a star for the source in focus, a check for a
/// column that the query names.
pub open spec fn column_mark(name: Seq<char>, selected: bool, source: Option<Seq<char>>) -> Seq<
    char,
> {
    if source == Some(name) {
        "★ "@
    } else if selected {
        "✓ "@
    } else {
        "  "@
    }
}

/// Picks the mark before a column, and tells whether it is the source in focus.
pub fn mark_column(name: &str, selected: bool, source: &Option<String>) -> (r: (
    &'static str,
    bool,
))
    ensures
        r.0@ == column_mark(name@, selected, opt_text(*source)),
        r.1 == (opt_text(*source) == Some(name@)),
{
    if let Some(src) = source {
        if same(src.as_str(), name) {
            return ("★ ", true);
        }
    }
    if selected {
        ("✓ ", false)
    } else {
        ("  ", false)
    }
}

/// What a title says of the input's format.
pub open spec fn format_tag(fmt: InputFormat) -> Seq<char> {
    match fmt {
        InputFormat::Parquet => ""@,
        InputFormat::Ndjson => " · ndjson"@,
        InputFormat::Csv => " · csv"@,
    }
}

/// The title of the Columns panel.
pub fn columns_title(n: usize, fmt: InputFormat) -> (r: String)
    ensures
        r@ == " Columns · "@ + decimal(n as nat) + format_tag(fmt) + " "@,
{
    let tag = match fmt {
        InputFormat::Parquet => "",
        InputFormat::Ndjson => " · ndjson",
        InputFormat::Csv => " · csv",
    };
    cat4(" Columns · ", show(n as u128).as_str(), tag, " ")
}

/// The title of the Filters panel.
pub fn filters_title(n: usize) -> (r: String)
    ensures
        r@ == " Filters · "@ + decimal(n as nat) + " "@,
{
    cat3(" Filters · ", show(n as u128).as_str(), " ")
}

/// The first line of a text.
pub open spec fn first_line(s: Seq<char>) -> Seq<char> {
    if lines_of(s).len() > 0 {
        lines_of(s)[0]
    } else {
        Seq::empty()
    }
}

/// The title of the Query panel while nothing runs: the error, or how long the
/// query took.
pub open spec fn idle_title(error: Option<Seq<char>>, ms: int) -> Seq<char> {
    match error {
        Some(e) => " Query · ⚠ "@ + first_line(e) + " "@,
        None => " Query · "@ + decimal(ms as nat) + " ms "@,
    }
}

/// Writes the title of the Query panel while nothing runs.
pub fn query_title(error: &Option<String>, last_ms: u128) -> (r: String)
    ensures
        r@ == idle_title(opt_text(*error), last_ms as int),
{
    match error {
        Some(e) => {
            let lines = split_lines(e.as_str());
            assert(texts(lines@).len() == lines@.len());
            if lines.len() > 0 {
                assert(texts(lines@)[0] == lines@[0]@);
                cat3(" Query · ⚠ ", lines[0].as_str(), " ")
            } else {
                let none = String::new();
                assert(none@ =~= Seq::empty());
                cat3(" Query · ⚠ ", none.as_str(), " ")
            }
        },
        None => cat3(" Query · ", show(last_ms).as_str(), " ms "),
    }
}

/// What the Data panel says where there is no table.
pub fn no_data_message(error: &Option<String>) -> (r: String)
    ensures
        r@ == match *error {
            Some(e) => "error:\n  "@ + e@,
            None => "(no rows)"@,
        },
{
    match error {
        Some(e) => cat2("error:\n  ", e.as_str()),
        None => copy_of("(no rows)"),
    }
}

/// The text of the status bar: a message, the keys of the completion, or the
/// keys of the panels.
pub open spec fn status_line(flash: Option<Flash>, completing: bool, interrupted: Seq<char>) -> Seq<
    char,
> {
    match flash {
        Some(Flash::Text(t)) => t@,
        Some(Flash::Interrupted) => interrupted,
        None => if completing {
            " ↑↓ pick · ⏎/Tab insert · Esc cancel · keep typing to filter "@
        } else {
            " Tab next │ ␣ toggle │ ⏎ append/drill │ ⌫ undo │ Q exit+print │ Esc quit │ : SQL │ e Explain │ E ANALYZE │ ? help "@
        },
    }
}

/// Writes the text of the status bar. The message about an interrupt is given.
pub fn status_text(flash: &Option<Flash>, completing: bool, interrupted: &str) -> (r: String)
    ensures
        r@ == status_line(*flash, completing, interrupted@),
{
    match flash {
        Some(Flash::Text(t)) => t.clone(),
        Some(Flash::Interrupted) => copy_of(interrupted),
        None => {
            if completing {
                copy_of(" ↑↓ pick · ⏎/Tab insert · Esc cancel · keep typing to filter ")
            } else {
                copy_of(
                    " Tab next │ ␣ toggle │ ⏎ append/drill │ ⌫ undo │ Q exit+print │ Esc quit │ : SQL │ e Explain │ E ANALYZE │ ? help ",
                )
            }
        },
    }
}

// ─── highlighting ───────────────────────────────────────────────────────────
/// A character with a meaning of its own in a regular expression.
pub open spec fn is_regex_special(c: char) -> bool {
    ".+*?()|[]{}^$\\"@.contains(c)
}

/// `s[i..]` as a regular expression that matches just this text.
pub open spec fn regex_escaped_from(s: Seq<char>, i: int) -> Seq<char>
    decreases s.len() - i,
{
    if i < 0 || i >= s.len() {
        Seq::empty()
    } else if is_regex_special(s[i]) {
        seq!['\\', s[i]] + regex_escaped_from(s, i + 1)
    } else {
        seq![s[i]] + regex_escaped_from(s, i + 1)
    }
}

/// A text as a regular expression that matches just this text.
pub open spec fn regex_escaped(s: Seq<char>) -> Seq<char> {
    regex_escaped_from(s, 0)
}

/// Puts a backslash before every special character.
pub fn regex_escape(s: &str) -> (r: String)
    ensures
        r@ == regex_escaped(s@),
{
    let cs = chars_of(s);
    let mut out = String::new();
    let mut i: usize = 0;
    assert(out@ + regex_escaped_from(s@, 0) =~= regex_escaped(s@));
    while i < cs.len()
        invariant
            i <= cs.len(),
            cs@ == s@,
            out@ + regex_escaped_from(s@, i as int) == regex_escaped(s@),
        decreases cs.len() - i,
    {
        let ghost before = out@;
        if crate::text::contains_char(".+*?()|[]{}^$\\", cs[i]) {
            out.push('\\');
        }
        out.push(cs[i]);
        assert(before + regex_escaped_from(s@, i as int) =~= out@ + regex_escaped_from(s@, i + 1));
        i += 1;
    }
    assert(out@ =~= out@ + regex_escaped_from(s@, i as int));
    out
}

/// What an escaped text stands for: a backslash makes the next character plain,
/// and no special character stands alone.
pub open spec fn regex_text_from(s: Seq<char>, i: int) -> Option<Seq<char>>
    decreases s.len() - i,
{
    if i < 0 || i >= s.len() {
        Some(Seq::empty())
    } else if s[i] == '\\' {
        if i + 1 < s.len() {
            match regex_text_from(s, i + 2) {
                Some(rest) => Some(seq![s[i + 1]] + rest),
                None => None,
            }
        } else {
            None
        }
    } else if is_regex_special(s[i]) {
        None
    } else {
        match regex_text_from(s, i + 1) {
            Some(rest) => Some(seq![s[i]] + rest),
            None => None,
        }
    }
}

proof fn lemma_regex_text_shift(a: Seq<char>, b: Seq<char>, i: int)
    requires
        0 <= i,
    ensures
        regex_text_from(a + b, a.len() + i) == regex_text_from(b, i),
    decreases b.len() - i,
{
    if i < b.len() {
        lemma_regex_text_shift(a, b, i + 1);
        if i + 1 < b.len() {
            lemma_regex_text_shift(a, b, i + 2);
        }
    }
}

proof fn lemma_escaped_tail_matches(s: Seq<char>, i: int)
    requires
        0 <= i <= s.len(),
    ensures
        regex_text_from(regex_escaped_from(s, i), 0) == Some(s.skip(i)),
    decreases s.len() - i,
{
    if i == s.len() {
        assert(s.skip(i) =~= Seq::empty());
    } else {
        let rest = regex_escaped_from(s, i + 1);
        lemma_escaped_tail_matches(s, i + 1);
        assert(seq![s[i]] + s.skip(i + 1) =~= s.skip(i));
        reveal_strlit(".+*?()|[]{}^$\\");
        let specials = ".+*?()|[]{}^$\\"@;
        assert(specials[13] == '\\');
        assert(specials.contains('\\'));
        if is_regex_special(s[i]) {
            lemma_regex_text_shift(seq!['\\', s[i]], rest, 0);
        } else {
            lemma_regex_text_shift(seq![s[i]], rest, 0);
        }
    }
}

/// The escaped text, read as a regular expression, stands for the text.
pub proof fn escaped_pattern_matches_the_text(s: Seq<char>)
    ensures
        regex_text_from(regex_escaped(s), 0) == Some(s),
{
    lemma_escaped_tail_matches(s, 0);
    assert(s.skip(0) =~= s);
}

/// The pattern for the references to the source in focus.
pub open spec fn reference_pattern(source: Option<Seq<char>>) -> Seq<char> {
    match source {
        Some(name) => if name.len() > 0 {
            "\\."@ + regex_escaped(name) + "\\b"@
        } else {
            ""@
        },
        None => ""@,
    }
}

/// Builds the pattern for the references to the source in focus.
pub fn highlight_pattern(source: &Option<String>) -> (r: String)
    ensures
        r@ == reference_pattern(opt_text(*source)),
{
    match source {
        Some(name) => {
            if name.as_str().is_empty() {
                copy_of("")
            } else {
                cat3("\\.", regex_escape(name.as_str()).as_str(), "\\b")
            }
        },
        None => copy_of(""),
    }
}

// ─── the completion popup ───────────────────────────────────────────────────
/// A rectangle of the screen.
#[derive(Debug, Clone, Copy, PartialEq, Eq, Structural)]
pub struct Area {
    pub x: u16,
    pub y: u16,
    pub width: u16,
    pub height: u16,
}

/// At most the largest coordinate.
pub open spec fn cut(n: int) -> int {
    if n > 0xffff {
        0xffff
    } else {
        n
    }
}

/// The smaller of two numbers.
pub open spec fn smaller(a: int, b: int) -> int {
    if a < b {
        a
    } else {
        b
    }
}

/// The greatest number of characters among the first `n` names.
pub open spec fn longest(names: Seq<Seq<char>>, n: int) -> int
    decreases n,
{
    if n <= 0 {
        0
    } else {
        let before = longest(names, n - 1);
        if names[n - 1].len() > before {
            names[n - 1].len() as int
        } else {
            before
        }
    }
}

/// How many candidates the popup shows.
pub open spec fn shown_count(names: Seq<Seq<char>>) -> int {
    if names.len() > 8 {
        8
    } else {
        names.len() as int
    }
}

/// The width of the popup: that of its longest name with some space, from 16 to 32.
pub open spec fn popup_width(names: Seq<Seq<char>>) -> int {
    let w = longest(names, shown_count(names)) + 4;
    if w < 16 {
        16
    } else if w > 32 {
        32
    } else {
        w
    }
}

/// A coordinate moved back until a length fits before the end of the screen.
pub open spec fn kept_on_screen(at: int, start: int, size: int, length: int) -> int {
    smaller(
        at,
        start + if size > length {
            size - length
        } else {
            0
        },
    )
}

/// The place of the popup: under the cursor of the editor, inside the screen.
pub open spec fn popup_view(
    names: Seq<Seq<char>>,
    query: Area,
    row: int,
    col: int,
    screen: Area,
) -> (int, int, int, int) {
    let w = popup_width(names);
    let h = shown_count(names) + 2;
    (
        kept_on_screen(cut(query.x + 1 + cut(col)), screen.x as int, screen.width as int, w),
        kept_on_screen(cut(query.y + 2 + cut(row)), screen.y as int, screen.height as int, h),
        w,
        h,
    )
}

fn longest_of(names: &Vec<String>, n: usize) -> (r: usize)
    requires
        n <= names@.len(),
    ensures
        r == longest(texts(names@), n as int),
{
    let ghost views = texts(names@);
    let mut best: usize = 0;
    let mut i: usize = 0;
    while i < n
        invariant
            i <= n <= names@.len(),
            views == texts(names@),
            best == longest(views, i as int),
        decreases n - i,
    {
        assert(views[i as int] == names@[i as int]@);
        let len: usize = chars_of(names[i].as_str()).len();
        if len > best {
            best = len;
        }
        i += 1;
    }
    best
}

fn cut_coordinate(n: u128) -> (r: u16)
    ensures
        r == cut(n as int),
{
    if n > 0xffff {
        0xffff
    } else {
        n as u16
    }
}

fn keep_on_screen(at: u16, start: u16, size: u16, length: u16) -> (r: u16)
    requires
        start + size <= 0xffff,
    ensures
        r == kept_on_screen(at as int, start as int, size as int, length as int),
{
    let room: u16 = if size > length {
        size - length
    } else {
        0
    };
    let end: u16 = start + room;
    if at < end {
        at
    } else {
        end
    }
}

/// Finds the place of the completion popup.
pub fn popup_area(names: &Vec<String>, query: Area, row: usize, col: usize, screen: Area) -> (r: Area)
    requires
        screen.x + screen.width <= 0xffff,
        screen.y + screen.height <= 0xffff,
    ensures
        (r.x as int, r.y as int, r.width as int, r.height as int) == popup_view(
            texts(names@),
            query,
            row as int,
            col as int,
            screen,
        ),
{
    let n: usize = if names.len() > 8 {
        8
    } else {
        names.len()
    };
    assert(texts(names@).len() == names@.len());
    let long = longest_of(names, n);
    let width: u16 = if long < 12 {
        16
    } else if long > 28 {
        32
    } else {
        (long + 4) as u16
    };
    let height: u16 = n as u16 + 2;
    let x = cut_coordinate(query.x as u128 + 1 + cut_coordinate(col as u128) as u128);
    let y = cut_coordinate(query.y as u128 + 2 + cut_coordinate(row as u128) as u128);
    Area {
        x: keep_on_screen(x, screen.x, screen.width, width),
        y: keep_on_screen(y, screen.y, screen.height, height),
        width,
        height,
    }
}

/// The popup stays on a screen that is large enough for it.
pub proof fn popup_stays_on_screen(
    names: Seq<Seq<char>>,
    query: Area,
    row: int,
    col: int,
    screen: Area,
)
    requires
        screen.width >= popup_width(names),
        screen.height >= shown_count(names) + 2,
        0 <= row,
        0 <= col,
    ensures
        ({
            let (x, y, w, h) = popup_view(names, query, row, col, screen);
            x + w <= screen.x + screen.width && y + h <= screen.y + screen.height
        }),
{
}

/// The title of the popup.
pub open spec fn popup_title_text(prefix: Seq<char>, n: int) -> Seq<char> {
    " ."@ + prefix + " · "@ + decimal(n as nat) + if n > 8 {
        " matches (showing 8) "@
    } else {
        " matches "@
    }
}

/// Writes the title of the popup.
pub fn popup_title(prefix: &str, n: usize) -> (r: String)
    ensures
        r@ == popup_title_text(prefix@, n as int),
{
    let head = cat4(" .", prefix, " · ", show(n as u128).as_str());
    cat2(
        head.as_str(),
        if n > 8 {
            " matches (showing 8) "
        } else {
            " matches "
        },
    )
}

/// A candidate in three parts: what stands before the typed text, the typed
/// text, in the case of the candidate, and what stands behind it.
pub open spec fn candidate_parts(name: Seq<char>, prefix: Seq<char>) -> (
    Seq<char>,
    Seq<char>,
    Seq<char>,
) {
    match find_from(lowered(name), lowered(prefix), 0) {
        Some(i) => (name.take(i), name.subrange(i, i + prefix.len()), name.skip(i + prefix.len())),
        None => (name, Seq::empty(), Seq::empty()),
    }
}

/// Splits a candidate at the typed text.
pub fn split_candidate(name: &str, prefix: &str) -> (r: (String, String, String))
    ensures
        (r.0@, r.1@, r.2@) == candidate_parts(name@, prefix@),
{
    let cs = chars_of(name);
    let low = lower(name);
    let low_prefix = lower(prefix);
    match find(low.as_str(), low_prefix.as_str()) {
        Some(i) => {
            let n: usize = chars_of(prefix).len();
            assert(i + n <= cs.len());
            let before = substring(&cs, 0, i);
            let typed = substring(&cs, i, i + n);
            let after = substring(&cs, i + n, cs.len());
            assert(before@ =~= name@.take(i as int));
            assert(after@ =~= name@.skip(i + n));
            (before, typed, after)
        },
        None => {
            let none = String::new();
            assert(none@ =~= Seq::empty());
            (copy_of(name), copy_of(none.as_str()), none)
        },
    }
}

// ─── laws of the panels ─────────────────────────────────────────────────────
/// The totals add up over the scans; a missing figure adds nothing.
pub proof fn totals_add_up(scans: Seq<ScanView>, scan: ScanView)
    ensures
        filter_total(scans.push(scan)) == filter_total(scans) + scan.filters.len(),
        projection_total(scans.push(scan)) == projection_total(scans) + scan.projections.len(),
        scan.estimated_rows matches Some(n) ==> estimated_total(scans.push(scan))
            == estimated_total(scans) + n,
        scan.estimated_rows is None ==> estimated_total(scans.push(scan)) == estimated_total(scans),
        scan.actual_rows matches Some(n) ==> actual_total(scans.push(scan)) == actual_total(scans)
            + n,
        scan.actual_rows is None ==> actual_total(scans.push(scan)) == actual_total(scans),
        filter_total(Seq::empty()) == 0 && projection_total(Seq::empty()) == 0 && estimated_total(
            Seq::empty(),
        ) == 0 && actual_total(Seq::empty()) == 0,
{
    assert(scans.push(scan).drop_last() =~= scans);
}

/// The first line of the Explain panel counts the scans, their rows, as measured
/// where they were and else as estimated, their filters and their columns.
pub proof fn totals_come_first(scans: Seq<ScanView>, analyzed: bool)
    ensures
        ({
            let row = totals_row(scans, analyzed);
            &&& row.len() == 7
            &&& row[0].0 == decimal(scans.len()) + " scan(s)"@
            &&& analyzed && actual_total(scans) > 0 ==> row[2] == (
                count_text(actual_total(scans) as int) + " actual rows"@,
                SpanStyle::Measured,
            )
            &&& !analyzed || actual_total(scans) == 0 ==> row[2] == (
                "~"@ + count_text(estimated_total(scans) as int) + " estimated rows"@,
                SpanStyle::Plain,
            )
            &&& row[4].0 == decimal(filter_total(scans)) + " filter(s) pushed"@
            &&& row[6].0 == decimal(projection_total(scans)) + " projection(s)"@
        }),
{
}

/// A scan's lines say which filters it applies and which columns it reads, where it
/// does; of a measured scan also where its rows were not those estimated, how many
/// files it read, and how many rows it skipped.
pub proof fn scans_are_described(scan: ScanView, prefix: Seq<char>)
    ensures
        scan_rows(scan, prefix, false) == filter_rows(scan, prefix) + projection_rows(scan, prefix),
        scan_rows(scan, prefix, true) == filter_rows(scan, prefix) + projection_rows(scan, prefix)
            + (actual_rows(scan, prefix) + files_rows(scan, prefix) + pruned_rows(scan, prefix)),
        scan.filters.len() == 0 ==> filter_rows(scan, prefix).len() == 0,
        scan.filters.len() > 0 ==> filter_rows(scan, prefix) == seq![
            seq![
                (prefix, SpanStyle::Plain),
                ("✓ predicate pushdown: "@, SpanStyle::Good),
                (joined(scan.filters, " AND "@), SpanStyle::Plain),
            ],
        ],
        scan.projections.len() == 0 ==> projection_rows(scan, prefix).len() == 0,
        scan.projections.len() > 0 ==> projection_rows(scan, prefix) == seq![
            seq![
                (prefix, SpanStyle::Plain),
                (
                    "✓ projection pushdown: "@ + decimal(scan.projections.len()) + " col(s) "@,
                    SpanStyle::Good,
                ),
                (ellipsised(joined(scan.projections, ", "@), 60), SpanStyle::Dim),
            ],
        ],
{
    let a = filter_rows(scan, prefix) + projection_rows(scan, prefix);
    assert(a + Seq::<RowView>::empty() =~= a);
}

/// The lines of a measured scan.
pub proof fn measured_scans_are_described(scan: ScanView, prefix: Seq<char>, x: u64, y: u64, p: u64)
    ensures
        scan.actual_rows == Some(x) && scan.estimated_rows == Some(y) && x != y ==> actual_rows(
            scan,
            prefix,
        ) == seq![
            seq![
                (prefix, SpanStyle::Plain),
                ("● actual "@ + count_text(x as int) + " rows"@, SpanStyle::Measured),
                ("  (estimated ~"@ + count_text(y as int) + ")"@, SpanStyle::Dim),
            ],
        ],
        scan.actual_rows is None || scan.estimated_rows is None || scan.actual_rows
            == scan.estimated_rows ==> actual_rows(scan, prefix).len() == 0,
        scan.files_read == Some(x) && x > 1 ==> files_rows(scan, prefix) == seq![
            seq![
                (prefix, SpanStyle::Plain),
                ("● scanned "@ + decimal(x as nat) + " files"@, SpanStyle::Measured),
            ],
        ],
        scan.files_read is None || scan.files_read == Some(0u64) || scan.files_read == Some(1u64)
            ==> files_rows(scan, prefix).len() == 0,
        scan.pruned_percent == Some(p) && scan.rows_scanned == Some(x) && scan.file_total_rows
            == Some(y) ==> pruned_rows(scan, prefix) == seq![
            seq![
                (prefix, SpanStyle::Plain),
                (
                    "● pruned: "@ + decimal(p as nat) + "% ("@ + count_text(x as int) + "/"@
                        + count_text(y as int) + " rows)"@,
                    gauge(x, y),
                ),
            ],
        ],
        scan.pruned_percent is None || scan.rows_scanned is None || scan.file_total_rows is None
            ==> pruned_rows(scan, prefix).len() == 0,
{
}

/// Half of the rows skipped is good, some is noted, none is faint.
pub proof fn skipped_rows_are_coloured(scanned: u64, total: u64)
    ensures
        total > 0 && total - scanned >= scanned ==> gauge(scanned, total) == SpanStyle::Good,
        scanned < total && total - scanned < scanned ==> gauge(scanned, total) == SpanStyle::Warn,
        scanned >= total && total > 0 ==> gauge(scanned, total) == SpanStyle::Dim,
        gauge(scanned, 0) == SpanStyle::Dim,
{
}

/// Scans are numbered from one, where there are several.
pub proof fn scans_are_numbered(scans: Seq<ScanView>, analyzed: bool, n: int)
    requires
        0 <= n < scans.len(),
    ensures
        scan_prefix(n, true) == "  scan "@ + decimal((n + 1) as nat) + ": "@,
        scan_prefix(n, false) == "  "@,
        all_scan_rows(scans, analyzed, 0).len() == 0,
        all_scan_rows(scans, analyzed, n + 1) == all_scan_rows(scans, analyzed, n) + scan_rows(
            scans[n],
            scan_prefix(n, scans.len() > 1),
            analyzed,
        ),
{
}

/// The Explain panel shows the totals, the scans and the hints; the plan's own first
/// lines where there is nothing but the totals; and a message where there is no
/// plan.
pub proof fn explain_panel_shows_the_facts(e: ExplainSummary)
    ensures
        ({
            let scans = scan_views(e.scans@);
            let rows = all_scan_rows(scans, e.analyzed, scans.len() as int);
            let hints = hint_rows(texts(e.suggestions@));
            let lines = explain_lines(Some(e));
            &&& lines.len() > 0
            &&& lines[0] == totals_row(scans, e.analyzed)
            &&& rows.len() + hints.len() > 0 ==> lines.skip(1) == rows + hints
            &&& rows.len() + hints.len() == 0 ==> lines.skip(1) == raw_rows(e.raw@)
        }),
        explain_lines(None) == seq![
            seq![("(query failed — fix it to see the plan)"@, SpanStyle::Dim)],
        ],
{
    let scans = scan_views(e.scans@);
    let rows = all_scan_rows(scans, e.analyzed, scans.len() as int);
    let hints = hint_rows(texts(e.suggestions@));
    let lines = explain_lines(Some(e));
    if rows.len() + hints.len() > 0 {
        assert(lines.skip(1) =~= rows + hints);
    } else {
        assert(lines.skip(1) =~= raw_rows(e.raw@));
    }
}

/// Hints stand in their order behind an empty line; of the plan six lines are shown.
pub proof fn hints_and_plan_lines_follow(
    suggestions: Seq<Seq<char>>,
    raw: Seq<char>,
    i: int,
)
    requires
        0 <= i < suggestions.len(),
    ensures
        hint_rows(suggestions).len() == suggestions.len() + 1,
        hint_rows(suggestions)[0] == seq![(""@, SpanStyle::Plain)],
        hint_rows(suggestions)[i + 1] == seq![(suggestions[i], SpanStyle::Warn)],
        hint_rows(Seq::empty()).len() == 0,
        raw_rows(raw).len() == if lines_of(raw).len() < 6 {
            lines_of(raw).len() as int
        } else {
            6
        },
        forall|k: int|
            0 <= k < raw_rows(raw).len() ==> #[trigger] raw_rows(raw)[k] == seq![
                (lines_of(raw)[k], SpanStyle::Dim),
            ],
{
}

/// The source in focus has a star, a column of the query a tick, and others nothing.
pub proof fn columns_are_marked(name: Seq<char>, other: Seq<char>, selected: bool)
    requires
        other != name,
    ensures
        column_mark(name, selected, Some(name)) == "★ "@,
        column_mark(name, true, Some(other)) == "✓ "@,
        column_mark(name, true, None) == "✓ "@,
        column_mark(name, false, Some(other)) == "  "@,
        column_mark(name, false, None) == "  "@,
{
}

/// A title names the format where it is not parquet, and the Query panel's title the
/// error, by its first line, or the time.
pub proof fn titles_name_format_and_error(e: Seq<char>, ms: nat)
    ensures
        format_tag(InputFormat::Parquet) == ""@,
        format_tag(InputFormat::Ndjson) == " · ndjson"@,
        format_tag(InputFormat::Csv) == " · csv"@,
        idle_title(None, ms as int) == " Query · "@ + decimal(ms) + " ms "@,
        lines_of(e).len() > 0 ==> idle_title(Some(e), ms as int) == " Query · ⚠ "@ + lines_of(e)[0]
            + " "@,
{
}

/// A message goes before the help of the status bar, and that of the completion
/// before the general one.
pub proof fn messages_go_first(t: String, completing: bool, interrupted: Seq<char>)
    ensures
        status_line(Some(Flash::Text(t)), completing, interrupted) == t@,
        status_line(Some(Flash::Interrupted), completing, interrupted) == interrupted,
        status_line(None, true, interrupted)
            == " ↑↓ pick · ⏎/Tab insert · Esc cancel · keep typing to filter "@,
        status_line(None, false, interrupted)
            == " Tab next │ ␣ toggle │ ⏎ append/drill │ ⌫ undo │ Q exit+print │ Esc quit │ : SQL │ e Explain │ E ANALYZE │ ? help "@,
{
}

/// The popup hangs under the cursor where there is room for it. It shows up to eight
/// names, is four wider than the longest of these, and between 16 and 32 wide.
pub proof fn popup_hangs_under_the_cursor(
    names: Seq<Seq<char>>,
    query: Area,
    row: int,
    col: int,
    screen: Area,
)
    requires
        0 <= row,
        0 <= col,
        query.x + 1 + col + popup_width(names) <= screen.x + screen.width <= 0xffff,
        query.y + 2 + row + shown_count(names) + 2 <= screen.y + screen.height <= 0xffff,
    ensures
        popup_view(names, query, row, col, screen) == (
            query.x + 1 + col,
            query.y + 2 + row,
            popup_width(names),
            shown_count(names) + 2,
        ),
        names.len() <= 8 ==> shown_count(names) == names.len(),
        names.len() > 8 ==> shown_count(names) == 8,
        16 <= popup_width(names) <= 32,
        forall|k: int|
            0 <= k < shown_count(names) && 12 <= (#[trigger] names[k]).len() <= 28
                ==> popup_width(names) >= names[k].len() + 4,
{
    let n = shown_count(names);
    lemma_longest(names, n);
}

proof fn lemma_longest(names: Seq<Seq<char>>, n: int)
    requires
        0 <= n <= names.len(),
    ensures
        forall|k: int| 0 <= k < n ==> (#[trigger] names[k]).len() <= longest(names, n),
        longest(names, n) >= 0,
    decreases n,
{
    if n > 0 {
        lemma_longest(names, n - 1);
    }
}

/// The characters that mean something else in a regular expression get a backslash;
/// letters, digits and underscores do not.
#[verifier::rlimit(50)]
pub proof fn special_characters_are_escaped(c: char)
    ensures
        is_regex_special('.') && is_regex_special('+') && is_regex_special('*')
            && is_regex_special('?') && is_regex_special('(') && is_regex_special(')')
            && is_regex_special('|') && is_regex_special('[') && is_regex_special(']')
            && is_regex_special('{') && is_regex_special('}') && is_regex_special('^')
            && is_regex_special('$') && is_regex_special('\\'),
        is_word(c) ==> !is_regex_special(c),
        regex_escaped(seq![c]) == if is_regex_special(c) {
            seq!['\\', c]
        } else {
            seq![c]
        },
        reference_pattern(None) == ""@,
{
    reveal_strlit(".+*?()|[]{}^$\\");
    let s = ".+*?()|[]{}^$\\"@;
    assert(s[0] == '.' && s[1] == '+' && s[2] == '*' && s[3] == '?' && s[4] == '(' && s[5] == ')'
        && s[6] == '|' && s[7] == '[' && s[8] == ']' && s[9] == '{' && s[10] == '}' && s[11] == '^'
        && s[12] == '$' && s[13] == '\\');
    if s.contains(c) {
        let k = choose|k: int| 0 <= k < s.len() && s[k] == c;
        assert(k == 0 || k == 1 || k == 2 || k == 3 || k == 4 || k == 5 || k == 6 || k == 7 || k
            == 8 || k == 9 || k == 10 || k == 11 || k == 12 || k == 13);
    }
    let one = seq![c];
    reveal_with_fuel(regex_escaped_from, 2);
    assert(seq!['\\', c] + Seq::<char>::empty() =~= seq!['\\', c]);
    assert(one + Seq::<char>::empty() =~= one);
}

/// References to a column are looked for as a dot and its name, up to the end of the
/// word.
pub proof fn references_are_looked_for_by_name(name: Seq<char>)
    requires
        name.len() > 0,
    ensures
        reference_pattern(Some(name)) == "\\."@ + regex_escaped(name) + "\\b"@,
{
}

/// The parts of an offered name make up the name, and the middle one is what was
/// typed, in any case.
pub proof fn offered_names_show_what_was_typed(name: Seq<char>, prefix: Seq<char>)
    ensures
        ({
            let (before, typed, after) = candidate_parts(name, prefix);
            &&& before + typed + after == name
            &&& has_text(lowered(name), lowered(prefix)) ==> lowered(typed) == lowered(prefix)
            &&& !has_text(lowered(name), lowered(prefix)) ==> typed.len() == 0 && after.len() == 0
        }),
{
    lemma_find_from_range(lowered(name), lowered(prefix), 0);
    assert(lowered(name).len() == name.len() && lowered(prefix).len() == prefix.len());
    let (before, typed, after) = candidate_parts(name, prefix);
    assert(before + typed + after =~= name);
    if let Some(i) = find_from(lowered(name), lowered(prefix), 0) {
        assert(lowered(typed) =~= lowered(name).subrange(i, i + prefix.len()));
    }
}

/// The popup's title names what was typed and how many names match.
pub proof fn popup_titles_count_the_matches(prefix: Seq<char>, n: nat)
    ensures
        n <= 8 ==> popup_title_text(prefix, n as int) == " ."@ + prefix + " · "@ + decimal(n)
            + " matches "@,
        n > 8 ==> popup_title_text(prefix, n as int) == " ."@ + prefix + " · "@ + decimal(n)
            + " matches (showing 8) "@,
{
}

/// A line of a text ends at a line feed, with the carriage return before it; the text
/// behind the last line feed is a line where it is not empty.
#[verifier::rlimit(50)]
pub proof fn lines_end_at_line_feeds(line: Seq<char>, rest: Seq<char>)
    requires
        !line.contains('\n'),
        line.len() > 0,
        line[line.len() - 1] != '\r',
    ensures
        lines_of(line) == seq![line],
        lines_of(line + "\n"@ + rest) == seq![line] + lines_of(rest),
        lines_of(line + "\r"@ + "\n"@ + rest) == seq![line] + lines_of(rest),
{
    reveal_strlit("\n");
    reveal_strlit("\r");
    lemma_line_splits(line, rest);
    let cr = line + "\r"@;
    assert forall|k: int| 0 <= k < cr.len() implies cr[k] != '\n' by {
        if k < line.len() {
            assert(line.contains(line[k]));
        }
    }
    assert(!cr.contains('\n'));
    lemma_line_splits(cr, rest);
    assert(cr.last() == '\r');
    assert(cr.drop_last() =~= line);
    assert(without_return(cr) == line);
    assert(line.last() == line[line.len() - 1]);
    assert(without_return(line) == line);
    assert forall|k: int| !#[trigger] occurs_at(line, "\n"@, k) by {
        if occurs_at(line, "\n"@, k) {
            assert(line.subrange(k, k + 1)[0] == '\n');
            assert(line.contains('\n'));
        }
    }
    texts_without_separator_stay_whole(line, "\n"@, line);
    assert(lines_of(line) =~= seq![line]);
}

#[verifier::rlimit(50)]
proof fn lemma_line_splits(line: Seq<char>, rest: Seq<char>)
    requires
        !line.contains('\n'),
    ensures
        lines_of(line + "\n"@ + rest) == seq![without_return(line)] + lines_of(rest),
{
    reveal_strlit("\n");
    let s = line + "\n"@ + rest;
    assert forall|k: int| 0 <= k < line.len() implies !#[trigger] occurs_at(s, "\n"@, k) by {
        if occurs_at(s, "\n"@, k) {
            assert(s.subrange(k, k + 1)[0] == '\n');
            assert(s[k] == line[k]);
            assert(line.contains('\n'));
        }
    }
    pieces_are_split_off_in_turn(line, "\n"@, rest);
    let tail = split_on(rest, "\n"@);
    let all = split_on(s, "\n"@);
    lemma_find_from_range(rest, "\n"@, 0);
    assert(tail.len() > 0);
    assert(all == seq![line] + tail);
    assert(all.last() == tail.last());
    assert forall|i: int| 0 < i < all.len() implies all[i] == tail[i - 1] by {}
    assert(lines_of(s) =~= seq![without_return(line)] + lines_of(rest));
}

} // verus!
