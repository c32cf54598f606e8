//! The SQL and the rules of the command line.
use vstd::prelude::*;

use crate::figures::{fmt_bytes, size_text};
use crate::number::{decimal, large_numbers_are_refused, parse_u64, parsed_unsigned, show};
use crate::output::OutputFormat;
use crate::path::is_tight;
use crate::source::InputFormat;
use crate::sql::{escaped_text_reads_back, literal_text, quotes_doubled, sql_escape};
use crate::text::{
    cat2, cat3, cat4, cat5, chars_of, contains, copy_of, find_back, first_separator_splits,
    has_prefix, has_text, lemma_find_back_range, lower, lowered, occurs_at, rfind, split_first,
    split_once, starts_with, substring, trim, trimmed, trimming_takes_the_space_around,
};

verus! {

// ─── macros ─────────────────────────────────────────────────────────────────
/// The statement that defines a macro: `name(args) := body` and `name(args) AS
/// body` are completed, and a CREATE statement stays as it is.
pub open spec fn macro_statement(raw: Seq<char>) -> Seq<char> {
    let body = trimmed(raw);
    if has_prefix(lowered(body), "create "@) {
        body
    } else {
        match split_first(body, ":="@) {
            Some((head, rest)) => "CREATE OR REPLACE MACRO "@ + trimmed(head) + " AS "@ + trimmed(
                rest,
            ),
            None => "CREATE OR REPLACE MACRO "@ + body,
        }
    }
}

/// Builds the statement that defines a macro.
pub fn udf_statement(raw: &str) -> (r: String)
    ensures
        r@ == macro_statement(raw@),
{
    let body = trim(raw);
    if starts_with(lower(body.as_str()).as_str(), "create ") {
        return body;
    }
    match split_once(body.as_str(), ":=") {
        Some((head, rest)) => cat4(
            "CREATE OR REPLACE MACRO ",
            trim(head.as_str()).as_str(),
            " AS ",
            trim(rest.as_str()).as_str(),
        ),
        None => cat2("CREATE OR REPLACE MACRO ", body.as_str()),
    }
}

// ─── limits and formats ─────────────────────────────────────────────────────
/// The row limit for a format: none for parquet, which is exported whole.
pub open spec fn limit_for(fmt: OutputFormat, n: int) -> int {
    if fmt == OutputFormat::Parquet {
        0
    } else {
        n
    }
}

/// The row limit of a query without one: none for parquet, which is exported
/// whole.
pub fn effective_limit(fmt: OutputFormat, n: usize) -> (r: usize)
    ensures
        r == limit_for(fmt, n as int),
{
    if fmt == OutputFormat::Parquet {
        0
    } else {
        n
    }
}

/// The format of a result, where it may be one of lines.
pub open spec fn format_for(raw_lines: bool, fmt: OutputFormat) -> OutputFormat {
    if raw_lines {
        OutputFormat::RawLines
    } else {
        fmt
    }
}

/// The format of a result: raw lines where the query makes lines.
pub fn effective_format(raw_lines: bool, fmt: OutputFormat) -> (r: OutputFormat)
    ensures
        r == format_for(raw_lines, fmt),
{
    if raw_lines {
        OutputFormat::RawLines
    } else {
        fmt
    }
}

/// Accepts a watch interval of at least a second.
pub fn watch_interval(secs: u64) -> (r: Result<u64, String>)
    ensures
        match r {
            Ok(s) => secs > 0 && s == secs,
            Err(why) => secs == 0 && why@ == "--watch interval must be > 0"@,
        },
{
    if secs == 0 {
        Err(copy_of("--watch interval must be > 0"))
    } else {
        Ok(secs)
    }
}

/// A number from the environment, or a default where there is none.
pub open spec fn env_number(v: Option<String>, default: int) -> int {
    match v {
        Some(s) => match parsed_unsigned(s@, u64::MAX as int) {
            Some(n) => n,
            None => default,
        },
        None => default,
    }
}

fn number_or(v: &Option<String>, default: u64) -> (r: u64)
    ensures
        r == env_number(*v, default as int),
{
    match v {
        Some(s) => match parse_u64(s.as_str()) {
            Some(n) => n,
            None => default,
        },
        None => default,
    }
}

/// The file size from which metadata is read in place of data: the value of
/// `PQ_LITE_THRESHOLD` in bytes, or a gibibyte.
pub fn lite_threshold(v: &Option<String>) -> (r: u64)
    ensures
        r == env_number(*v, 1_073_741_824),
{
    number_or(v, 1_073_741_824)
}

/// The statements that set up HTTP access with a timeout in milliseconds.
pub open spec fn http_statements(ms: int) -> Seq<char> {
    "SET http_keep_alive=true; SET http_timeout="@ + decimal(ms as nat) + ";"@
}

/// The statements that set up HTTP access, with the value of `PQ_HTTP_TIMEOUT`
/// in milliseconds.
pub fn http_setup(timeout: &Option<String>) -> (r: String)
    ensures
        r@ == http_statements(env_number(*timeout, 15_000)),
{
    let ms = number_or(timeout, 15_000);
    cat3("SET http_keep_alive=true; SET http_timeout=", show(ms as u128).as_str(), ";")
}

// ─── subcommands ────────────────────────────────────────────────────────────
/// The query for the columns of a source.
pub open spec fn schema_query(src: Seq<char>) -> Seq<char> {
    "SELECT column_name, column_type, \"null\" AS nullable FROM (DESCRIBE SELECT * FROM "@ + src
        + ")"@
}

/// Lists the columns of a source.
pub fn schema_sql(src: &str) -> (r: String)
    ensures
        r@ == schema_query(src@),
{
    cat3(
        "SELECT column_name, column_type, \"null\" AS nullable FROM (DESCRIBE SELECT * FROM ",
        src,
        ")",
    )
}

/// The query for some rows of a source at random.
pub open spec fn sample_query(src: Seq<char>, n: nat) -> Seq<char> {
    "SELECT * FROM "@ + src + " USING SAMPLE "@ + decimal(n) + " ROWS"@
}

/// Takes some rows of a source at random.
pub fn sample_sql(src: &str, n: usize) -> (r: String)
    ensures
        r@ == sample_query(src@, n as nat),
{
    let head = cat3("SELECT * FROM ", src, " USING SAMPLE ");
    cat3(head.as_str(), show(n as u128).as_str(), " ROWS")
}

/// The query for the first rows of a source.
pub open spec fn head_query(src: Seq<char>, n: nat) -> Seq<char> {
    "SELECT * FROM "@ + src + " LIMIT "@ + decimal(n)
}

/// Takes the first rows of a source.
pub fn head_sql(src: &str, n: usize) -> (r: String)
    ensures
        r@ == head_query(src@, n as nat),
{
    cat4("SELECT * FROM ", src, " LIMIT ", show(n as u128).as_str())
}

/// The query for the last rows of a source, the last one first.
pub open spec fn tail_query(src: Seq<char>, n: nat) -> Seq<char> {
    "WITH t AS (SELECT *, row_number() OVER () AS __rn FROM "@ + src
        + ") SELECT * EXCLUDE (__rn) FROM t ORDER BY __rn DESC LIMIT "@ + decimal(n)
}

/// Takes the last rows of a source, the last one first.
pub fn tail_sql(src: &str, n: usize) -> (r: String)
    ensures
        r@ == tail_query(src@, n as nat),
{
    cat4(
        "WITH t AS (SELECT *, row_number() OVER () AS __rn FROM ",
        src,
        ") SELECT * EXCLUDE (__rn) FROM t ORDER BY __rn DESC LIMIT ",
        show(n as u128).as_str(),
    )
}

/// The metadata of the files is read in place of their data.
pub open spec fn uses_metadata(fmt: InputFormat, lite: bool) -> bool {
    fmt == InputFormat::Parquet && lite
}

/// The query that counts the rows of a source.
pub open spec fn count_query(
    path: Seq<char>,
    fmt: InputFormat,
    lite: bool,
    src: Seq<char>,
) -> Seq<char> {
    if uses_metadata(fmt, lite) {
        "SELECT sum(num_rows)::BIGINT AS rows FROM parquet_file_metadata('"@ + quotes_doubled(path)
            + "')"@
    } else {
        "SELECT count(*) AS rows FROM "@ + src
    }
}

/// Counts the rows of a source, from the metadata of its files where that is
/// asked for and they are parquet.
pub fn count_sql(resolved_path: &str, input_fmt: InputFormat, lite: bool, src: &str) -> (r: String)
    ensures
        r@ == count_query(resolved_path@, input_fmt, lite, src@),
{
    if input_fmt == InputFormat::Parquet && lite {
        cat3(
            "SELECT sum(num_rows)::BIGINT AS rows FROM parquet_file_metadata('",
            sql_escape(resolved_path).as_str(),
            "')",
        )
    } else {
        cat2("SELECT count(*) AS rows FROM ", src)
    }
}

/// The query for the statistics of a source's columns.
pub open spec fn stats_query(
    path: Seq<char>,
    fmt: InputFormat,
    lite: bool,
    src: Seq<char>,
) -> Seq<char> {
    if uses_metadata(fmt, lite) {
        "SELECT path_in_schema AS column_name, any_value(type) AS column_type, min(stats_min_value)::VARCHAR AS min, max(stats_max_value)::VARCHAR AS max, sum(num_values)::BIGINT AS rows, sum(stats_null_count)::BIGINT AS nulls FROM parquet_metadata('"@
            + quotes_doubled(path)
            + "') GROUP BY path_in_schema ORDER BY min(row_group_id), min(column_id)"@
    } else {
        "SELECT column_name, column_type, min, max, approx_unique AS approx_distinct, null_percentage AS null_pct FROM (SUMMARIZE SELECT * FROM "@
            + src + ")"@
    }
}

/// Describes the columns of a source by their statistics, from the metadata of
/// its files where that is asked for and they are parquet.
pub fn stats_sql(resolved_path: &str, input_fmt: InputFormat, lite: bool, src: &str) -> (r: String)
    ensures
        r@ == stats_query(resolved_path@, input_fmt, lite, src@),
{
    if input_fmt == InputFormat::Parquet && lite {
        cat3(
            "SELECT path_in_schema AS column_name, any_value(type) AS column_type, min(stats_min_value)::VARCHAR AS min, max(stats_max_value)::VARCHAR AS max, sum(num_values)::BIGINT AS rows, sum(stats_null_count)::BIGINT AS nulls FROM parquet_metadata('",
            sql_escape(resolved_path).as_str(),
            "') GROUP BY path_in_schema ORDER BY min(row_group_id), min(column_id)",
        )
    } else {
        cat3(
            "SELECT column_name, column_type, min, max, approx_unique AS approx_distinct, null_percentage AS null_pct FROM (SUMMARIZE SELECT * FROM ",
            src,
            ")",
        )
    }
}

// ─── file sizes ─────────────────────────────────────────────────────────────
/// Which files have to be measured to know how large an input is.
#[derive(Debug, PartialEq, Eq)]
pub enum SizeStep {
    /// None: the input is remote.
    Skip,
    /// Those files of a directory whose names match a pattern.
    Matches { dir: String, pattern: String },
    /// The file itself.
    File,
}

/// A character that makes a path a pattern.
pub open spec fn is_wildcard(c: char) -> bool {
    c == '*' || c == '?' || c == '['
}

/// The first wildcard at or after `i`.
pub open spec fn wildcard_from(s: Seq<char>, i: int) -> Option<int>
    decreases s.len() - i,
{
    if i < 0 || i >= s.len() {
        None
    } else if is_wildcard(s[i]) {
        Some(i)
    } else {
        wildcard_from(s, i + 1)
    }
}

/// The mathematical value of a `SizeStep`.
pub enum SizeView {
    Skip,
    Matches { dir: Seq<char>, pattern: Seq<char> },
    File,
}

impl View for SizeStep {
    type V = SizeView;

    open spec fn view(&self) -> SizeView {
        match self {
            SizeStep::Skip => SizeView::Skip,
            SizeStep::Matches { dir, pattern } => SizeView::Matches {
                dir: dir@,
                pattern: pattern@,
            },
            SizeStep::File => SizeView::File,
        }
    }
}

/// Where the directories before the first wildcard, at `wild`, end: behind the
/// last `/` before it.
pub open spec fn dir_end(path: Seq<char>, wild: int) -> int {
    match find_back(path.take(wild), "/"@, wild) {
        Some(i) => i + 1,
        None => 0,
    }
}

/// What has to be measured for a path: nothing for a remote one, the matching
/// files in the directory before the first wildcard of a pattern, and else the
/// file.
pub open spec fn size_view(path: Seq<char>) -> SizeView {
    if has_text(path, "://"@) {
        SizeView::Skip
    } else {
        match wildcard_from(path, 0) {
            Some(i) => SizeView::Matches {
                dir: if dir_end(path, i) == 0 {
                    "."@
                } else {
                    path.take(dir_end(path, i))
                },
                pattern: path.skip(dir_end(path, i)),
            },
            None => SizeView::File,
        }
    }
}

/// Decides what has to be measured for a path.
pub fn size_step(path: &str) -> (r: SizeStep)
    ensures
        r@ == size_view(path@),
{
    if contains(path, "://") {
        return SizeStep::Skip;
    }
    let cs = chars_of(path);
    let mut i: usize = 0;
    while i < cs.len()
        invariant
            i <= cs.len(),
            cs@ == path@,
            !has_text(path@, "://"@),
            wildcard_from(path@, 0) == wildcard_from(path@, i as int),
        decreases cs.len() - i,
    {
        let c = cs[i];
        if c == '*' || c == '?' || c == '[' {
            assert(cs@.subrange(0, i as int) =~= path@.take(i as int));
            let before = substring(&cs, 0, i);
            proof {
                reveal_strlit("/");
            }
            let end: usize = match rfind(before.as_str(), "/") {
                Some(k) => k + 1,
                None => 0,
            };
            let dir = if end == 0 {
                copy_of(".")
            } else {
                substring(&cs, 0, end)
            };
            assert(cs@.subrange(0, end as int) =~= path@.take(end as int));
            assert(cs@.subrange(end as int, cs@.len() as int) =~= path@.skip(end as int));
            return SizeStep::Matches { dir, pattern: substring(&cs, end, cs.len()) };
        }
        i += 1;
    }
    SizeStep::File
}

/// The sum of the sizes, where an entry without a size counts for nothing.
pub open spec fn total_size(entries: Seq<Option<u64>>) -> int
    decreases entries.len(),
{
    if entries.len() == 0 {
        0
    } else {
        total_size(entries.drop_last()) + match entries.last() {
            Some(n) => n as int,
            None => 0,
        }
    }
}

/// The first 64 entries.
pub open spec fn first_entries(entries: Seq<Option<u64>>) -> Seq<Option<u64>> {
    if entries.len() > 64 {
        entries.take(64)
    } else {
        entries
    }
}

/// Some entry has a size.
pub open spec fn has_file(entries: Seq<Option<u64>>) -> bool {
    exists|i: int| 0 <= i < entries.len() && #[trigger] entries[i] is Some
}

/// Among the first 64 entries there are files, and together they reach the
/// threshold.
pub open spec fn reaches(entries: Seq<Option<u64>>, threshold: int) -> bool {
    has_file(first_entries(entries)) && total_size(first_entries(entries)) >= threshold
}

proof fn lemma_total_size_grows(entries: Seq<Option<u64>>, n: int)
    requires
        0 <= n <= entries.len(),
    ensures
        0 <= total_size(entries.take(n)) <= total_size(entries),
    decreases entries.len() - n, n,
{
    if n == entries.len() {
        assert(entries.take(n) =~= entries);
        if n > 0 {
            lemma_total_size_grows(entries.drop_last(), n - 1);
            assert(entries.drop_last().take(n - 1) =~= entries.drop_last());
        }
    } else {
        lemma_total_size_grows(entries, n + 1);
        assert(entries.take(n + 1).drop_last() =~= entries.take(n));
        lemma_total_size_grows(entries.take(n), n);
        assert(entries.take(n).take(n) =~= entries.take(n));
    }
}

/// Do the entries of a directory that match reach a size? An entry has the size
/// of a file, or none where it is no file or cannot be read. At most 64 are
/// looked at.
pub fn sizes_reach(entries: &Vec<Option<u64>>, threshold: u64) -> (r: bool)
    ensures
        r == reaches(entries@, threshold as int),
{
    let n: usize = if entries.len() > 64 {
        64
    } else {
        entries.len()
    };
    let ghost seen = first_entries(entries@);
    let mut total: u128 = 0;
    let mut i: usize = 0;
    while i < n
        invariant
            i <= n <= 64,
            n <= entries.len(),
            n == seen.len(),
            seen == first_entries(entries@),
            total == total_size(seen.take(i as int)),
            total <= i * 0x1_0000_0000_0000_0000,
            total < threshold || forall|k: int| 0 <= k < i ==> #[trigger] seen[k] is None,
        decreases n - i,
    {
        assert(seen[i as int] == entries@[i as int]);
        assert(seen.take(i + 1).drop_last() =~= seen.take(i as int));
        if let Some(len) = entries[i] {
            total = total + len as u128;
            if total >= threshold as u128 {
                proof {
                    lemma_total_size_grows(seen, i + 1);
                    assert(seen[i as int] is Some);
                }
                return true;
            }
        }
        i += 1;
    }
    assert(seen.take(n as int) =~= seen);
    false
}

// ─── previews ───────────────────────────────────────────────────────────────
/// The query for the columns of a source and their types.
pub open spec fn describe_query(src: Seq<char>) -> Seq<char> {
    "SELECT column_name, column_type FROM (DESCRIBE SELECT * FROM "@ + src + ")"@
}

/// Lists the columns of a source with their types.
pub fn describe_sql(src: &str) -> (r: String)
    ensures
        r@ == describe_query(src@),
{
    cat3("SELECT column_name, column_type FROM (DESCRIBE SELECT * FROM ", src, ")")
}

/// The query for as many rows of another query as are shown.
pub open spec fn preview_query(sql: Seq<char>, limit: nat) -> Seq<char> {
    "SELECT * FROM ("@ + sql + ") AS __pq_tui_preview LIMIT "@ + decimal(limit)
}

/// Cuts the rows of a query to the number that is shown.
pub fn preview_sql(sql: &str, limit: usize) -> (r: String)
    ensures
        r@ == preview_query(sql@, limit as nat),
{
    cat4("SELECT * FROM (", sql, ") AS __pq_tui_preview LIMIT ", show(limit as u128).as_str())
}

/// The number of preview rows for a number asked for.
pub open spec fn rows_shown(n: int) -> int {
    if n == 0 {
        1
    } else {
        n
    }
}

/// The number of preview rows: at least one.
pub fn preview_rows(n: usize) -> (r: usize)
    ensures
        r == rows_shown(n as int),
{
    if n == 0 {
        1
    } else {
        n
    }
}

// ─── notices ────────────────────────────────────────────────────────────────
/// The notice that metadata is read in place of data, where that was not asked
/// for.
pub open spec fn lite_notice(
    fmt: InputFormat,
    forced: bool,
    auto: bool,
    threshold: int,
    what: Seq<char>,
) -> Option<Seq<char>> {
    if fmt == InputFormat::Parquet && auto && !forced {
        Some(
            "pq: lite mode (file >= "@ + size_text(threshold) + "; reading "@ + what
                + " from parquet footer)"@,
        )
    } else {
        None
    }
}

/// Writes the notice that metadata is read in place of data.
pub fn lite_banner(
    fmt: InputFormat,
    forced: bool,
    auto: bool,
    threshold: u64,
    what: &str,
) -> (r: Option<String>)
    ensures
        match r {
            Some(s) => lite_notice(fmt, forced, auto, threshold as int, what@) == Some(s@),
            None => lite_notice(fmt, forced, auto, threshold as int, what@) is None,
        },
{
    if fmt == InputFormat::Parquet && auto && !forced {
        let size = fmt_bytes(threshold);
        Some(
            cat5(
                "pq: lite mode (file >= ",
                size.as_str(),
                "; reading ",
                what,
                " from parquet footer)",
            ),
        )
    } else {
        None
    }
}

/// The progress of a query is shown.
pub open spec fn progress_is_shown(disabled: bool, opted_out: bool, to_terminal: bool) -> bool {
    !disabled && !opted_out && to_terminal
}

/// Is the progress of a query shown? Only on a terminal, and unless it is
/// switched off.
pub fn shows_progress(disabled: bool, opted_out: bool, to_terminal: bool) -> (r: bool)
    ensures
        r == progress_is_shown(disabled, opted_out, to_terminal),
{
    !disabled && !opted_out && to_terminal
}

/// The pictures of the progress display, in turn.
pub open spec fn progress_frames() -> Seq<char> {
    seq!['⠋', '⠙', '⠹', '⠸', '⠼', '⠴', '⠦', '⠧', '⠇', '⠏']
}

/// Picks the picture for a tick of the progress display.
pub fn progress_frame(tick: usize) -> (r: char)
    ensures
        r == progress_frames()[tick as int % 10],
{
    let frames: [char; 10] = ['⠋', '⠙', '⠹', '⠸', '⠼', '⠴', '⠦', '⠧', '⠇', '⠏'];
    frames[tick % 10]
}

// ─── laws ───────────────────────────────────────────────────────────────────
/// A macro is created, or replaced, under its head with its body: `:=` stands for
/// AS, and a text with AS is complete. A CREATE statement is run as it is.
#[verifier::rlimit(50)]
pub proof fn macros_are_created(head: Seq<char>, body: Seq<char>, s: Seq<char>)
    requires
        is_tight(head),
        is_tight(body),
        !head.contains(':'),
        !has_prefix(lowered(head + " := "@ + body), "create "@),
        is_tight(s),
    ensures
        macro_statement(head + " := "@ + body) == "CREATE OR REPLACE MACRO "@ + head + " AS "@
            + body,
        has_prefix(lowered(s), "create "@) ==> macro_statement(s) == s,
        !has_prefix(lowered(s), "create "@) && !has_text(s, ":="@) ==> macro_statement(s)
            == "CREATE OR REPLACE MACRO "@ + s,
{
    reveal_strlit(" := ");
    reveal_strlit(":=");
    let whole = head + " := "@ + body;
    assert(whole[0] == head[0] && whole[whole.len() - 1] == body[body.len() - 1]);
    assert(trimmed(whole) == whole);
    let blank = seq![' '];
    let a = head + blank;
    let b = blank + body;
    assert(whole =~= a + ":="@ + b);
    assert forall|k: int| 0 <= k < a.len() implies !#[trigger] occurs_at(a + ":="@ + b, ":="@, k) by {
        if occurs_at(a + ":="@ + b, ":="@, k) {
            assert((a + ":="@ + b).subrange(k, k + 2)[0] == ':');
            assert((a + ":="@ + b)[k] == a[k]);
            if k < head.len() {
                assert(a[k] == head[k]);
                assert(head.contains(':'));
            }
        }
    }
    first_separator_splits(a, ":="@, b);
    trimming_takes_the_space_around(Seq::empty(), head, blank);
    trimming_takes_the_space_around(blank, body, Seq::empty());
    assert(Seq::<char>::empty() + head + blank =~= a);
    assert(blank + body + Seq::<char>::empty() =~= b);
    assert(trimmed(s) == s);
}

/// Rows are counted in the data, or, for parquet where that is asked for, summed
/// up from the metadata of the files.
#[verifier::rlimit(50)]
pub proof fn counts_come_from_the_right_place(path: Seq<char>, src: Seq<char>)
    ensures
        count_query(path, InputFormat::Parquet, true, src)
            == "SELECT sum(num_rows)::BIGINT AS rows FROM parquet_file_metadata("@ + ("'"@
            + quotes_doubled(path) + "'"@) + ")"@,
        count_query(path, InputFormat::Parquet, false, src) == "SELECT count(*) AS rows FROM "@
            + src,
        count_query(path, InputFormat::Csv, true, src) == "SELECT count(*) AS rows FROM "@ + src,
        count_query(path, InputFormat::Ndjson, true, src) == "SELECT count(*) AS rows FROM "@ + src,
        stats_query(path, InputFormat::Csv, true, src) == stats_query(
            path,
            InputFormat::Parquet,
            false,
            src,
        ),
        stats_query(path, InputFormat::Ndjson, true, src) == stats_query(
            path,
            InputFormat::Parquet,
            false,
            src,
        ),
        stats_query(path, InputFormat::Parquet, false, src)
            == "SELECT column_name, column_type, min, max, approx_unique AS approx_distinct, null_percentage AS null_pct FROM (SUMMARIZE SELECT * FROM "@
            + src + ")"@,
        stats_query(path, InputFormat::Parquet, true, src)
            == "SELECT path_in_schema AS column_name, any_value(type) AS column_type, min(stats_min_value)::VARCHAR AS min, max(stats_max_value)::VARCHAR AS max, sum(num_values)::BIGINT AS rows, sum(stats_null_count)::BIGINT AS nulls FROM parquet_metadata('"@
            + quotes_doubled(path)
            + "') GROUP BY path_in_schema ORDER BY min(row_group_id), min(column_id)"@,
        literal_text(quotes_doubled(path)) == Some(path),
{
    escaped_text_reads_back(path);
    reveal_strlit("'");
    reveal_strlit("')");
    reveal_strlit(")");
    reveal_strlit("SELECT sum(num_rows)::BIGINT AS rows FROM parquet_file_metadata('");
    reveal_strlit("SELECT sum(num_rows)::BIGINT AS rows FROM parquet_file_metadata(");
    assert("SELECT sum(num_rows)::BIGINT AS rows FROM parquet_file_metadata('"@ + quotes_doubled(
        path,
    ) + "')"@ =~= "SELECT sum(num_rows)::BIGINT AS rows FROM parquet_file_metadata("@ + ("'"@
        + quotes_doubled(path) + "'"@) + ")"@);
}

/// A remote path is not measured. A path without wildcards is one file; one with a
/// wildcard stands for the files of the directory before it that match the rest.
#[verifier::rlimit(50)]
pub proof fn sizes_are_those_of_the_files_meant(
    dir: Seq<char>,
    name: Seq<char>,
    rest: Seq<char>,
)
    requires
        !dir.contains('*') && !dir.contains('?') && !dir.contains('['),
        !name.contains('*') && !name.contains('?') && !name.contains('['),
        !name.contains('/'),
        rest.len() > 0,
        rest[0] == '*' || rest[0] == '?' || rest[0] == '[',
        !has_text(dir + "/"@ + name + rest, "://"@),
        !has_text(name, "://"@),
        !has_text(name + rest, "://"@),
    ensures
        size_view(dir + "/"@ + name + rest) == (SizeView::Matches {
            dir: dir + "/"@,
            pattern: name + rest,
        }),
        size_view(name + rest) == (SizeView::Matches { dir: "."@, pattern: name + rest }),
        size_view(name) == SizeView::File,
{
    reveal_strlit("/");
    let head = dir + "/"@ + name;
    let path = head + rest;
    let n = head.len() as int;
    assert forall|k: int| 0 <= k < n implies !is_wildcard(#[trigger] path[k]) by {
        if k < dir.len() {
            assert(path[k] == dir[k]);
            assert(dir.contains(dir[k]));
        } else if k > dir.len() {
            assert(path[k] == name[k - dir.len() - 1]);
            assert(name.contains(name[k - dir.len() - 1]));
        }
    }
    assert(path[n] == rest[0]);
    lemma_first_wildcard(path, 0, n);
    assert(path.take(n) =~= head);
    assert(path.subrange(dir.len() as int + 1, n) =~= name);
    lemma_dir_end(path, n, dir.len() as int, name);
    assert(path.take(dir.len() as int + 1) =~= dir + "/"@);
    assert(path.skip(dir.len() as int + 1) =~= name + rest);
    let short = name + rest;
    let m = name.len() as int;
    assert forall|k: int| 0 <= k < m implies !is_wildcard(#[trigger] short[k]) by {
        assert(short[k] == name[k]);
        assert(name.contains(name[k]));
    }
    assert(short[m] == rest[0]);
    lemma_first_wildcard(short, 0, m);
    assert(short.take(m) =~= name);
    lemma_find_back_range(name, "/"@, m);
    if let Some(k) = find_back(name, "/"@, m) {
        assert(name.subrange(k, k + 1)[0] == '/');
        assert(name.contains('/'));
    }
    assert(short.skip(0) =~= short);
    assert forall|k: int| 0 <= k < m implies !is_wildcard(#[trigger] name[k]) by {
        assert(name.contains(name[k]));
    }
    lemma_no_wildcard(name, 0);
}

proof fn lemma_first_wildcard(s: Seq<char>, i: int, n: int)
    requires
        0 <= i <= n < s.len(),
        is_wildcard(s[n]),
        forall|k: int| i <= k < n ==> !is_wildcard(#[trigger] s[k]),
    ensures
        wildcard_from(s, i) == Some(n),
    decreases n - i,
{
    if i < n {
        assert(!is_wildcard(s[i]));
        lemma_first_wildcard(s, i + 1, n);
    }
}

proof fn lemma_no_wildcard(s: Seq<char>, i: int)
    requires
        0 <= i <= s.len(),
        forall|k: int| i <= k < s.len() ==> !is_wildcard(#[trigger] s[k]),
    ensures
        wildcard_from(s, i) is None,
    decreases s.len() - i,
{
    if i < s.len() {
        assert(!is_wildcard(s[i]));
        lemma_no_wildcard(s, i + 1);
    }
}

proof fn lemma_dir_end(path: Seq<char>, n: int, at: int, name: Seq<char>)
    requires
        0 <= at < n <= path.len(),
        path[at] == '/',
        path.subrange(at + 1, n) == name,
        !name.contains('/'),
    ensures
        dir_end(path, n) == at + 1,
{
    reveal_strlit("/");
    let head = path.take(n);
    assert(head.subrange(at, at + 1) =~= "/"@);
    assert(occurs_at(head, "/"@, at));
    lemma_find_back_range(head, "/"@, n);
    assert("/"@.len() == 1);
    let found = find_back(head, "/"@, n);
    assert(found is Some);
    let k = found->0;
    assert(k >= at);
    if k > at {
        assert(head.subrange(k, k + 1)[0] == '/');
        assert(head[k] == name[k - at - 1]);
        assert(name.contains('/'));
    }
}

/// Nothing remote is measured.
pub proof fn remote_paths_are_not_measured(scheme: Seq<char>, rest: Seq<char>)
    requires
        !scheme.contains(':'),
    ensures
        size_view(scheme + "://"@ + rest) == SizeView::Skip,
{
    reveal_strlit("://");
    let s = scheme + "://"@ + rest;
    assert forall|k: int| 0 <= k < scheme.len() implies !#[trigger] occurs_at(s, "://"@, k) by {
        if occurs_at(s, "://"@, k) {
            assert(s.subrange(k, k + 3)[0] == ':');
            assert(s[k] == scheme[k]);
            assert(scheme.contains(':'));
        }
    }
    first_separator_splits(scheme, "://"@, rest);
}

/// The sizes of the files add up, and what is no file counts for nothing; without
/// a file no size is reached.
pub proof fn sizes_add_up(entries: Seq<Option<u64>>, size: u64, threshold: int)
    requires
        entries.len() < 64,
    ensures
        total_size(entries.push(Some(size))) == total_size(entries) + size,
        total_size(entries.push(None)) == total_size(entries),
        total_size(Seq::empty()) == 0,
        reaches(entries.push(Some(size)), threshold) == (total_size(entries) + size >= threshold),
        reaches(entries.push(None), threshold) == reaches(entries, threshold),
        !reaches(Seq::empty(), threshold),
{
    let more = entries.push(Some(size));
    let none = entries.push(None);
    assert(more.drop_last() =~= entries);
    assert(none.drop_last() =~= entries);
    assert(more[entries.len() as int] is Some);
    if has_file(none) {
        let i = choose|i: int| 0 <= i < none.len() && #[trigger] none[i] is Some;
        assert(entries[i] is Some);
    }
    if has_file(entries) {
        let i = choose|i: int| 0 <= i < entries.len() && #[trigger] entries[i] is Some;
        assert(none[i] is Some);
    }
}

/// The user is told where metadata is read without having been asked for, and
/// nowhere else.
pub proof fn notices_tell_of_automatic_choices(
    fmt: InputFormat,
    forced: bool,
    auto: bool,
    threshold: int,
    what: Seq<char>,
)
    ensures
        lite_notice(fmt, forced, auto, threshold, what) is Some == (fmt == InputFormat::Parquet
            && auto && !forced),
        lite_notice(fmt, forced, auto, threshold, what) matches Some(text) ==> text
            == "pq: lite mode (file >= "@ + size_text(threshold) + "; reading "@ + what
            + " from parquet footer)"@,
{
}

/// A number in the environment counts where it is one; else the default does.
pub proof fn environment_numbers_are_read(s: String, n: nat, default: int)
    ensures
        env_number(None, default) == default,
        n <= u64::MAX && s@ == decimal(n) ==> env_number(Some(s), default) == n,
        parsed_unsigned(s@, u64::MAX as int) is None ==> env_number(Some(s), default) == default,
{
    large_numbers_are_refused(n, u64::MAX as int);
}

/// A result that is exported as parquet is not limited, any other one is as asked;
/// the output of lines goes before the format asked for.
pub proof fn exports_are_not_limited(fmt: OutputFormat, n: int)
    ensures
        limit_for(OutputFormat::Parquet, n) == 0,
        fmt != OutputFormat::Parquet ==> limit_for(fmt, n) == n,
        format_for(true, fmt) == OutputFormat::RawLines,
        format_for(false, fmt) == fmt,
{
}

/// Each subcommand reads all of its source: its columns, its first rows, its last
/// rows, the last one first, or some rows at random.
pub proof fn subcommands_read_their_source(src: Seq<char>, n: nat)
    ensures
        schema_query(src)
            == "SELECT column_name, column_type, \"null\" AS nullable FROM (DESCRIBE SELECT * FROM "@
            + src + ")"@,
        describe_query(src) == "SELECT column_name, column_type FROM (DESCRIBE SELECT * FROM "@
            + src + ")"@,
        head_query(src, n) == "SELECT * FROM "@ + src + " LIMIT "@ + decimal(n),
        sample_query(src, n) == "SELECT * FROM "@ + src + " USING SAMPLE "@ + decimal(n)
            + " ROWS"@,
        tail_query(src, n) == "WITH t AS (SELECT *, row_number() OVER () AS __rn FROM "@ + src
            + ") SELECT * EXCLUDE (__rn) FROM t ORDER BY __rn DESC LIMIT "@ + decimal(n),
        preview_query(src, n) == "SELECT * FROM ("@ + src + ") AS __pq_tui_preview LIMIT "@
            + decimal(n),
{
}

/// A preview has at least one row; else as many as asked for.
pub proof fn previews_have_a_row(n: int)
    requires
        n > 0,
    ensures
        rows_shown(0) == 1,
        rows_shown(n) == n,
{
}

/// Progress is shown on a terminal, unless the user said otherwise in either way.
pub proof fn progress_can_be_switched_off(a: bool, b: bool)
    ensures
        progress_is_shown(false, false, true),
        !progress_is_shown(true, a, b),
        !progress_is_shown(a, true, b),
        !progress_is_shown(a, b, false),
{
}

/// The timeout of HTTP requests is 15 seconds, or what the environment says.
pub proof fn http_timeouts_are_set(ms: nat)
    ensures
        http_statements(ms as int) == "SET http_keep_alive=true; SET http_timeout="@ + decimal(ms)
            + ";"@,
{
}

/// The pictures of the progress display follow each other, and come round.
pub proof fn pictures_come_round()
    ensures
        progress_frames().len() == 10,
        progress_frames().no_duplicates(),
        progress_frames()[0] == '⠋',
{
}

/// At most 64 entries of a directory are measured, the first ones.
pub proof fn few_entries_are_measured(entries: Seq<Option<u64>>, more: Seq<Option<u64>>, t: int)
    requires
        entries.len() == 64,
    ensures
        reaches(entries + more, t) == reaches(entries, t),
{
    assert((entries + more).take(64) =~= entries);
    if more.len() == 0 {
        assert(entries + more =~= entries);
    }
}

} // verus!
