//! The browser: completion, drilling down, filters, history and the session.
use pq::completion::{compute_completion, ColumnInfo};
use pq::drill::{build_drill_query, drill_clause, looks_numeric};
use pq::editor::{cursor_byte_offset, Editor};
use pq::filters::extract_filters;
use pq::grid::ellipsise;
use pq::history::{record_history, HISTORY_MAX};
use pq::lineage::{DerivedColumn, Lineage};
use pq::screen::regex_escape;
use pq::session::{Preview, Session, PREVIEW_LIMIT_DEFAULT};
use pq::shell::shell_quote;
use pq::source::InputFormat;

/// An editor with one line of text and the cursor at a byte of it.
fn ta_with(text: &str, cursor_byte: usize) -> Editor {
    Editor {
        lines: vec![text.to_string()],
        row: 0,
        col: text[..cursor_byte].chars().count(),
    }
}

fn cols(names: &[&str]) -> Vec<ColumnInfo> {
    names
        .iter()
        .map(|n| ColumnInfo {
            name: (*n).into(),
            ty: "VARCHAR".into(),
            selected: false,
        })
        .collect()
}

fn s(v: &[&str]) -> Vec<String> {
    v.iter().map(|x| (*x).to_string()).collect()
}

fn lineage_with_aggs(aliases: &[&str]) -> Lineage {
    let derived = aliases
        .iter()
        .map(|a| DerivedColumn {
            alias: (*a).into(),
            agg: "count".into(),
            source: None,
        })
        .collect();
    Lineage {
        column_refs: vec![],
        derived,
    }
}

fn empty_preview() -> Preview {
    Preview {
        headers: vec![],
        rows: vec![],
        sql: String::new(),
        last_ms: 0,
        error: None,
        explain: None,
    }
}

fn session(file: &str) -> Session {
    Session::start(
        file.to_string(),
        InputFormat::Parquet,
        PREVIEW_LIMIT_DEFAULT,
        vec![],
        vec![],
        empty_preview(),
        vec![],
    )
}

#[test]
fn shell_quote_simple() {
    assert_eq!(shell_quote("foo.parquet"), "foo.parquet");
}

#[test]
fn shell_quote_with_spaces() {
    assert_eq!(
        shell_quote("group_by .country | count"),
        "'group_by .country | count'"
    );
}

#[test]
fn shell_quote_with_single_quote() {
    assert_eq!(shell_quote("c = 'US'"), "'c = '\\''US'\\'''");
}

#[test]
fn shell_quote_empty() {
    assert_eq!(shell_quote(""), "''");
}

#[test]
fn ellipsise_fits_unchanged() {
    assert_eq!(ellipsise("alice", 5), "alice");
    assert_eq!(ellipsise("alice", 10), "alice");
}

#[test]
fn ellipsise_clipped_with_marker() {
    assert_eq!(ellipsise("alice@example.com", 8), "alice@e…");
    assert_eq!(ellipsise("alice@example.com", 1), "…");
}

#[test]
fn ellipsise_zero_width() {
    assert_eq!(ellipsise("anything", 0), "");
}

#[test]
fn extract_filters_empty_query() {
    assert!(extract_filters("").is_empty());
    assert!(extract_filters(".email").is_empty());
}

#[test]
fn extract_filters_single_where_stage() {
    let f = extract_filters("where .age > 18");
    assert_eq!(f, vec![".age > 18"]);
}

#[test]
fn extract_filters_inline_where_in_projection() {
    let f = extract_filters(".email where .country == \"US\"");
    assert_eq!(f, vec![".country == \"US\""]);
}

#[test]
fn extract_filters_multiple_pipe_stages() {
    let f = extract_filters("where .a > 0 | group_by .c | having count > 5");
    assert_eq!(f, vec![".a > 0", "(having) count > 5"]);
}

#[test]
fn extract_filters_word_boundary_avoids_whereabouts() {
    assert!(extract_filters(".whereabouts").is_empty());
}

#[test]
fn extract_filters_bare_keyword_at_end_does_not_panic() {
    assert!(extract_filters(".country, .revenue where").is_empty());
    assert!(extract_filters(".country, .revenue where ").is_empty());
    assert!(extract_filters("group_by .x | having").is_empty());
}

#[test]
fn looks_numeric_basic() {
    assert!(looks_numeric("42"));
    assert!(looks_numeric("3.14"));
    assert!(looks_numeric("-1.5e10"));
    assert!(looks_numeric("1,234"));
    assert!(!looks_numeric("US"));
    assert!(!looks_numeric(""));
    assert!(!looks_numeric("--"));
}

#[test]
fn regex_escape_handles_metachars() {
    assert_eq!(regex_escape("country"), "country");
    assert_eq!(regex_escape("a.b"), r"a\.b");
    assert_eq!(regex_escape("price$"), r"price\$");
    assert_eq!(regex_escape("col[0]"), r"col\[0\]");
}

#[test]
fn drill_clause_quotes_strings() {
    assert_eq!(drill_clause("country", "US"), r#".country == "US""#);
}

#[test]
fn drill_clause_bare_numbers() {
    assert_eq!(drill_clause("age", "42"), ".age == 42");
    assert_eq!(drill_clause("price", "3.14"), ".price == 3.14");
    assert_eq!(drill_clause("delta", "-5"), ".delta == -5");
}

#[test]
fn drill_clause_bare_booleans() {
    assert_eq!(drill_clause("active", "true"), ".active == true");
    assert_eq!(drill_clause("active", "false"), ".active == false");
}

#[test]
fn drill_clause_null_is_null() {
    assert_eq!(drill_clause("country", "∅"), ".country IS NULL");
    assert_eq!(drill_clause("country", ""), ".country IS NULL");
}

#[test]
fn drill_clause_escapes_quotes_and_backslashes() {
    assert_eq!(drill_clause("name", r#"O"Brien"#), r#".name == "O\"Brien""#);
    assert_eq!(drill_clause("path", "C:\\x"), r#".path == "C:\\x""#);
}

#[test]
fn drill_query_single_grouping_col() {
    let headers = s(&["country", "count"]);
    let row = s(&["US", "248"]);
    let l = lineage_with_aggs(&["count"]);
    assert_eq!(
        build_drill_query(&headers, &row, &l).as_deref(),
        Some(r#"where .country == "US""#)
    );
}

#[test]
fn drill_query_multi_grouping_cols() {
    let headers = s(&["country", "region", "sum_revenue"]);
    let row = s(&["US", "West", "19065"]);
    let l = lineage_with_aggs(&["sum_revenue"]);
    assert_eq!(
        build_drill_query(&headers, &row, &l).as_deref(),
        Some(r#"where .country == "US" and .region == "West""#)
    );
}

#[test]
fn drill_query_returns_none_when_all_aggs() {
    let headers = s(&["count"]);
    let row = s(&["1234"]);
    let l = lineage_with_aggs(&["count"]);
    assert_eq!(build_drill_query(&headers, &row, &l), None);
}

#[test]
fn drill_query_handles_null_grouping_cell() {
    let headers = s(&["country", "count"]);
    let row = s(&["∅", "17"]);
    let l = lineage_with_aggs(&["count"]);
    assert_eq!(
        build_drill_query(&headers, &row, &l).as_deref(),
        Some("where .country IS NULL")
    );
}

#[test]
fn drill_query_with_numeric_grouping_value() {
    let headers = s(&["age", "count"]);
    let row = s(&["42", "100"]);
    let l = lineage_with_aggs(&["count"]);
    assert_eq!(
        build_drill_query(&headers, &row, &l).as_deref(),
        Some("where .age == 42")
    );
}

#[test]
fn cursor_byte_offset_single_line() {
    let ta = ta_with("group_by .country", 12);
    assert_eq!(cursor_byte_offset(&ta), 12);
}

#[test]
fn completion_fires_on_dot_prefix() {
    let cs = cols(&["country", "region", "revenue", "age"]);
    let ta = ta_with(".co", 3);
    let c = compute_completion(&ta, &cs).expect("expected popup");
    assert_eq!(c.prefix, "co");
    assert_eq!(c.dot, 0);
    assert_eq!(c.candidates, vec!["country".to_string()]);
    assert_eq!(c.selected, 0);
}

#[test]
fn completion_prefix_then_substring() {
    let cs = cols(&["country", "discount", "co_owner", "region"]);
    let ta = ta_with(".co", 3);
    let c = compute_completion(&ta, &cs).expect("expected popup");
    assert_eq!(
        c.candidates,
        vec![
            "co_owner".to_string(),
            "country".to_string(),
            "discount".to_string()
        ]
    );
}

#[test]
fn completion_silent_on_empty_prefix() {
    let cs = cols(&["country", "region"]);
    let ta = ta_with(".", 1);
    assert!(compute_completion(&ta, &cs).is_none());
}

#[test]
fn completion_silent_inside_word() {
    let cs = cols(&["country", "region"]);
    let ta = ta_with(".country", 4);
    assert!(compute_completion(&ta, &cs).is_none());
}

#[test]
fn completion_silent_on_qualified_dot_chain() {
    let cs = cols(&["country", "region"]);
    let ta = ta_with(".a.co", 5);
    assert!(compute_completion(&ta, &cs).is_none());
}

#[test]
fn completion_silent_when_no_match() {
    let cs = cols(&["country", "region"]);
    let ta = ta_with(".zz", 3);
    assert!(compute_completion(&ta, &cs).is_none());
}

#[test]
fn history_dedupes_consecutive_writes() {
    let mut history: Vec<String> = Vec::new();
    record_history(&mut history, ".country");
    record_history(&mut history, ".country");
    assert_eq!(history, vec![".country".to_string()]);
}

#[test]
fn history_promotes_repeat_to_top() {
    let mut history: Vec<String> = Vec::new();
    record_history(&mut history, ".a");
    record_history(&mut history, ".b");
    record_history(&mut history, ".a");
    assert_eq!(
        history,
        vec![".a".to_string(), ".b".to_string()],
        "retyped query should promote, not duplicate"
    );
}

#[test]
fn history_caps_at_history_max() {
    let mut history: Vec<String> = Vec::new();
    for i in 0..(HISTORY_MAX + 10) {
        record_history(&mut history, &format!(".col{i}"));
    }
    assert_eq!(history.len(), HISTORY_MAX);
    assert!(history
        .first()
        .unwrap()
        .ends_with(&format!("{}", HISTORY_MAX + 9)));
}

#[test]
fn equivalent_cli_omits_defaults() {
    let app = session("demo.parquet");
    assert_eq!(app.equivalent_cli(), "pq demo.parquet");
}

#[test]
fn equivalent_cli_includes_input_format_for_ndjson() {
    let mut app = session("demo.ndjson");
    app.input_fmt = InputFormat::Ndjson;
    assert_eq!(app.equivalent_cli(), "pq -i ndjson demo.ndjson");
}

#[test]
fn equivalent_cli_includes_csv_and_n() {
    let mut app = session("data.csv");
    app.input_fmt = InputFormat::Csv;
    app.preview_limit = 200;
    app.editor = Editor::of("where .age > 18");
    let cli = app.equivalent_cli();
    assert!(
        cli.starts_with("pq -i csv -n 200 "),
        "expected csv+n prefix, got {cli}"
    );
    assert!(cli.ends_with("'where .age > 18'"), "got {cli}");
}

#[test]
fn equivalent_cli_threads_udfs() {
    let mut app = session("demo.parquet");
    app.udfs = vec![
        "is_us(c) := c = 'US'".to_string(),
        "shout(s) := upper(s)".to_string(),
    ];
    let cli = app.equivalent_cli();
    assert!(
        cli.contains("--udf 'is_us(c) := c = '\\''US'\\'''"),
        "missing first udf in {cli}"
    );
    assert!(
        cli.contains("--udf 'shout(s) := upper(s)'"),
        "missing second udf in {cli}"
    );
}
