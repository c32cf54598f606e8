//! General statements about the library, each on concrete values.
use pq::calendar::{
    civil_from_days, date32_to_iso, format_fractional, timestamp_to_iso, TimeUnit,
};
use pq::commands::sizes_reach;
use pq::compile::compile_plan;
use pq::completion::{compute_completion, ColumnInfo};
use pq::drill::drill_clause;
use pq::editor::Editor;
use pq::explain::{extract_hive_keys, parse_explain};
use pq::figures::{fmt_bytes, fmt_count};
use pq::filter::rewrite_filter;
use pq::filters::{extract_filters, find_word};
use pq::glob::glob_matches;
use pq::grid::{ellipsise, grid_title, lay_out};
use pq::history::{history_text, parse_history, record_history};
use pq::lineage::{agg_alias, extract, Lineage};
use pq::number::{parse_i64, parse_u64, show, show_signed};
use pq::output::{csv_lines, ndjson_lines, row_to_csv};
use pq::panel::Panel;
use pq::path::{alias_for_path, path_function_alias, path_to_sql};
use pq::plan::{final_col_name, strip_as_alias, Aggregate};
use pq::profile::{
    counts_files, known_total, merge_pruning_metrics, scans_of_profile, summarize, Pruning,
};
use pq::screen::{
    columns_title, explain_rows, filters_title, highlight_pattern, mark_column, no_data_message,
    popup_area, popup_title, query_title, row_totals, split_candidate, split_lines, status_text,
    Area, SpanStyle,
};
use pq::session::{
    compile_delay_left, flash_expired, poll_timeout, Action, Flash, Key, Preview, Session,
};
use pq::shell::write_command;
use pq::source::InputFormat;
use pq::stage::{
    parse_projection, parse_stage, split_list, split_pipe_stages, strip_keyword, take_keyword,
};
use pq::text::{join, split};
use pq::unnest::{alias_safe, lift_unnest};
use pq::value::CellValue;

fn sql_of(q: &str) -> String {
    compile_plan("f.parquet", q, 0).unwrap().sql
}

fn strings(v: &[&str]) -> Vec<String> {
    v.iter().map(|s| s.to_string()).collect()
}

#[test]
fn numbers_read_back() {
    for n in [0u64, 9, 10, 12345, u64::MAX] {
        assert_eq!(parse_u64(&show(n.into())), Some(n));
    }
    for n in [i64::MIN, -1, 0, i64::MAX] {
        assert_eq!(parse_i64(&show_signed(n.into())), Some(n));
    }
    assert_eq!(parse_u64("18446744073709551616"), None);
    assert_eq!(parse_u64("+7"), Some(7));
    assert_eq!(parse_u64("-0"), None);
    assert_eq!(parse_u64("+"), None);
    assert_eq!(parse_i64("9223372036854775808"), None);
}

#[test]
fn pieces_join_again() {
    for s in ["", ",", "a,b,,c", "no separator"] {
        assert_eq!(join(&split(s, ","), ","), s);
    }
}

#[test]
fn lists_are_exploded_once() {
    let mut sources = Vec::new();
    assert_eq!(
        lift_unnest("UNNEST( a ).x + unnest(b)[1]", &mut sources, false),
        "_pq_u0.x + _pq_u1[1]"
    );
    assert_eq!(lift_unnest("UNNEST(a)", &mut sources, false), "UNNEST(a)");
    assert_eq!(lift_unnest("UNNEST(a)", &mut sources, true), "_pq_u0");
    assert_eq!(
        lift_unnest("MY_UNNEST(a) UNNEST(c", &mut sources, true),
        "MY_UNNEST(a) UNNEST(c"
    );
    assert_eq!(
        lift_unnest("UNNEST(f(')'))", &mut sources, true),
        "_pq_u2"
    );
    assert_eq!(sources, vec!["a", "b", "f(')')"]);
}

#[test]
fn aliases_are_names() {
    assert_eq!(alias_safe("UNNEST(UNNEST(matrix).row).cell"), "matrix_row_cell");
    assert_eq!(alias_safe("b.amount"), "b_amount");
    assert_eq!(alias_safe("--"), "");
}

#[test]
fn aggregates_name_their_columns() {
    for a in [
        Aggregate::Count,
        Aggregate::CountDistinct("b.x".to_string()),
        Aggregate::Sum("x as y".to_string()),
    ] {
        assert_eq!(final_col_name(&a.sql()), a.alias());
    }
    assert_eq!(
        agg_alias("SUM", "b.x"),
        Aggregate::Sum("b.x".to_string()).alias()
    );
    assert_eq!(strip_as_alias("f(x) AS y"), "f(x)");
}

#[test]
fn where_goes_by_the_grouping_before_it() {
    assert_eq!(
        sql_of("where .a > 1 | group_by .c | where count > 2"),
        "SELECT c FROM read_parquet('f.parquet') WHERE a > 1 GROUP BY c HAVING count > 2"
    );
}

#[test]
fn keywords_have_second_spellings() {
    assert_eq!(sql_of("group by .a"), sql_of("group_by .a"));
    assert_eq!(sql_of("order by .a desc"), sql_of("sort by .a desc"));
    assert_eq!(sql_of("head 3"), sql_of("limit 3"));
    assert_eq!(sql_of("TOCSV"), sql_of("to_csv"));
    assert_eq!(
        sql_of("outer join \"b\" on .x"),
        sql_of("full_join \"b\" on .x")
    );
}

#[test]
fn later_stages_keep_earlier_ones() {
    let mut plan = pq::plan::QueryPlan::new("s".to_string());
    parse_stage("where .a > 1", &mut plan).unwrap();
    parse_stage(".x, .y", &mut plan).unwrap();
    parse_stage("sort by .x", &mut plan).unwrap();
    parse_stage("top 3 by .y", &mut plan).unwrap();
    assert_eq!(plan.source, "s");
    assert_eq!(plan.filters, vec!["a > 1"]);
    assert_eq!(plan.projections, vec!["x", "y"]);
    assert_eq!(
        plan.order_by,
        vec![("x".to_string(), true), ("y".to_string(), false)]
    );
    assert_eq!(plan.limit, Some(3));
}

#[test]
fn quoted_text_is_kept_apart() {
    assert_eq!(
        sql_of("where .a == \"it's | b\" and .c == 'd.e == \"f\"'"),
        "SELECT * FROM read_parquet('f.parquet') WHERE a = 'it''s | b' and c = 'd.e == \"f\"'"
    );
}

#[test]
fn references_are_found_under_the_cursor() {
    let q = "é .a.b, 'x.y' | sum .c";
    let l = extract(q);
    assert_eq!(l.column_refs.len(), 2);
    assert_eq!((l.column_refs[0].start, l.column_refs[0].end), (3, 7));
    for off in 3..=7 {
        assert_eq!(l.column_at(off).unwrap().name, "b");
    }
    assert!(l.column_at(2).is_none());
    assert!(l.column_at(8).is_none());
    assert_eq!(l.source_of("sum_c"), Some("c"));
    let l = extract("sum .b.amount");
    assert_eq!(l.derived[0].alias, "sum_b_amount");
    assert_eq!(l.source_of("sum_b_amount"), Some("amount"));
}

#[test]
fn struct_paths_stay_as_they_are() {
    assert_eq!(path_to_sql(".a.b_1.c").unwrap(), "a.b_1.c");
    assert_eq!(path_to_sql("a.b_1.c").unwrap(), "a.b_1.c");
    assert_eq!(alias_for_path(".a.b_1.c"), None);
    assert_eq!(path_to_sql(".a[3]").unwrap(), "a[4]");
    assert_eq!(alias_for_path(".a[3]"), Some("a_3".to_string()));
}

#[test]
fn failures_are_shown() {
    let p = Preview::failed("SELECT".to_string(), "compile", "no such column");
    assert_eq!(p.error.as_deref(), Some("compile: no such column"));
    assert_eq!(known_total(0), None);
    assert_eq!(known_total(3), Some(3));
    assert!(counts_files("a.parquet") && !counts_files("") && !counts_files("s3://a"));
    assert_eq!(no_data_message(&p.error), "error:\n  compile: no such column");
    assert_eq!(no_data_message(&None), "(no rows)");
    assert_eq!(columns_title(5, InputFormat::Csv), " Columns · 5 · csv ");
    assert_eq!(filters_title(1), " Filters · 1 ");
    assert_eq!(grid_title(50, 50), " Data · 50 rows (cap=50) ");
    assert_eq!(grid_title(7, 50), " Data · 7 rows ");
    assert_eq!(poll_timeout(Some(3), true), 20);
    assert_eq!(poll_timeout(None, true), 50);
    assert_eq!(poll_timeout(None, false), 200);
}

#[test]
fn every_day_has_a_date() {
    assert_eq!(civil_from_days(0), (1970, 1, 1));
    assert_eq!(date32_to_iso(11_016), "2000-02-29");
    assert_eq!(date32_to_iso(-25_509), "1900-02-28");
    assert_eq!(date32_to_iso(-25_508), "1900-03-01");
    assert_eq!(date32_to_iso(-719_528), "0000-01-01");
    assert_eq!(date32_to_iso(-719_529), "-001-12-31");
    assert_eq!(date32_to_iso(i32::MAX), "5881580-07-11");
    assert_eq!(date32_to_iso(i32::MIN), "-5877641-06-23");
}

#[test]
fn fractions_keep_their_digits() {
    assert_eq!(
        timestamp_to_iso(TimeUnit::Microsecond, -1),
        "1969-12-31T23:59:59.999999"
    );
    assert_eq!(
        timestamp_to_iso(TimeUnit::Nanosecond, 10),
        "1970-01-01T00:00:00.00000001"
    );
}

#[test]
fn figures_round_as_doubles_do() {
    assert_eq!(fmt_count(1_150), "1.1k");
    assert_eq!(fmt_count(1_250), "1.2k");
    assert_eq!(fmt_count(1_350), "1.4k");
    assert_eq!(fmt_count(999_999), "1000.0k");
    assert_eq!(fmt_count(u64::MAX), "18446744073.7B");
    for n in [1_050u64, 1_149, 1_151, 25_650, 1_234_567, 9_950_000, 7_850_000_000] {
        let k: f64 = if n < 1_000_000 {
            1e3
        } else if n < 1_000_000_000 {
            1e6
        } else {
            1e9
        };
        assert_eq!(
            fmt_count(n)[..fmt_count(n).len() - 1],
            format!("{:.1}", n as f64 / k)
        );
    }
    assert_eq!(fmt_bytes(1_075), "1 KB");
    assert_eq!(fmt_bytes(1_076), "1.1 KB");
    assert_eq!(fmt_bytes(u64::MAX), "16777216 TB");
}

#[test]
fn history_keeps_the_newest_once() {
    let mut h = parse_history("  .a \n\n.b\r\n.a\n");
    assert_eq!(h, vec![".a", ".b", ".a"]);
    assert!(record_history(&mut h, ".c"));
    assert!(!record_history(&mut h, ".c"));
    assert!(record_history(&mut h, ".a"));
    assert_eq!(h, vec![".a", ".c", ".b"]);
    assert_eq!(history_text(&h), ".a\n.c\n.b");
}

#[test]
fn saved_history_reads_back() {
    for list in [vec![], vec![".a"], vec![".b where .c == \"x\"", "group_by .d | count", "x"]] {
        let list = strings(&list);
        assert_eq!(parse_history(&history_text(&list)), list);
    }
}

#[test]
fn stages_are_trimmed_and_not_empty() {
    assert_eq!(
        split_pipe_stages(" | .a ,.b ||\twhere .c == \" | \"\n| "),
        vec![".a ,.b", "where .c == \" | \""]
    );
}

#[test]
fn path_columns_have_their_alias() {
    for path in [".tags[0]", ".tags[-1].x", ".m[\"k\"]", ".l[].y"] {
        let sql = parse_projection(path).unwrap();
        assert_eq!(Some(final_col_name(&sql)), alias_for_path(path));
        assert_eq!(strip_as_alias(&sql), path_to_sql(path).unwrap());
    }
}

#[test]
fn csv_lines_quote_what_they_must() {
    let row: Vec<CellValue> = ["a", "b,c", "say \"hi\"", "two\nlines", ""]
        .iter()
        .map(|t| CellValue::Text(t.to_string()))
        .collect();
    assert_eq!(
        row_to_csv(&row),
        "a,\"b,c\",\"say \"\"hi\"\"\",\"two\nlines\","
    );
}

#[test]
fn json_rows_stay_on_one_line() {
    let rows = vec![vec![CellValue::Text("two\nlines".to_string())]];
    assert_eq!(
        ndjson_lines(&strings(&["a\nb"]), &rows),
        vec!["{\"a\\nb\":\"two\\nlines\"}"]
    );
}

#[test]
fn csv_headers_are_quoted() {
    let rows = vec![vec![CellValue::Text("x".to_string()), CellValue::Null]];
    let lines = csv_lines(&strings(&["a,b", "say \"hi\""]), &rows);
    assert_eq!(lines[0], "\"a,b\",\"say \"\"hi\"\"\"");
    assert_eq!(lines.len(), 2);
}

#[test]
fn drilled_cells_read_back() {
    for (cell, literal) in [
        ("O\"Brien", "'O\"Brien'"),
        ("C:\\dir\\", "'C:\\dir\\'"),
        ("it's | \"x\" where \\\" y", "'it''s | \"x\" where \\\" y'"),
        (" trimmed ", "'trimmed'"),
    ] {
        let clause = drill_clause("name", cell);
        assert_eq!(rewrite_filter(&clause), format!("name = {literal}"));
        assert_eq!(split_pipe_stages(&clause), vec![clause.clone()]);
        let query = format!("where {clause} | .name");
        assert_eq!(
            sql_of(&query),
            format!("SELECT name FROM read_parquet('f.parquet') WHERE name = {literal}")
        );
        assert_eq!(extract_filters(&query), vec![clause.clone()]);
        let found = extract(&query).column_refs;
        let names: Vec<&str> = found.iter().map(|r| r.name.as_str()).collect();
        assert_eq!(names, vec!["name", "name"]);
    }
    assert_eq!(drill_clause("name", "O\"Brien"), r#".name == "O\"Brien""#);
}

#[test]
fn function_aliases_are_names() {
    for (call, alias) in [
        ("len(.user.tags)", "len_user_tags"),
        ("length(.tags)", "len_tags"),
        ("KEYS( .m )", "keys_m"),
        ("values(.l[0].m)", "values_l_0_m"),
    ] {
        assert_eq!(path_function_alias(call).as_deref(), Some(alias));
    }
}

#[test]
fn lists_split_outside_brackets() {
    for s in ["", "a, b", "f(a, [b, c]), 'd, e', \"g, \\\", h\", {x: 1, y: 2}", "a), b"] {
        assert_eq!(split_list(s).join(","), s);
    }
    assert_eq!(split_list("f(a, b), c, 'd, e'").len(), 3);
}

#[test]
fn aggregates_may_be_written_as_calls() {
    for q in ["sum(.revenue)", "sum .revenue", "sum ( .revenue )"] {
        let found = extract(q).derived;
        assert_eq!(found.len(), 1);
        assert_eq!(found[0].alias, "sum_revenue");
        assert_eq!(found[0].agg, "sum");
        assert_eq!(found[0].source.as_deref(), Some("revenue"));
    }
    assert!(extract("count(*)").derived.is_empty());
    for (q, alias) in [
        ("sum .events[].amount", "sum_events_amount"),
        ("max .b.amount", "max_b_amount"),
        ("avg(.tags[0])", "avg_tags_1"),
    ] {
        let found = extract(q).derived;
        assert_eq!(found[0].alias, alias);
    }
    assert_eq!(
        sql_of("sum .events[].amount"),
        "SELECT sum(_pq_u0.amount) AS sum_events_amount FROM \
         (SELECT *, UNNEST(events) AS _pq_u0 FROM read_parquet('f.parquet')) AS _pq_src"
    );
    assert_eq!(
        sql_of("avg .tags[0]"),
        "SELECT avg(tags[1]) AS avg_tags_1 FROM read_parquet('f.parquet')"
    );
    assert!(extract("sum((.revenue))").derived.is_empty());
}

#[test]
fn cursor_on_a_derived_column_finds_its_source() {
    let mut s = start(&["country", "revenue"]);
    s.focus = Panel::Query;
    let text = "group_by .country | sum .revenue | sort by .sum_revenue desc";
    s.editor = Editor {
        lines: strings(&[text]),
        row: 0,
        col: text.find(".sum_revenue").unwrap() + 4,
    };
    s.lineage = extract(text);
    assert_eq!(s.active_source().as_deref(), Some("revenue"));
    s.editor.col = text.find(".country").unwrap() + 1;
    assert_eq!(s.active_source().as_deref(), Some("country"));
}

#[test]
fn formats_go_by_extensions() {
    for (path, fmt) in [
        ("csv", InputFormat::Parquet),
        ("dir.d/json", InputFormat::Parquet),
        ("data", InputFormat::Parquet),
        ("x.CSV", InputFormat::Csv),
        ("a.b.jsonl", InputFormat::Ndjson),
    ] {
        assert_eq!(InputFormat::from_extension(path), fmt);
    }
}

#[test]
fn command_line_names_an_unexpected_format() {
    let mut s = start(&["a"]);
    s.file = "data.csv".to_string();
    assert_eq!(s.equivalent_cli(), "pq -i parquet data.csv");
    s.input_fmt = InputFormat::Csv;
    assert_eq!(s.equivalent_cli(), "pq -i csv data.csv");
}

#[test]
fn patterns_match_file_names() {
    for (pattern, name, yes) in [
        ("*.parquet", "a.parquet", true),
        ("*.parquet", "b.csv", false),
        ("*.parquet", ".parquet", true),
        ("a?c", "abc", true),
        ("a?c", "ac", false),
        ("part-[0-9][!x].p", "part-7y.p", true),
        ("part-[0-9][!x].p", "part-7x.p", false),
        ("part-[0-9]", "part-a", false),
        ("[]a]", "]", true),
        ("[a", "a", false),
        ("**/*.parquet", "a.parquet", true),
        ("dt=*/x.parquet", "dt=1", false),
        ("a*b*c", "a-b-b-c", true),
        ("plain", "plain", true),
        ("", "", true),
    ] {
        assert_eq!(glob_matches(pattern, name), yes, "{pattern} {name}");
    }
    let sizes: Vec<Option<u64>> = [("a.parquet", 10), ("b.csv", 500)]
        .iter()
        .filter(|(name, _)| glob_matches("*.parquet", name))
        .map(|(_, n)| Some(*n))
        .collect();
    assert!(!sizes_reach(&sizes, 100));
    assert!(sizes_reach(&sizes, 10));
}

#[test]
fn times_run_out() {
    assert!(!flash_expired(3_000));
    assert!(flash_expired(3_001));
    assert_eq!(compile_delay_left(0), 50);
    assert_eq!(compile_delay_left(49), 1);
    assert_eq!(compile_delay_left(50), 0);
    assert_eq!(compile_delay_left(u64::MAX), 0);
}

#[test]
fn keywords_need_something_behind_them() {
    assert_eq!(strip_keyword("sum", "sum"), None);
    assert_eq!(strip_keyword("sum ", "sum").as_deref(), Some(""));
    assert_eq!(strip_keyword("SUM\t.x ", "sum").as_deref(), Some(".x"));
    assert_eq!(strip_keyword("sum .x", "SUM").as_deref(), Some(".x"));
    assert_eq!(strip_keyword("summary", "sum"), None);
    assert_eq!(take_keyword("Sum", "sum").as_deref(), Some(""));
    assert_eq!(take_keyword("sum .x", "sum").as_deref(), Some(".x"));
    assert_eq!(take_keyword("su", "sum"), None);
    let refused = |q: &str| compile_plan("f.parquet", q, 0).unwrap_err();
    assert_eq!(
        refused("sum"),
        "`sum` requires a column (e.g. `sum .revenue`)"
    );
    assert_eq!(refused("top"), "`top` needs `by COL`: `top N by .col`");
    assert_eq!(
        refused("limit"),
        "`limit/head` needs a non-negative integer (e.g. `head 5` or `limit 5`), got ``"
    );
    assert_eq!(refused("group_by"), "empty projection");
}

#[test]
fn words_are_found_in_any_case() {
    assert_eq!(find_word("where", "WHERE"), Some(0));
    assert_eq!(find_word(".a Where .b", "where"), Some(3));
    assert_eq!(find_word("whereabouts", "where"), None);
}

#[test]
fn partition_keys_come_in_order() {
    assert_eq!(
        extract_hive_keys("s/dt=1/region=US/dt=2/x=/=y/part.parquet"),
        vec!["dt", "region"]
    );
    assert!(extract_hive_keys("s/part.parquet").is_empty());
}

#[test]
fn bracket_paths_have_an_alias() {
    for path in [".a", ".a.b", "a", ".a[]", ".a[0].b", ".m[\"k\"]", " .l[-1] "] {
        assert!(path_to_sql(path).is_ok());
        assert_eq!(alias_for_path(path).is_some(), path.contains('['));
    }
}

#[test]
fn aliases_are_tidy() {
    for (col, alias) in [("__a..b__", "a_b"), ("UNNEST(x).y z", "x_y_z"), ("__", ""), ("a", "a")] {
        assert_eq!(alias_safe(col), alias);
        assert_eq!(alias_safe(alias), alias);
    }
}

#[test]
fn command_lines_quote_their_words() {
    assert_eq!(
        write_command(&strings(&["pq", "-n", "5", "a b.parquet", "it's", ""])),
        "pq -n 5 'a b.parquet' 'it'\\''s' ''"
    );
}

#[test]
fn negative_fractions_keep_their_sign() {
    assert_eq!(format_fractional(-5), ".-00000005");
    assert_eq!(format_fractional(i64::MIN), ".-9223372036854775808");
    assert_eq!(format_fractional(500_000_000), ".5");
}

#[test]
fn panels_form_a_ring() {
    for p in [Panel::Columns, Panel::Query, Panel::Data] {
        assert_eq!(p.next().prev(), p);
        assert_eq!(p.next().next().next(), p);
    }
}

fn columns(names: &[&str]) -> Vec<ColumnInfo> {
    names
        .iter()
        .map(|n| ColumnInfo {
            name: n.to_string(),
            ty: "VARCHAR".to_string(),
            selected: false,
        })
        .collect()
}

fn preview(headers: &[&str], rows: &[&[&str]]) -> Preview {
    Preview {
        headers: strings(headers),
        rows: rows.iter().map(|r| strings(r)).collect(),
        sql: "SELECT 1".to_string(),
        last_ms: 2,
        error: None,
        explain: None,
    }
}

fn start(names: &[&str]) -> Session {
    Session::start(
        "f.parquet".to_string(),
        InputFormat::Parquet,
        50,
        vec![],
        columns(names),
        preview(&[], &[]),
        strings(&["where .old", "count"]),
    )
}

#[test]
fn drilling_down_can_be_undone() {
    let mut s = start(&["country"]);
    s.on_edit(Editor::of("group_by .country\n| count"), true);
    s.compile_due();
    s.preview_started("group_by .country\n| count".to_string());
    let acts = s.preview_arrived(preview(&["country", "count"], &[&["US", "3"], &["∅", "1"]]));
    assert_eq!(acts, vec![Action::SaveHistory]);
    assert!(s.columns[0].selected);
    s.focus = Panel::Data;
    s.on_key(Key::Enter, false);
    assert_eq!(
        s.flash,
        Some(Flash::Text(
            "drill-down: pick a row with ↑/↓ first".to_string()
        ))
    );
    s.on_key(Key::Down, false);
    let acts = s.on_key(Key::Enter, false);
    assert_eq!(
        acts,
        vec![
            Action::SetText("where .country == \"US\"".to_string()),
            Action::Schedule
        ]
    );
    assert_eq!(s.current_query_text(), "where .country == \"US\"");
    assert_eq!(s.data_row, None);
    s.on_key(Key::Backspace, false);
    assert_eq!(s.current_query_text(), "group_by .country\n| count");
    s.on_key(Key::Backspace, false);
    assert_eq!(s.flash, Some(Flash::Text("nothing to undo".to_string())));
}

#[test]
fn drilling_needs_groups() {
    let mut s = start(&["country"]);
    s.preview = preview(&["country"], &[&["US"]]);
    s.focus = Panel::Data;
    s.on_key(Key::Char('j'), false);
    assert!(s.on_key(Key::Enter, false).is_empty());
    assert_eq!(
        s.flash,
        Some(Flash::Text(
            "drill-down needs group_by — try `group_by .col | count`".to_string()
        ))
    );
}

#[test]
fn history_gives_the_draft_back() {
    let mut s = start(&["a"]);
    s.focus = Panel::Query;
    s.on_edit(Editor::of(".dra"), true);
    assert_eq!(
        s.on_key(Key::Up, true),
        vec![
            Action::SetText("where .old".to_string()),
            Action::Schedule
        ]
    );
    s.on_key(Key::Up, true);
    assert_eq!(s.current_query_text(), "count");
    assert!(s.on_key(Key::Up, true).is_empty());
    s.on_key(Key::Down, true);
    assert_eq!(s.current_query_text(), "where .old");
    assert_eq!(
        s.on_key(Key::Down, true),
        vec![
            Action::SetText(".dra".to_string()),
            Action::Schedule,
            Action::Forward
        ]
    );
    assert_eq!(s.current_query_text(), ".dra");
    assert_eq!(s.history_idx, None);
}

#[test]
fn keys_go_to_the_right_place() {
    let mut s = start(&["country", "city"]);
    s.on_key(Key::Char('?'), false);
    assert!(s.show_help);
    s.on_key(Key::Char('q'), false);
    assert!(!s.show_help && !s.should_quit);
    s.on_key(Key::Tab, false);
    assert_eq!(s.focus, Panel::Query);
    assert_eq!(s.on_key(Key::Char('.'), false), vec![Action::Forward]);
    s.on_edit(Editor::of(".c"), true);
    let c = s.completion.as_ref().unwrap();
    assert_eq!(c.candidates, vec!["city", "country"]);
    s.on_key(Key::Down, false);
    s.on_key(Key::Down, false);
    assert_eq!(
        s.on_key(Key::Tab, false),
        vec![
            Action::SetText(".country".to_string()),
            Action::Schedule
        ]
    );
    assert_eq!(s.focus, Panel::Query);
    assert_eq!(s.active_source(), Some("country".to_string()));
    s.on_key(Key::Esc, false);
    assert_eq!(s.focus, Panel::Columns);
    s.on_key(Key::Esc, false);
    assert!(s.should_quit && !s.print_cli_on_exit);
}

#[test]
fn interrupts_end_what_runs_first() {
    let mut s = start(&["a"]);
    s.preview_started("x".to_string());
    s.analyze_started();
    assert_eq!(
        s.on_key(Key::Char('c'), true),
        vec![Action::InterruptPreview]
    );
    assert_eq!(s.flash, Some(Flash::Interrupted));
    assert_eq!(s.on_key(Key::Esc, false), vec![Action::InterruptAnalyze]);
    assert!(!s.should_quit);
    s.on_key(Key::Char('c'), true);
    assert!(s.should_quit);
}

#[test]
fn edits_give_up_running_queries() {
    let mut s = start(&["a"]);
    s.preview_started("x".to_string());
    s.analyze_started();
    assert_eq!(
        s.on_edit(Editor::of("y"), true),
        vec![
            Action::Schedule,
            Action::InterruptAnalyze,
            Action::InterruptPreview
        ]
    );
    assert_eq!(
        s.compile_due(),
        vec![Action::StartPreview("y".to_string())]
    );
    assert!(s.compile_due().is_empty());
}

#[test]
fn columns_are_toggled_and_appended() {
    let mut s = start(&["a", "b"]);
    s.on_key(Key::Enter, false);
    assert_eq!(s.current_query_text(), ".a");
    s.on_key(Key::Char('j'), false);
    s.on_key(Key::Char(' '), false);
    assert_eq!(s.current_query_text(), ".a, .b");
    s.columns[1].selected = true;
    s.on_key(Key::Enter, false);
    assert_eq!(
        s.flash,
        Some(Flash::Text(".b already in projection".to_string()))
    );
    s.on_key(Key::Char(' '), false);
    assert_eq!(s.current_query_text(), ".a");
    s.editor = Editor::of("count");
    s.columns[1].selected = false;
    s.on_key(Key::Char(' '), false);
    assert_eq!(s.current_query_text(), ".b | count");
    assert!(s.on_key(Key::Char('E'), false).contains(&Action::StartAnalyze));
    s.on_key(Key::Char('Q'), false);
    assert!(s.should_quit && s.print_cli_on_exit);
}

#[test]
fn completion_can_be_accepted() {
    let e = Editor {
        lines: strings(&["where .x", "| .re , .y"]),
        row: 1,
        col: 5,
    };
    let c = compute_completion(&e, &columns(&["score", "Revenue", "region"])).unwrap();
    assert_eq!(c.candidates, vec!["Revenue", "region", "score"]);
    assert_eq!(
        pq::completion::complete(&e.text(), &c).unwrap(),
        "where .x\n| .Revenue , .y"
    );
}

#[test]
fn tables_are_laid_out() {
    let headers = strings(&["id", "a very long header that goes on and on and on"]);
    let rows = vec![strings(&["1", "x"]), strings(&["-22,000", "∅"])];
    let g = lay_out(
        &headers,
        &rows,
        Some(0),
        &Some("src".to_string()),
        &Lineage::new(),
    );
    assert_eq!(g.widths, vec![7, 40]);
    assert_eq!(g.numeric, vec![true, false]);
    assert_eq!(g.lit, vec![true, false]);
    assert_eq!(g.cells[0], vec!["      1", "x"]);
    assert_eq!(ellipsise("abcdef", 3), "ab…");
}

#[test]
fn measured_scans_are_merged_and_shown() {
    let plan = "TABLE_SCAN\n  Filters: a > 1\n  ~10 rows\n  2,000 rows\n  Total Files Read: 3";
    let measured = vec![Pruning {
        rows_scanned: 2_000,
        total: Some((10_000, 80)),
    }];
    let e = summarize(
        plan.to_string(),
        &Some(measured),
        "f.parquet",
        "where .a > 1",
        true,
    );
    assert_eq!(e.scans[0].file_total_rows, Some(10_000));
    assert!(e.suggestions[0].contains("estimate skewed 200×"));
    assert_eq!(row_totals(&e.scans), Some((10, 2_000)));
    let rows = explain_rows(&Some(e));
    assert_eq!(rows[0][2].text, "2.0k actual rows");
    assert_eq!(rows[0][2].style, SpanStyle::Measured);
    let pruned = rows
        .iter()
        .find(|r| r.len() == 2 && r[1].text.starts_with("● pruned"))
        .unwrap();
    assert_eq!(pruned[1].text, "● pruned: 80% (2.0k/10.0k rows)");
    assert_eq!(pruned[1].style, SpanStyle::Good);
    let (mut scans, _) = parse_explain("TABLE_SCAN");
    merge_pruning_metrics(&mut scans, &vec![]);
    assert_eq!(scans[0].rows_scanned, None);
    assert_eq!(scans_of_profile("no json"), None);
    assert_eq!(
        scans_of_profile(
            "{\"operator_name\":\"READ_PARQUET\",\"operator_cardinality\":3,\
             \"extra_info\":{\"Filename(s)\":\"x\"}}"
        ),
        Some(vec![(3, "x".to_string())])
    );
    let rows = explain_rows(&None);
    assert_eq!(rows[0][0].text, "(query failed — fix it to see the plan)");
    let e = summarize("RAW\r\nLINES\n".to_string(), &None, "f", ".a", false);
    let rows = explain_rows(&Some(e));
    assert_eq!(rows.len(), 3);
    assert_eq!(rows[1][0].text, "RAW");
}

#[test]
fn panels_say_what_they_show() {
    assert_eq!(split_lines("a\r\n\nb"), vec!["a", "", "b"]);
    assert_eq!(
        query_title(&Some("bad\nworse".to_string()), 3),
        " Query · ⚠ bad "
    );
    assert_eq!(query_title(&None, 3), " Query · 3 ms ");
    assert_eq!(
        mark_column("a", true, &Some("a".to_string())),
        ("★ ", true)
    );
    assert_eq!(mark_column("a", true, &None), ("✓ ", false));
    assert_eq!(
        highlight_pattern(&Some("a.b".to_string())),
        "\\.a\\.b\\b"
    );
    assert_eq!(highlight_pattern(&None), "");
    assert_eq!(
        status_text(&Some(Flash::Interrupted), true, "stopped"),
        "stopped"
    );
    assert!(status_text(&None, true, "").contains("⏎/Tab insert"));
    assert_eq!(popup_title("co", 9), " .co · 9 matches (showing 8) ");
    assert_eq!(
        split_candidate("myCountry", "co"),
        ("my".to_string(), "Co".to_string(), "untry".to_string())
    );
    let screen = Area {
        x: 0,
        y: 0,
        width: 80,
        height: 24,
    };
    let query = Area {
        x: 28,
        y: 0,
        width: 52,
        height: 6,
    };
    assert_eq!(
        popup_area(&strings(&["country"]), query, 0, 100_000, screen),
        Area {
            x: 64,
            y: 2,
            width: 16,
            height: 3
        }
    );
}
