//! Edge cases: what is refused, and what is passed through.
use pq::commands::{
    effective_format, effective_limit, head_sql, http_setup, lite_banner, preview_rows,
    preview_sql, progress_frame, sample_sql, schema_sql, shows_progress, size_step, sizes_reach,
    tail_sql, udf_statement, watch_interval, SizeStep,
};
use pq::compile::{compile_plan, compile_plan_fmt};
use pq::output::{
    copy_sql, csv_lines, json_document, ndjson_lines, raw_lines, OutputFormat,
};
use pq::path::path_to_sql;
use pq::plan::{final_col_name, QueryPlan};
use pq::source::{
    resolve_input_format, source_clause, source_clause_fmt, spool_step, InputFormat, SpoolStep,
};
use pq::stage::{parse_stage, split_inline_where, split_pipe_stages};
use pq::value::{value_to_display, value_to_json, CellValue};

fn sql_of(q: &str) -> String {
    compile_plan("f.parquet", q, 0).unwrap().sql
}

fn complaint(q: &str) -> String {
    compile_plan("f.parquet", q, 0).unwrap_err()
}

#[test]
fn paths_are_refused_with_a_reason() {
    assert_eq!(path_to_sql("").unwrap_err(), "empty path");
    assert_eq!(
        path_to_sql(".").unwrap_err(),
        "expected an identifier at offset 1, got None"
    );
    assert_eq!(
        path_to_sql(".a.[0]").unwrap_err(),
        "expected an identifier at offset 3, got Some('[')"
    );
    assert_eq!(
        path_to_sql(".a['é'].-").unwrap_err(),
        "expected an identifier at offset 9, got Some('-')"
    );
    assert_eq!(
        path_to_sql(".a.\n").unwrap_err(),
        "expected an identifier at offset 3, got None"
    );
    assert_eq!(
        path_to_sql(".a.\tb").unwrap_err(),
        "expected an identifier at offset 3, got Some('\\t')"
    );
    assert_eq!(
        path_to_sql(".a.'").unwrap_err(),
        "expected an identifier at offset 3, got Some('\\'')"
    );
    assert_eq!(
        path_to_sql(".a.\u{1}").unwrap_err(),
        "expected an identifier at offset 3, got Some('\\u{1}')"
    );
    assert_eq!(
        path_to_sql(".a.é").unwrap_err(),
        "expected an identifier at offset 3, got Some('Ã')"
    );
    assert_eq!(path_to_sql(".a[0").unwrap_err(), "unterminated '[' in path");
    assert_eq!(
        path_to_sql(".a[x]").unwrap_err(),
        "can't parse bracket subscript [x]"
    );
    assert_eq!(
        path_to_sql(".a[\"]").unwrap_err(),
        "can't parse bracket subscript [\"]"
    );
    assert_eq!(
        path_to_sql(".a[9223372036854775807]").unwrap_err(),
        "can't parse bracket subscript [9223372036854775807]"
    );
    assert_eq!(
        path_to_sql(".a b").unwrap_err(),
        "unexpected character ' ' in path '.a b'"
    );
}

#[test]
fn paths_at_the_limits() {
    assert_eq!(path_to_sql("plain").unwrap(), "plain");
    assert_eq!(path_to_sql("  .a.b  ").unwrap(), "a.b");
    assert_eq!(
        path_to_sql(".a[-9223372036854775808]").unwrap(),
        "a[-9223372036854775808]"
    );
    assert_eq!(
        sql_of(".a[-9223372036854775808]"),
        "SELECT a[-9223372036854775808] AS a_neg9223372036854775808 FROM read_parquet('f.parquet')"
    );
    assert_eq!(path_to_sql(".a[+3]").unwrap(), "a[4]");
    assert_eq!(
        path_to_sql(".a['é']").unwrap(),
        "element_at(a, 'é')[1]"
    );
}

#[test]
fn stages_are_refused_with_a_reason() {
    assert_eq!(complaint("group_by"), "empty projection");
    assert_eq!(complaint("group_by ,"), "could not parse projection: ,");
    assert_eq!(
        complaint(".a[x]"),
        "invalid path '.a[x]': can't parse bracket subscript [x]"
    );
    assert_eq!(
        complaint("sum"),
        "`sum` requires a column (e.g. `sum .revenue`)"
    );
    assert_eq!(
        complaint("count_distinct "),
        "`count_distinct` requires a column (e.g. `count_distinct .revenue`)"
    );
    assert_eq!(
        complaint("top 5"),
        "`top` needs `by COL`: `top N by .col`"
    );
    assert_eq!(
        complaint("top x by .a"),
        "`top` needs an integer, got `x`"
    );
    assert_eq!(
        complaint("limit -x"),
        "`limit/head` needs a non-negative integer (e.g. `head 5` or `limit 5`), got `-x`"
    );
    assert_eq!(
        complaint("join \"b\""),
        "`INNER JOIN ...` needs `on .col`: `INNER JOIN \"file.parquet\" on .user_id`"
    );
    assert_eq!(
        complaint("left_join '' on .id"),
        "`join` needs a quoted file path"
    );
    assert_eq!(
        complaint("join \"b\" on ."),
        "`join` needs a column name after `on`"
    );
    assert_eq!(
        complaint("join \"b\" on .id | join \"c\" on .id"),
        "multiple joins are not supported yet; fall back to raw SQL via SELECT/WITH for chained joins"
    );
    let mut plan = QueryPlan::new("src".to_string());
    assert_eq!(parse_stage("   ", &mut plan).unwrap_err(), "empty stage");
}

#[test]
fn refused_stage_leaves_the_plan_alone() {
    let mut plan = QueryPlan::new("src".to_string());
    parse_stage("where .a > 1", &mut plan).unwrap();
    let before = plan.to_sql();
    assert!(parse_stage("sum .a, avg", &mut plan).is_err());
    assert!(parse_stage(".b, .c[x]", &mut plan).is_err());
    assert!(parse_stage("top 3", &mut plan).is_err());
    assert_eq!(plan.to_sql(), before);
}

#[test]
fn keywords_take_any_white_space_and_case() {
    assert_eq!(
        sql_of("GROUP_BY\t.a | Count"),
        "SELECT a, count(*) AS count FROM read_parquet('f.parquet') GROUP BY a"
    );
    assert_eq!(
        sql_of("where\n.a > 1"),
        "SELECT * FROM read_parquet('f.parquet') WHERE a > 1"
    );
    assert_eq!(
        sql_of("whereabouts == 1"),
        "SELECT * FROM read_parquet('f.parquet') WHERE whereabouts = 1"
    );
}

#[test]
fn aggregates_come_in_lists() {
    let listed = sql_of("group_by .country | count, avg .revenue, max .revenue");
    let piped = sql_of("group_by .country | count | avg .revenue | max .revenue");
    assert_eq!(
        listed,
        "SELECT country, count(*) AS count, avg(revenue) AS avg_revenue, max(revenue) AS max_revenue \
         FROM read_parquet('f.parquet') GROUP BY country"
    );
    assert_eq!(listed, piped);
    assert_eq!(
        complaint("count, sum"),
        "`sum` requires a column (e.g. `sum .revenue`)"
    );
}

#[test]
fn having_filters_groups() {
    assert_eq!(
        sql_of("group_by .c | sum .rev | having sum_rev > 10"),
        "SELECT c, sum(rev) AS sum_rev FROM read_parquet('f.parquet') GROUP BY c HAVING sum_rev > 10"
    );
}

#[test]
fn star_takes_all_columns() {
    assert_eq!(
        sql_of(".* where .x is not null | head 50"),
        "SELECT * FROM read_parquet('f.parquet') WHERE x is not null LIMIT 50"
    );
}

#[test]
fn grouping_by_list_elements_explodes_once() {
    assert_eq!(
        sql_of("group_by .tags[] | count | where .tags[] == \"x\""),
        "SELECT _pq_u0 AS tags, count(*) AS count FROM (SELECT *, UNNEST(tags) AS _pq_u0 \
         FROM read_parquet('f.parquet')) AS _pq_src GROUP BY _pq_u0 HAVING _pq_u0 = 'x'"
    );
    assert_eq!(
        sql_of("sort by .a[].b | sum .c[].d"),
        "SELECT sum(_pq_u0.d) AS sum_c_d FROM (SELECT *, UNNEST(c) AS _pq_u0, UNNEST(a) AS _pq_u1 \
         FROM read_parquet('f.parquet')) AS _pq_src ORDER BY _pq_u1.b ASC"
    );
}

#[test]
fn text_of_any_script_passes_through() {
    assert_eq!(
        sql_of("where .país == \"Perú\" and .x[].y != 'ß'"),
        "SELECT * FROM (SELECT *, UNNEST(x) AS _pq_u0 FROM read_parquet('f.parquet')) AS _pq_src \
         WHERE país = 'Perú' and _pq_u0.y <> 'ß'"
    );
}

#[test]
fn raw_sql_passes_through() {
    let out = compile_plan("f.parquet", "  PRAGMA database_size", 5).unwrap();
    assert_eq!(out.sql, "PRAGMA database_size");
    assert!(!out.raw_lines);
    assert_eq!(
        sql_of("with t as (select * from FILE) select * from t, FILE"),
        "with t as (select * from read_parquet('f.parquet')) select * from t, read_parquet('f.parquet')"
    );
}

#[test]
fn to_csv_without_columns_says_so() {
    assert!(sql_of("to_csv").contains("to_csv requires an explicit projection"));
}

#[test]
fn column_names_and_quotes() {
    assert_eq!(final_col_name("a.email"), "email");
    assert_eq!(final_col_name("lower(x) As y"), "y");
    assert_eq!(
        split_pipe_stages("a | 'x|y' | \"p|q\" ||  b "),
        vec!["a", "'x|y'", "\"p|q\"", "b"]
    );
    assert_eq!(
        split_inline_where(".a, ' where ' where .b"),
        Some((".a, ' where '".to_string(), ".b".to_string()))
    );
    assert_eq!(split_inline_where(".a where "), None);
}

#[test]
fn sources_of_all_formats() {
    assert_eq!(source_clause(" - "), "read_parquet('/dev/stdin')");
    assert_eq!(
        source_clause_fmt("a'b.csv", InputFormat::Csv),
        "read_csv_auto('a''b.csv')"
    );
    assert_eq!(
        source_clause_fmt("x.ndjson", InputFormat::Ndjson),
        "read_json('x.ndjson', format='newline_delimited', auto_detect=true)"
    );
    assert_eq!(
        source_clause("d/dt=1/x.parquet"),
        "read_parquet('d/dt=1/x.parquet', hive_partitioning=true)"
    );
    assert_eq!(source_clause("d/=1/x"), "read_parquet('d/=1/x')");
    let out = compile_plan_fmt("x.csv", "", 7, InputFormat::Csv).unwrap();
    assert_eq!(out.sql, "SELECT * FROM read_csv_auto('x.csv') LIMIT 7");
}

#[test]
fn input_formats_are_resolved() {
    assert_eq!(
        resolve_input_format("auto", "-").unwrap(),
        InputFormat::Parquet
    );
    assert_eq!(
        resolve_input_format("auto", "a.JSONL").unwrap(),
        InputFormat::Ndjson
    );
    assert_eq!(
        resolve_input_format("tsv", "a.parquet").unwrap(),
        InputFormat::Csv
    );
    assert_eq!(
        resolve_input_format("xml", "-").unwrap_err(),
        "unknown --input format 'xml': expected auto|parquet|ndjson|csv"
    );
}

#[test]
fn standard_input_is_spooled() {
    assert_eq!(
        spool_step("-", InputFormat::Parquet, true),
        SpoolStep::Read("/dev/stdin".to_string())
    );
    assert_eq!(
        spool_step("-", InputFormat::Parquet, false),
        SpoolStep::Spool(".parquet".to_string())
    );
    assert_eq!(
        spool_step("-", InputFormat::Ndjson, true),
        SpoolStep::Spool(".ndjson".to_string())
    );
    assert_eq!(
        spool_step("-", InputFormat::Csv, true),
        SpoolStep::Spool(".csv".to_string())
    );
}

#[test]
fn values_are_shown() {
    assert_eq!(value_to_display(&CellValue::Null), "∅");
    assert_eq!(value_to_display(&CellValue::Boolean(true)), "true");
    assert_eq!(
        value_to_display(&CellValue::HugeInt(i128::MIN)),
        "-170141183460469231731687303715884105728"
    );
    assert_eq!(
        value_to_display(&CellValue::UBigInt(u64::MAX)),
        "18446744073709551615"
    );
    assert_eq!(
        value_to_display(&CellValue::Blob(vec![1, 2, 3])),
        "<blob 3 bytes>"
    );
    assert_eq!(value_to_display(&CellValue::Enum("a".to_string())), "\"a\"");
    assert_eq!(
        value_to_display(&CellValue::Union(Box::new(CellValue::Int(-4)))),
        "-4"
    );
    assert_eq!(
        value_to_json(&CellValue::HugeInt(5)),
        serde_json::Value::String("5".to_string())
    );
    assert_eq!(value_to_json(&CellValue::Boolean(false)), serde_json::Value::Bool(false));
    assert_eq!(
        value_to_json(&CellValue::UBigInt(u64::MAX)),
        serde_json::Value::from(u64::MAX)
    );
    assert_eq!(
        value_to_json(&CellValue::Float("NaN".to_string(), None)),
        serde_json::Value::Null
    );
    assert_eq!(
        value_to_json(&CellValue::Mapping(vec![
            (CellValue::Int(1), CellValue::Int(2)),
            (CellValue::Int(1), CellValue::Int(3)),
        ]))
        .to_string(),
        "{\"1\":3}"
    );
}

#[test]
fn results_are_written() {
    let cols = vec!["b".to_string(), "a".to_string(), "b".to_string()];
    let rows = vec![
        vec![
            CellValue::Int(1),
            CellValue::Text("x,\"y\"".to_string()),
            CellValue::Null,
        ],
        vec![CellValue::Text("l1\nl2".to_string())],
        vec![],
    ];
    assert_eq!(
        csv_lines(&cols, &rows),
        vec!["b,a,b", "1,\"x,\"\"y\"\"\",∅", "\"l1\nl2\"", ""]
    );
    assert_eq!(
        ndjson_lines(&cols, &rows),
        vec![
            "{\"b\":null,\"a\":\"x,\\\"y\\\"\"}",
            "{\"b\":null,\"a\":null}",
            "{\"b\":null,\"a\":null}",
        ]
    );
    assert_eq!(
        json_document(&vec!["k".to_string()], &vec![vec![CellValue::BigInt(-7)]]),
        "[\n  {\n    \"k\": -7\n  }\n]"
    );
    assert_eq!(raw_lines(&rows), vec!["1", "l1\nl2", ""]);
    assert_eq!(
        raw_lines(&vec![vec![CellValue::Null]]),
        vec![String::new()]
    );
    assert_eq!(
        copy_sql("SELECT 1", "/tmp/a'b"),
        "COPY (SELECT 1) TO '/tmp/a''b' (FORMAT PARQUET)"
    );
}

#[test]
fn output_formats_are_resolved() {
    assert_eq!(OutputFormat::resolve("json", true), OutputFormat::Json);
    assert_eq!(OutputFormat::resolve("parquet", true), OutputFormat::Parquet);
    assert_eq!(OutputFormat::resolve("auto", true), OutputFormat::Table);
    assert_eq!(OutputFormat::resolve("auto", false), OutputFormat::Ndjson);
    assert_eq!(OutputFormat::resolve("what", false), OutputFormat::Ndjson);
    assert_eq!(effective_limit(OutputFormat::Parquet, 20), 0);
    assert_eq!(effective_limit(OutputFormat::Csv, 20), 20);
    assert_eq!(
        effective_format(true, OutputFormat::Table),
        OutputFormat::RawLines
    );
    assert_eq!(
        effective_format(false, OutputFormat::Table),
        OutputFormat::Table
    );
}

#[test]
fn commands_make_sql() {
    assert_eq!(
        udf_statement(" is_us(c) := c = 'US' "),
        "CREATE OR REPLACE MACRO is_us(c) AS c = 'US'"
    );
    assert_eq!(
        udf_statement("f(x) AS x + 1"),
        "CREATE OR REPLACE MACRO f(x) AS x + 1"
    );
    assert_eq!(
        udf_statement("Create macro f(x) := 1"),
        "Create macro f(x) := 1"
    );
    assert_eq!(head_sql("s", 3), "SELECT * FROM s LIMIT 3");
    assert_eq!(sample_sql("s", 3), "SELECT * FROM s USING SAMPLE 3 ROWS");
    assert_eq!(
        tail_sql("s", 3),
        "WITH t AS (SELECT *, row_number() OVER () AS __rn FROM s) SELECT * EXCLUDE (__rn) FROM t \
         ORDER BY __rn DESC LIMIT 3"
    );
    assert_eq!(
        schema_sql("s"),
        "SELECT column_name, column_type, \"null\" AS nullable FROM (DESCRIBE SELECT * FROM s)"
    );
    assert_eq!(
        preview_sql("SELECT 1", 50),
        "SELECT * FROM (SELECT 1) AS __pq_tui_preview LIMIT 50"
    );
    assert_eq!(
        http_setup(&Some("60000".to_string())),
        "SET http_keep_alive=true; SET http_timeout=60000;"
    );
    assert_eq!(
        http_setup(&Some("soon".to_string())),
        "SET http_keep_alive=true; SET http_timeout=15000;"
    );
    assert_eq!(preview_rows(0), 1);
    assert_eq!(watch_interval(5), Ok(5));
    assert_eq!(
        watch_interval(0),
        Err("--watch interval must be > 0".to_string())
    );
}

#[test]
fn file_sizes_are_measured() {
    assert_eq!(
        size_step("data/dt=*/x.parquet"),
        SizeStep::Matches {
            dir: "data/".to_string(),
            pattern: "dt=*/x.parquet".to_string(),
        }
    );
    assert_eq!(
        size_step("*.parquet"),
        SizeStep::Matches {
            dir: ".".to_string(),
            pattern: "*.parquet".to_string(),
        }
    );
    assert_eq!(size_step("x.parquet"), SizeStep::File);
    assert!(!sizes_reach(&vec![], 0));
    assert!(!sizes_reach(&vec![None, None], 0));
    assert!(sizes_reach(&vec![None, Some(u64::MAX), Some(u64::MAX)], u64::MAX));
    let mut many: Vec<Option<u64>> = vec![Some(1); 64];
    many.push(Some(1_000));
    assert!(sizes_reach(&many, 64));
    assert!(!sizes_reach(&many, 65));
    assert_eq!(
        lite_banner(InputFormat::Parquet, false, true, 1 << 30, "row count").unwrap(),
        "pq: lite mode (file >= 1 GB; reading row count from parquet footer)"
    );
    assert_eq!(
        lite_banner(InputFormat::Parquet, true, true, 1 << 30, "row count"),
        None
    );
}

#[test]
fn maybe_start_returns_none_when_disabled() {
    assert!(!shows_progress(true, false, true));
}

#[test]
fn maybe_start_returns_none_when_stderr_is_not_tty() {
    assert!(!shows_progress(false, false, false));
}

#[test]
fn maybe_start_respects_env_opt_out() {
    assert!(!shows_progress(false, true, true));
    assert!(shows_progress(false, false, true));
    assert_eq!(progress_frame(0), '⠋');
    assert_eq!(progress_frame(19), '⠏');
}
