//! Values, output formats, sources, credentials and the SQL of commands.
use pq::calendar::{date32_to_iso, time_to_iso, timestamp_to_iso, TimeUnit};
use pq::commands::{count_sql, lite_threshold, size_step, sizes_reach, stats_sql, SizeStep};
use pq::output::value_to_csv;
use pq::source::{spool_step, InputFormat, SpoolStep};
use pq::sql::sql_escape;
use pq::value::{value_to_display, value_to_json, CellValue};

fn text(s: &str) -> CellValue {
    CellValue::Text(s.to_string())
}

fn double(f: f64) -> CellValue {
    CellValue::Double(f.to_string(), serde_json::Number::from_f64(f))
}

fn json(s: &str) -> serde_json::Value {
    serde_json::from_str(s).unwrap()
}

#[test]
fn date32_unix_epoch_zero() {
    assert_eq!(date32_to_iso(0), "1970-01-01");
}

#[test]
fn timestamp_micros_renders_iso() {
    let micros = 1_767_286_800_i64 * 1_000_000;
    assert_eq!(
        timestamp_to_iso(TimeUnit::Microsecond, micros),
        "2026-01-01T17:00:00"
    );
}

#[test]
fn timestamp_with_subsecond_strips_trailing_zeros() {
    assert_eq!(
        timestamp_to_iso(TimeUnit::Millisecond, 123),
        "1970-01-01T00:00:00.123"
    );
    assert_eq!(
        timestamp_to_iso(TimeUnit::Nanosecond, 123_456_789),
        "1970-01-01T00:00:00.123456789"
    );
}

#[test]
fn timestamp_pre_epoch_handles_borrow_correctly() {
    assert_eq!(
        timestamp_to_iso(TimeUnit::Second, -1),
        "1969-12-31T23:59:59"
    );
}

#[test]
fn time_renders_iso_no_date() {
    let micros = 52_200_i64 * 1_000_000;
    assert_eq!(time_to_iso(TimeUnit::Microsecond, micros), "14:30:00");
}

#[test]
fn date32_known_values() {
    assert_eq!(date32_to_iso(20_592), "2026-05-19");
    assert_eq!(date32_to_iso(19_358), "2023-01-01");
    assert_eq!(date32_to_iso(-1), "1969-12-31");
}

#[test]
fn list_renders_as_json_array() {
    let v = CellValue::List(vec![text("a"), text("b"), CellValue::Null]);
    assert_eq!(value_to_json(&v), json(r#"["a", "b", null]"#));
    assert_eq!(value_to_display(&v), r#"["a","b",null]"#);
}

#[test]
fn struct_preserves_field_order() {
    let v = CellValue::Struct(vec![
        ("name".to_string(), text("alice")),
        ("country".to_string(), text("US")),
        ("age".to_string(), CellValue::Int(30)),
    ]);
    let s = serde_json::to_string(&value_to_json(&v)).unwrap();
    assert_eq!(s, r#"{"name":"alice","country":"US","age":30}"#);
}

#[test]
fn map_renders_as_json_object_with_string_keys() {
    let v = CellValue::Mapping(vec![
        (text("plan"), text("pro")),
        (text("seat"), text("3")),
    ]);
    assert_eq!(value_to_json(&v), json(r#"{"plan":"pro","seat":"3"}"#));
}

#[test]
fn list_of_struct_round_trips() {
    let row1 = CellValue::Struct(vec![
        ("kind".to_string(), text("click")),
        ("amount".to_string(), double(1.0)),
    ]);
    let row2 = CellValue::Struct(vec![
        ("kind".to_string(), text("buy")),
        ("amount".to_string(), double(9.0)),
    ]);
    let v = CellValue::List(vec![row1, row2]);
    assert_eq!(
        value_to_json(&v),
        json(r#"[{"kind":"click","amount":1.0},{"kind":"buy","amount":9.0}]"#)
    );
}

#[test]
fn empty_collections_serialize_correctly() {
    assert_eq!(value_to_json(&CellValue::List(vec![])), json("[]"));
    assert_eq!(value_to_json(&CellValue::Struct(vec![])), json("{}"));
    assert_eq!(value_to_json(&CellValue::Mapping(vec![])), json("{}"));
}

#[test]
fn nested_value_csv_quotes_when_needed() {
    let v = CellValue::List(vec![text("a,b"), text("c")]);
    let cell = value_to_csv(&v);
    assert!(
        cell.starts_with('"') && cell.ends_with('"'),
        "got: {}",
        cell
    );
}

#[test]
fn sql_escape_doubles_single_quotes() {
    assert_eq!(sql_escape("alice's"), "alice''s");
    assert_eq!(sql_escape("plain"), "plain");
    assert_eq!(sql_escape(""), "");
    assert_eq!(sql_escape("a''b"), "a''''b");
}

#[test]
fn input_format_flag_parsing() {
    assert_eq!(InputFormat::from_flag("auto").unwrap(), None);
    assert_eq!(
        InputFormat::from_flag("parquet").unwrap(),
        Some(InputFormat::Parquet)
    );
    assert_eq!(
        InputFormat::from_flag("ndjson").unwrap(),
        Some(InputFormat::Ndjson)
    );
    assert_eq!(
        InputFormat::from_flag("jsonl").unwrap(),
        Some(InputFormat::Ndjson)
    );
    assert_eq!(
        InputFormat::from_flag("csv").unwrap(),
        Some(InputFormat::Csv)
    );
    assert!(InputFormat::from_flag("xml").is_err());
}

#[test]
fn input_format_extension_sniff() {
    assert_eq!(
        InputFormat::from_extension("data.parquet"),
        InputFormat::Parquet
    );
    assert_eq!(
        InputFormat::from_extension("data.ndjson"),
        InputFormat::Ndjson
    );
    assert_eq!(
        InputFormat::from_extension("data.jsonl"),
        InputFormat::Ndjson
    );
    assert_eq!(
        InputFormat::from_extension("data.json"),
        InputFormat::Ndjson
    );
    assert_eq!(InputFormat::from_extension("data.csv"), InputFormat::Csv);
    assert_eq!(InputFormat::from_extension("data.tsv"), InputFormat::Csv);
    assert_eq!(InputFormat::from_extension("data"), InputFormat::Parquet);
    assert_eq!(
        InputFormat::from_extension("data.xyz"),
        InputFormat::Parquet
    );
}

#[test]
fn spool_passes_through_non_stdin() {
    for seekable in [false, true] {
        assert_eq!(
            spool_step("foo.parquet", InputFormat::Parquet, seekable),
            SpoolStep::Read("foo.parquet".to_string())
        );
    }
}

#[test]
fn lite_threshold_default_is_one_gb() {
    assert_eq!(lite_threshold(&None), 1024 * 1024 * 1024);
}

#[test]
fn lite_threshold_honors_override() {
    assert_eq!(lite_threshold(&Some("2048".to_string())), 2048);
}

#[test]
fn auto_lite_skips_remote_paths() {
    assert_eq!(size_step("gs://bucket/big.parquet"), SizeStep::Skip);
    assert_eq!(size_step("s3://b/x.parquet"), SizeStep::Skip);
    assert_eq!(size_step("https://example.com/x.parquet"), SizeStep::Skip);
}

#[test]
fn auto_lite_below_threshold_returns_false() {
    assert!(!sizes_reach(&vec![Some(5)], 1024 * 1024 * 1024));
}

#[test]
fn auto_lite_above_threshold_returns_true() {
    assert!(sizes_reach(&vec![Some(5)], 1));
}

#[test]
fn count_sql_lite_uses_metadata_function_for_parquet() {
    let sql = count_sql(
        "/tmp/x.parquet",
        InputFormat::Parquet,
        true,
        "read_parquet('/tmp/x.parquet')",
    );
    assert!(
        sql.contains("parquet_file_metadata"),
        "lite forced should pick metadata path; got: {sql}"
    );
}

#[test]
fn count_sql_falls_back_to_count_star_for_ndjson_even_when_lite() {
    let sql = count_sql(
        "/tmp/x.ndjson",
        InputFormat::Ndjson,
        true,
        "read_json('/tmp/x.ndjson', format='newline_delimited')",
    );
    assert!(
        sql.contains("count(*)"),
        "non-parquet lite should fall back to count(*); got: {sql}"
    );
}

#[test]
fn count_sql_default_path_uses_count_star() {
    let sql = count_sql(
        "/nonexistent.parquet",
        InputFormat::Parquet,
        false,
        "read_parquet('/nonexistent.parquet')",
    );
    assert!(
        sql.contains("count(*)"),
        "default count path should be count(*); got: {sql}"
    );
}

#[test]
fn stats_sql_lite_uses_parquet_metadata_for_parquet() {
    let sql = stats_sql(
        "/tmp/x.parquet",
        InputFormat::Parquet,
        true,
        "read_parquet('/tmp/x.parquet')",
    );
    assert!(
        sql.contains("parquet_metadata"),
        "lite forced should pick metadata path; got: {sql}"
    );
    assert!(
        !sql.contains("SUMMARIZE"),
        "lite forced should NOT use SUMMARIZE; got: {sql}"
    );
}

#[test]
fn stats_sql_lite_orders_columns_by_schema_position() {
    let sql = stats_sql(
        "/tmp/x.parquet",
        InputFormat::Parquet,
        true,
        "read_parquet('/tmp/x.parquet')",
    );
    assert!(
        sql.contains("ORDER BY min(row_group_id), min(column_id)"),
        "lite SQL should preserve schema order; got: {sql}"
    );
}

#[test]
fn stats_sql_falls_back_to_summarize_for_ndjson() {
    let sql = stats_sql(
        "/tmp/x.ndjson",
        InputFormat::Ndjson,
        true,
        "read_json('/tmp/x.ndjson', format='newline_delimited')",
    );
    assert!(
        sql.contains("SUMMARIZE"),
        "non-parquet lite should fall back to SUMMARIZE; got: {sql}"
    );
}

#[test]
fn stats_sql_default_path_uses_summarize() {
    let sql = stats_sql(
        "/nonexistent.parquet",
        InputFormat::Parquet,
        false,
        "read_parquet('/nonexistent.parquet')",
    );
    assert!(
        sql.contains("SUMMARIZE"),
        "default stats path should be SUMMARIZE; got: {sql}"
    );
}
