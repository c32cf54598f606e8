//! Plans, profiles and the hints that they give.
use pq::explain::{extract_hive_keys, gen_suggestions, parse_explain, ScanInfo};
use pq::figures::{fmt_bytes, fmt_count};
use pq::profile::collect_json_parquet_scans;

/// The total time of a plan: the last of its times that is a number.
fn total_seconds(times: &[String]) -> Option<f64> {
    times.iter().rev().find_map(|t| t.parse::<f64>().ok())
}

#[test]
fn extract_hive_keys_basic() {
    assert_eq!(
        extract_hive_keys("data/dt=2026-05-01/region=us/x.parquet"),
        vec!["dt".to_string(), "region".to_string()]
    );
}

#[test]
fn extract_hive_keys_dedups_and_skips_non_hive() {
    assert!(extract_hive_keys("plain/path/file.parquet").is_empty());
    let out = extract_hive_keys("a/dt=1/b/dt=2/file");
    assert_eq!(out, vec!["dt".to_string()]);
}

#[test]
fn parse_explain_extracts_filters_and_projections() {
    let plan = "\
┌───────────────────────────┐
│       PARQUET_SCAN        │
│  ────────────────────     │
│ Filters: country='US'     │
│ Projections: country, age │
│ Estimated Cardinality: 248│
└───────────────────────────┘";
    let (scans, times) = parse_explain(plan);
    let total = total_seconds(&times);
    assert_eq!(scans.len(), 1);
    assert_eq!(scans[0].filters, vec!["country='US'"]);
    assert_eq!(
        scans[0].projections,
        vec!["country".to_string(), "age".to_string()]
    );
    assert_eq!(scans[0].estimated_rows, Some(248));
    assert_eq!(scans[0].actual_rows, None);
    assert_eq!(total, None);
}

#[test]
fn parse_explain_handles_multiple_scans_for_join() {
    let plan = "\
HASH_JOIN
  PARQUET_SCAN
    Filters: a > 10
  PARQUET_SCAN
    Projections: id, name";
    let (scans, _) = parse_explain(plan);
    assert_eq!(scans.len(), 2);
    assert_eq!(scans[0].filters, vec!["a > 10"]);
    assert!(scans[0].projections.is_empty());
    assert!(scans[1].filters.is_empty());
    assert_eq!(
        scans[1].projections,
        vec!["id".to_string(), "name".to_string()]
    );
}

#[test]
fn parse_explain_empty_for_no_scan_plan() {
    assert!(parse_explain("").0.is_empty());
    assert!(parse_explain("┌───┐\n│ DUMMY │\n└───┘").0.is_empty());
}

#[test]
fn parse_explain_handles_function_value_dedupe() {
    let plan = "\
┌───────────────────────────┐
│       PARQUET_SCAN        │
│  ────────────────────     │
│         Function:         │
│        READ_PARQUET       │
│                           │
│   Projections: country    │
│  Filters: country='US'    │
│         ~1 row            │
└───────────────────────────┘";
    let (scans, _) = parse_explain(plan);
    assert_eq!(scans.len(), 1, "expected one scan, got {:?}", scans);
    assert_eq!(scans[0].filters, vec!["country='US'"]);
    assert_eq!(scans[0].projections, vec!["country".to_string()]);
    assert_eq!(scans[0].estimated_rows, Some(1));
}

#[test]
fn parse_explain_handles_tilde_cardinality_with_commas() {
    let plan = "\
PARQUET_SCAN
  Projections: id
  ~12,481 rows";
    let (scans, _) = parse_explain(plan);
    assert_eq!(scans.len(), 1);
    assert_eq!(scans[0].estimated_rows, Some(12_481));
}

#[test]
fn parse_explain_analyze_extracts_actuals_and_total_time() {
    let plan = "\
Total Time: 0.0052s
EXPLAIN_ANALYZE
TABLE_SCAN
  Function:
  READ_PARQUET
  Projections: country
  Filters: country='US'
  Total Files Read: 1
  3 rows
  0.00s";
    let (scans, times) = parse_explain(plan);
    let total = total_seconds(&times);
    assert_eq!(scans.len(), 1, "expected one scan, got {:?}", scans);
    assert_eq!(scans[0].filters, vec!["country='US'"]);
    assert_eq!(scans[0].projections, vec!["country".to_string()]);
    assert_eq!(scans[0].actual_rows, Some(3));
    assert_eq!(scans[0].files_read, Some(1));
    assert_eq!(total, Some(0.0052));
}

#[test]
fn parse_explain_analyze_keeps_estimate_and_actual_separately() {
    let plan = "\
TABLE_SCAN
  Function:
  READ_PARQUET
  ~1 row
  248 rows";
    let (scans, _) = parse_explain(plan);
    assert_eq!(scans.len(), 1);
    assert_eq!(scans[0].estimated_rows, Some(1));
    assert_eq!(scans[0].actual_rows, Some(248));
}

#[test]
fn parse_explain_total_time_only_set_for_analyze() {
    let (_, times) = parse_explain("PARQUET_SCAN\n  ~1 row");
    let total = total_seconds(&times);
    assert_eq!(total, None);
}

#[test]
fn gen_suggestions_hive_partition_unfiltered() {
    let out = gen_suggestions(
        &[ScanInfo::default()],
        "data/dt=2026-05-01/region=us/x.parquet",
        ".email",
        false,
    );
    assert!(out.iter().any(|s| s.contains("`where .dt =")));
    assert!(out.iter().any(|s| s.contains("`where .region =")));
}

#[test]
fn gen_suggestions_hive_partition_satisfied_no_hint() {
    let out = gen_suggestions(
        &[ScanInfo::default()],
        "data/dt=2026-05-01/x.parquet",
        "where .dt == \"2026-05-01\"",
        false,
    );
    assert!(out.iter().all(|s| !s.contains("`where .dt =")));
}

#[test]
fn gen_suggestions_filter_did_not_push() {
    let out = gen_suggestions(&[ScanInfo::default()], "x.parquet", "where .a > 18", false);
    assert!(
        out.iter()
            .any(|s| s.contains("didn't push to the parquet scan")),
        "expected pushdown warning, got {:?}",
        out
    );
}

#[test]
fn gen_suggestions_no_projection_pushdown_on_bare_query() {
    let out = gen_suggestions(&[ScanInfo::default()], "x.parquet", "", false);
    assert!(
        out.iter().any(|s| s.contains("select specific columns")),
        "expected projection hint, got {:?}",
        out
    );
}

#[test]
fn gen_suggestions_stale_stats_only_when_analyzed() {
    let scan = ScanInfo {
        estimated_rows: Some(10),
        actual_rows: Some(1000),
        ..Default::default()
    };
    let out_plain = gen_suggestions(std::slice::from_ref(&scan), "x.parquet", ".x", false);
    assert!(
        out_plain.iter().all(|s| !s.contains("estimate skewed")),
        "plain EXPLAIN must not surface stale-stats hint"
    );
    let out_analyzed = gen_suggestions(&[scan], "x.parquet", ".x", true);
    assert!(
        out_analyzed.iter().any(|s| s.contains("estimate skewed")),
        "ANALYZE should fire stale-stats hint, got {:?}",
        out_analyzed
    );
}

#[test]
fn gen_suggestions_no_stale_stats_when_within_10x() {
    let scan = ScanInfo {
        estimated_rows: Some(100),
        actual_rows: Some(500),
        ..Default::default()
    };
    let out = gen_suggestions(&[scan], "x.parquet", ".x", true);
    assert!(out.iter().all(|s| !s.contains("estimate skewed")));
}

#[test]
fn gen_suggestions_many_files_no_predicate() {
    let scan = ScanInfo {
        files_read: Some(50),
        ..Default::default()
    };
    let out = gen_suggestions(&[scan], "data/x.parquet", ".col", true);
    assert!(
        out.iter()
            .any(|s| s.contains("scanned 50 files with no pushed predicate")),
        "expected many-files hint, got {:?}",
        out
    );
}

#[test]
fn gen_suggestions_zero_prune_with_filter_emits_hint() {
    let scan = ScanInfo {
        filters: vec!["country = 'US'".into()],
        pruned_percent: Some(0),
        rows_scanned: Some(10_000_000),
        file_total_rows: Some(10_000_000),
        ..Default::default()
    };
    let out = gen_suggestions(&[scan], "x.parquet", "where .country == \"US\"", true);
    assert!(
        out.iter()
            .any(|s| s.contains("didn't prune any row groups")),
        "expected zero-prune hint, got {out:?}"
    );
    assert!(
        out.iter().any(|s| s.contains("country = 'US'")),
        "hint should name the filter, got {out:?}"
    );
}

#[test]
fn gen_suggestions_zero_prune_without_filter_no_hint() {
    let scan = ScanInfo {
        filters: vec![],
        pruned_percent: Some(0),
        rows_scanned: Some(10_000_000),
        file_total_rows: Some(10_000_000),
        ..Default::default()
    };
    let out = gen_suggestions(&[scan], "x.parquet", "", true);
    assert!(
        out.iter()
            .all(|s| !s.contains("didn't prune any row groups")),
        "no-filter case must not emit zero-prune hint, got {out:?}"
    );
}

#[test]
fn gen_suggestions_zero_prune_below_size_threshold_no_hint() {
    let scan = ScanInfo {
        filters: vec!["country = 'US'".into()],
        pruned_percent: Some(0),
        rows_scanned: Some(50_000),
        file_total_rows: Some(50_000),
        ..Default::default()
    };
    let out = gen_suggestions(&[scan], "small.parquet", "where .country == \"US\"", true);
    assert!(
        out.iter()
            .all(|s| !s.contains("didn't prune any row groups")),
        "small-file case must not emit zero-prune hint, got {out:?}"
    );
}

#[test]
fn gen_suggestions_partial_prune_no_zero_hint() {
    let scan = ScanInfo {
        filters: vec!["country = 'US'".into()],
        pruned_percent: Some(50),
        rows_scanned: Some(5_000_000),
        file_total_rows: Some(10_000_000),
        ..Default::default()
    };
    let out = gen_suggestions(&[scan], "x.parquet", "where .country == \"US\"", true);
    assert!(
        out.iter()
            .all(|s| !s.contains("didn't prune any row groups")),
        "partial-prune must not emit zero-prune hint, got {out:?}"
    );
}

#[test]
fn gen_suggestions_zero_prune_only_when_analyzed() {
    let scan = ScanInfo {
        filters: vec!["country = 'US'".into()],
        pruned_percent: Some(0),
        rows_scanned: Some(10_000_000),
        file_total_rows: Some(10_000_000),
        ..Default::default()
    };
    let out = gen_suggestions(&[scan], "x.parquet", "where .country == \"US\"", false);
    assert!(
        out.iter()
            .all(|s| !s.contains("didn't prune any row groups")),
        "plain EXPLAIN must not surface pruning hint, got {out:?}"
    );
}

#[test]
fn fmt_count_formats_humanly() {
    assert_eq!(fmt_count(0), "0");
    assert_eq!(fmt_count(999), "999");
    assert_eq!(fmt_count(1_500), "1.5k");
    assert_eq!(fmt_count(2_400_000), "2.4M");
    assert_eq!(fmt_count(7_800_000_000), "7.8B");
}

#[test]
fn fmt_bytes_picks_right_unit() {
    assert_eq!(fmt_bytes(0), "0 B");
    assert_eq!(fmt_bytes(512), "512 B");
    assert_eq!(fmt_bytes(1024), "1 KB");
    assert_eq!(fmt_bytes(1500), "1.5 KB");
    assert_eq!(fmt_bytes(1024 * 1024), "1 MB");
    assert_eq!(fmt_bytes(1024 * 1024 * 1024), "1 GB");
    assert_eq!(fmt_bytes(1024u64 * 1024 * 1024 * 1024), "1 TB");
}

fn json(text: &str) -> serde_json::Value {
    serde_json::from_str(text).unwrap()
}

fn json_scan_node(scan_rows: u64, filename: &str) -> String {
    format!(
        r#"{{
            "operator_name": "READ_PARQUET",
            "operator_type": "TABLE_SCAN",
            "operator_cardinality": {},
            "operator_rows_scanned": {},
            "extra_info": {{
                "Function": "READ_PARQUET",
                "Filename(s)": "{}",
                "Total Files Read": "1"
            }},
            "children": []
        }}"#,
        scan_rows,
        scan_rows * 10,
        filename
    )
}

#[test]
fn collect_json_parquet_scans_single_node() {
    let profile = json(&format!(
        r#"{{"latency": 0.01, "children": [{}]}}"#,
        json_scan_node(2400, "/tmp/x.parquet")
    ));
    let scans = collect_json_parquet_scans(&profile);
    assert_eq!(scans, vec![(2400, "/tmp/x.parquet".to_string())]);
}

#[test]
fn collect_json_parquet_scans_handles_nested_children() {
    let profile = json(&format!(
        r#"{{
            "operator_name": "BATCH_CREATE_TABLE_AS",
            "children": [{{
                "operator_name": "PROJECTION",
                "children": [{}, {}]
            }}]
        }}"#,
        json_scan_node(7, "/tmp/a.parquet"),
        json_scan_node(11, "/tmp/b.parquet")
    ));
    let scans = collect_json_parquet_scans(&profile);
    assert_eq!(
        scans,
        vec![
            (7, "/tmp/a.parquet".to_string()),
            (11, "/tmp/b.parquet".to_string())
        ]
    );
}

#[test]
fn collect_json_parquet_scans_skips_missing_fields() {
    let profile = json(&format!(
        r#"{{
            "children": [
                {{
                    "operator_name": "READ_PARQUET",
                    "extra_info": {{"Filename(s)": "/tmp/no-rows.parquet"}},
                    "children": []
                }},
                {{
                    "operator_name": "READ_PARQUET",
                    "operator_cardinality": 5,
                    "extra_info": {{}},
                    "children": []
                }},
                {}
            ]
        }}"#,
        json_scan_node(42, "/tmp/good.parquet")
    ));
    let scans = collect_json_parquet_scans(&profile);
    assert_eq!(scans, vec![(42, "/tmp/good.parquet".to_string())]);
}

#[test]
fn collect_json_parquet_scans_glob_filename_passthrough() {
    let profile = json(&format!(
        r#"{{"children": [{}]}}"#,
        json_scan_node(30, "/tmp/parts/*.parquet")
    ));
    let scans = collect_json_parquet_scans(&profile);
    assert_eq!(scans, vec![(30, "/tmp/parts/*.parquet".to_string())]);
}

#[test]
fn collect_json_parquet_scans_ignores_non_parquet_operators() {
    let profile = json(
        r#"{
            "operator_name": "PROJECTION",
            "children": [
                {"operator_name": "FILTER", "children": []},
                {"operator_name": "EMPTY_RESULT", "children": []},
                {"operator_name": "BATCH_CREATE_TABLE_AS", "children": []}
            ]
        }"#,
    );
    let scans = collect_json_parquet_scans(&profile);
    assert!(
        scans.is_empty(),
        "non-parquet ops must not be collected: {scans:?}"
    );
}
