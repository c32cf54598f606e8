//! Queries and the SQL that they compile to.
use pq::compile::compile_plan;
use pq::path::{alias_for_path, path_function_alias, path_to_sql, rewrite_path_function};
use pq::plan::strip_as_alias;

fn sql_of(file: &str, q: &str, n: usize) -> String {
    compile_plan(file, q, n).unwrap().sql
}

#[test]
fn empty_query_default_head() {
    let s = sql_of("a.parquet", "", 20);
    assert!(s.contains("SELECT * FROM read_parquet('a.parquet')"));
    assert!(s.ends_with("LIMIT 20"));
}

#[test]
fn projection_simple() {
    assert_eq!(
        sql_of("f.parquet", ".email", 20),
        "SELECT email FROM read_parquet('f.parquet')"
    );
}

#[test]
fn projection_multiple() {
    assert_eq!(
        sql_of("f.parquet", ".a, .b, .c", 20),
        "SELECT a, b, c FROM read_parquet('f.parquet')"
    );
}

#[test]
fn projection_nested() {
    assert_eq!(
        sql_of("f.parquet", ".user.id", 20),
        "SELECT user.id FROM read_parquet('f.parquet')"
    );
}

#[test]
fn filter_only() {
    assert_eq!(
        sql_of("f.parquet", "country == \"US\"", 20),
        "SELECT * FROM read_parquet('f.parquet') WHERE country = 'US'"
    );
}

#[test]
fn projection_and_filter() {
    assert_eq!(
        sql_of("f.parquet", ".email where .country == \"US\"", 20),
        "SELECT email FROM read_parquet('f.parquet') WHERE country = 'US'"
    );
}

#[test]
fn ne_operator_rewrites_to_sql() {
    assert_eq!(
        sql_of("f.parquet", ".email where .country != \"US\"", 20),
        "SELECT email FROM read_parquet('f.parquet') WHERE country <> 'US'"
    );
}

#[test]
fn single_quoted_strings_pass_through() {
    assert_eq!(
        sql_of("f.parquet", "country = 'US'", 20),
        "SELECT * FROM read_parquet('f.parquet') WHERE country = 'US'"
    );
}

#[test]
fn apostrophe_inside_jq_string_gets_escaped() {
    assert_eq!(
        sql_of("f.parquet", "name == \"O'Brien\"", 20),
        "SELECT * FROM read_parquet('f.parquet') WHERE name = 'O''Brien'"
    );
}

#[test]
fn qualified_column_dot_preserved() {
    assert_eq!(
        sql_of("f.parquet", "u.country == \"US\"", 20),
        "SELECT * FROM read_parquet('f.parquet') WHERE u.country = 'US'"
    );
}

#[test]
fn cloud_path() {
    assert!(sql_of("gs://bucket/file.parquet", "", 20)
        .contains("read_parquet('gs://bucket/file.parquet')"));
}

#[test]
fn raw_sql_passthrough() {
    let s = sql_of("ignored.parquet", "SELECT count(*) FROM FILE", 20);
    assert!(s.contains("read_parquet('ignored.parquet')"));
    assert!(s.contains("count(*)"));
}

#[test]
fn count_shortcut() {
    let s = sql_of("f.parquet", "count", 20);
    assert!(s.contains("count(*) AS count"));
    assert!(s.contains("read_parquet('f.parquet')"));
}

#[test]
fn group_by_count() {
    assert_eq!(
        sql_of("f.parquet", "group_by .country | count", 20),
        "SELECT country, count(*) AS count FROM read_parquet('f.parquet') GROUP BY country"
    );
}

#[test]
fn group_by_count_legacy_two_word_keyword() {
    assert_eq!(
        sql_of("f.parquet", "group by .country | count", 20),
        "SELECT country, count(*) AS count FROM read_parquet('f.parquet') GROUP BY country"
    );
}

#[test]
fn group_by_sum_top_n() {
    assert_eq!(
        sql_of(
            "f.parquet",
            "group_by .country | sum .revenue | top 10 by sum_revenue",
            20
        ),
        "SELECT country, sum(revenue) AS sum_revenue FROM read_parquet('f.parquet') \
         GROUP BY country ORDER BY sum_revenue DESC LIMIT 10"
    );
}

#[test]
fn where_before_group_is_filter_after_is_having() {
    assert_eq!(
        sql_of(
            "f.parquet",
            "where .age > 18 | group_by .country | count | where count > 100",
            20
        ),
        "SELECT country, count(*) AS count FROM read_parquet('f.parquet') \
         WHERE age > 18 GROUP BY country HAVING count > 100"
    );
}

#[test]
fn multi_group_by_and_avg() {
    assert_eq!(
        sql_of(
            "f.parquet",
            "group_by .country, .age_bucket | avg .revenue",
            20
        ),
        "SELECT country, age_bucket, avg(revenue) AS avg_revenue FROM read_parquet('f.parquet') \
         GROUP BY country, age_bucket"
    );
}

#[test]
fn sort_by_default_asc() {
    assert_eq!(
        sql_of("f.parquet", ".email | sort by .email", 20),
        "SELECT email FROM read_parquet('f.parquet') ORDER BY email ASC"
    );
}

#[test]
fn sort_by_desc() {
    assert_eq!(
        sql_of(
            "f.parquet",
            ".revenue | sort by .revenue desc | limit 5",
            20
        ),
        "SELECT revenue FROM read_parquet('f.parquet') ORDER BY revenue DESC LIMIT 5"
    );
}

#[test]
fn distinct_stage() {
    assert_eq!(
        sql_of("f.parquet", ".country | distinct", 20),
        "SELECT DISTINCT country FROM read_parquet('f.parquet')"
    );
}

#[test]
fn count_distinct() {
    assert_eq!(
        sql_of("f.parquet", "count_distinct .npi", 20),
        "SELECT count(DISTINCT npi) AS count_distinct_npi FROM read_parquet('f.parquet')"
    );
}

#[test]
fn pipe_inside_quoted_string_is_not_a_separator() {
    assert_eq!(
        sql_of("f.parquet", "name == \"a|b\"", 20),
        "SELECT * FROM read_parquet('f.parquet') WHERE name = 'a|b'"
    );
}

#[test]
fn glob_path_passthrough_with_hive_autodetect() {
    let s = sql_of("data/dt=2026-*/*.parquet", "count", 20);
    assert!(
        s.contains("read_parquet('data/dt=2026-*/*.parquet', hive_partitioning=true)"),
        "got: {}",
        s
    );
    assert!(s.contains("count(*)"));
}

#[test]
fn plain_path_no_hive() {
    let s = sql_of("data/2026/05/file.parquet", "count", 20);
    assert!(s.contains("read_parquet('data/2026/05/file.parquet')"));
    assert!(!s.contains("hive_partitioning"));
}

#[test]
fn nested_hive_partitions() {
    let s = sql_of("sales/dt=2026-05/region=US/*.parquet", "count", 20);
    assert!(s.contains("hive_partitioning=true"));
}

#[test]
fn hive_path_supports_partition_column_in_query() {
    let s = sql_of(
        "sales/dt=2026-*/region=*/*.parquet",
        "group_by .dt, .region | count",
        20,
    );
    assert!(s.contains("GROUP BY dt, region"));
    assert!(s.contains("hive_partitioning=true"));
}

#[test]
fn join_basic() {
    assert_eq!(
        sql_of(
            "users.parquet",
            "join \"orders.parquet\" on .user_id | select .a.email, .b.amount",
            20
        ),
        "SELECT a.email, b.amount FROM read_parquet('users.parquet') AS a \
         INNER JOIN read_parquet('orders.parquet') AS b ON a.user_id = b.user_id"
    );
}

#[test]
fn join_with_filter_and_limit() {
    let s = sql_of(
        "users.parquet",
        "join \"orders.parquet\" on .user_id | where .b.amount > 100 | top 5 by .b.amount",
        20,
    );
    assert!(
        s.contains("INNER JOIN read_parquet('orders.parquet') AS b ON a.user_id = b.user_id")
    );
    assert!(s.contains("WHERE b.amount > 100"));
    assert!(s.contains("ORDER BY b.amount DESC"));
    assert!(s.contains("LIMIT 5"));
}

#[test]
fn join_right_side_hive_autodetect() {
    let s = sql_of(
        "users.parquet",
        "join \"orders/dt=2026-*/*.parquet\" on .user_id",
        20,
    );
    assert!(
        s.contains("read_parquet('orders/dt=2026-*/*.parquet', hive_partitioning=true) AS b")
    );
}

#[test]
fn join_left_outer() {
    let s = sql_of(
        "users.parquet",
        "left_join \"orders.parquet\" on .user_id | select .a.email, .b.amount",
        20,
    );
    assert!(s.contains(
        "LEFT OUTER JOIN read_parquet('orders.parquet') AS b ON a.user_id = b.user_id"
    ));
    assert!(s.contains("SELECT a.email, b.amount"));
}

#[test]
fn join_right_outer_space_form() {
    let s = sql_of("a.parquet", "right join \"b.parquet\" on .id | count", 20);
    assert!(s.contains("RIGHT OUTER JOIN"));
}

#[test]
fn join_full_outer() {
    let s = sql_of("a.parquet", "full_join \"b.parquet\" on .id", 20);
    assert!(s.contains("FULL OUTER JOIN"));
}

#[test]
fn join_outer_alias_for_full() {
    let s = sql_of("a.parquet", "outer_join \"b.parquet\" on .id", 20);
    assert!(s.contains("FULL OUTER JOIN"));
}

#[test]
fn join_inner_explicit() {
    let s = sql_of("a.parquet", "inner_join \"b.parquet\" on .id", 20);
    assert!(s.contains("INNER JOIN"));
    assert!(!s.contains("OUTER JOIN"));
}

#[test]
fn join_multi_key_via_and() {
    let s = sql_of(
        "users.parquet",
        "left_join \"events.parquet\" on .a.id == .b.user_id and .a.dt == .b.dt | count",
        20,
    );
    assert!(
        s.contains("ON a.id = b.user_id and a.dt = b.dt"),
        "expected multi-key ON expression, got: {}",
        s
    );
}

#[test]
fn to_csv_bare_emits_concat_ws() {
    let s = sql_of("u.parquet", ".email, .country | to_csv", 20);
    assert!(
        s.contains("SELECT concat_ws(',', email::TEXT, country::TEXT) AS line FROM (SELECT email, country"),
        "got: {}",
        s
    );
}

#[test]
fn to_csv_marks_raw_lines_in_compile_output() {
    let out = compile_plan("u.parquet", ".email, .country | to_csv", 20).unwrap();
    assert!(out.raw_lines);
}

#[test]
fn to_json_uses_final_column_names() {
    let s = sql_of(
        "u.parquet",
        "join \"o.parquet\" on .id | select .a.email, .b.amount | to_json",
        20,
    );
    assert!(
        s.contains("to_json({\"email\": email, \"amount\": amount}) AS line FROM ("),
        "got: {}",
        s
    );
}

#[test]
fn to_json_after_group_by_with_order() {
    let s = sql_of(
        "s.parquet",
        "group_by .country | sum .revenue | sort by .sum_revenue desc | to_json",
        20,
    );
    assert!(
        s.contains(
            "to_json({\"country\": country, \"sum_revenue\": sum_revenue}) AS line FROM ("
        ),
        "got: {}",
        s
    );
    assert!(s.contains("ORDER BY sum_revenue DESC"));
}

#[test]
fn to_json_without_explicit_columns_uses_struct_pack() {
    let s = sql_of("u.parquet", "to_json", 0);
    assert!(
        s.contains("SELECT to_json(__pq_inner) AS line FROM ("),
        "got: {}",
        s
    );
}

#[test]
fn to_ndjson_and_to_jsonl_alias_to_json() {
    let baseline = sql_of("u.parquet", ".email, .country | to_json", 20);
    let ndjson = sql_of("u.parquet", ".email, .country | to_ndjson", 20);
    let jsonl = sql_of("u.parquet", ".email, .country | to_jsonl", 20);
    assert_eq!(baseline, ndjson, "to_ndjson should alias to_json");
    assert_eq!(baseline, jsonl, "to_jsonl should alias to_json");
    let out = compile_plan("u.parquet", "to_ndjson", 0).unwrap();
    assert!(
        out.raw_lines,
        "to_ndjson must set raw_lines so the renderer skips header/quoting"
    );
}

#[test]
fn join_explicit_different_column_names() {
    assert_eq!(
        sql_of(
            "users.parquet",
            "join \"orders.parquet\" on .a.id == .b.user_id | select .a.email, .b.amount",
            20
        ),
        "SELECT a.email, b.amount FROM read_parquet('users.parquet') AS a \
         INNER JOIN read_parquet('orders.parquet') AS b ON a.id = b.user_id"
    );
}

#[test]
fn join_double_alias_columns_in_projection() {
    let s = sql_of(
        "u.parquet",
        "join \"o.parquet\" on .id | .a.email, .b.amount",
        20,
    );
    assert!(s.contains("SELECT a.email, b.amount"));
}

#[test]
fn min_max_aggregates_combined() {
    assert_eq!(
        sql_of("f.parquet", "group_by .country | min .age | max .age", 20),
        "SELECT country, min(age) AS min_age, max(age) AS max_age \
         FROM read_parquet('f.parquet') GROUP BY country"
    );
}

#[test]
fn path_struct_dot_unchanged() {
    assert_eq!(path_to_sql(".user.name").unwrap(), "user.name");
    assert!(alias_for_path(".user.name").is_none());
}

#[test]
fn path_list_index_translates_jq_to_duckdb() {
    assert_eq!(path_to_sql(".tags[0]").unwrap(), "tags[1]");
    assert_eq!(path_to_sql(".tags[5]").unwrap(), "tags[6]");
    assert_eq!(alias_for_path(".tags[0]").as_deref(), Some("tags_0"));
}

#[test]
fn path_list_negative_index_passthrough() {
    assert_eq!(path_to_sql(".tags[-1]").unwrap(), "tags[-1]");
    assert_eq!(alias_for_path(".tags[-1]").as_deref(), Some("tags_neg1"));
}

#[test]
fn path_unnest_wraps_subject() {
    assert_eq!(path_to_sql(".tags[]").unwrap(), "UNNEST(tags)");
    assert_eq!(alias_for_path(".tags[]").as_deref(), Some("tags"));
}

#[test]
fn path_chained_unnest_renders_inline() {
    assert_eq!(
        path_to_sql(".events[].kind").unwrap(),
        "UNNEST(events).kind"
    );
    assert_eq!(
        path_to_sql(".events[].user.id").unwrap(),
        "UNNEST(events).user.id"
    );
    assert_eq!(
        path_to_sql(".matrix[][]").unwrap(),
        "UNNEST(UNNEST(matrix))"
    );
}

#[test]
fn path_map_key_double_quoted() {
    assert_eq!(
        path_to_sql(".metadata[\"plan\"]").unwrap(),
        "element_at(metadata, 'plan')[1]"
    );
    assert_eq!(
        path_to_sql(".metadata['plan']").unwrap(),
        "element_at(metadata, 'plan')[1]"
    );
    assert_eq!(
        alias_for_path(".metadata['plan']").as_deref(),
        Some("metadata_plan")
    );
}

#[test]
fn path_map_key_with_apostrophe_escaped() {
    assert_eq!(
        path_to_sql(".m[\"o'brien\"]").unwrap(),
        "element_at(m, 'o''brien')[1]"
    );
}

#[test]
fn path_chained_index_then_struct() {
    assert_eq!(path_to_sql(".events[0].kind").unwrap(), "events[1].kind");
    assert_eq!(
        alias_for_path(".events[0].kind").as_deref(),
        Some("events_0_kind")
    );
}

#[test]
fn path_chained_struct_then_index() {
    assert_eq!(path_to_sql(".foo.bar[2]").unwrap(), "foo.bar[3]");
}

#[test]
fn projection_with_brackets_emits_aliases() {
    let s = sql_of(
        "f.parquet",
        ".user_id, .tags[0], .events[0].amount, .metadata[\"plan\"]",
        0,
    );
    assert_eq!(
        s,
        "SELECT user_id, tags[1] AS tags_0, \
         events[1].amount AS events_0_amount, \
         element_at(metadata, 'plan')[1] AS metadata_plan \
         FROM read_parquet('f.parquet')"
    );
}

#[test]
fn projection_unnest_explosion() {
    let s = sql_of("f.parquet", ".user_id, .tags[]", 0);
    assert_eq!(
        s,
        "SELECT user_id, UNNEST(tags) AS tags FROM read_parquet('f.parquet')"
    );
}

#[test]
fn path_function_len() {
    assert_eq!(
        rewrite_path_function("len(.tags)").as_deref(),
        Some("len(tags)")
    );
    assert_eq!(
        path_function_alias("len(.tags)").as_deref(),
        Some("len_tags")
    );
    let s = sql_of("f.parquet", ".user_id, len(.tags)", 0);
    assert_eq!(
        s,
        "SELECT user_id, len(tags) AS len_tags FROM read_parquet('f.parquet')"
    );
}

#[test]
fn path_function_keys_values() {
    assert_eq!(
        rewrite_path_function("keys(.metadata)").as_deref(),
        Some("map_keys(metadata)")
    );
    assert_eq!(
        rewrite_path_function("values(.metadata)").as_deref(),
        Some("map_values(metadata)")
    );
}

#[test]
fn where_with_struct_path() {
    let s = sql_of("f.parquet", "where .user.country == \"US\"", 20);
    assert!(s.contains("WHERE user.country = 'US'"), "got: {}", s);
}

#[test]
fn where_with_list_index() {
    let s = sql_of("f.parquet", "where .events[0].amount > 100", 20);
    assert!(s.contains("WHERE events[1].amount > 100"), "got: {}", s);
}

#[test]
fn where_with_map_key() {
    let s = sql_of("f.parquet", "where .metadata[\"plan\"] == \"pro\"", 20);
    assert!(
        s.contains("WHERE element_at(metadata, 'plan')[1] = 'pro'"),
        "got: {}",
        s
    );
}

#[test]
fn sort_by_nested_path() {
    let s = sql_of("f.parquet", "sort by .events[0].amount desc", 20);
    assert!(s.contains("ORDER BY events[1].amount DESC"), "got: {}", s);
}

#[test]
fn aggregate_on_nested_path() {
    let s = sql_of("f.parquet", "sum .events[0].amount", 0);
    assert!(s.contains("sum(events[1].amount)"), "got: {}", s);
}

#[test]
fn group_by_nested_path_strips_alias() {
    let s = sql_of(
        "f.parquet",
        "group_by .payer_zipped[0].type_coverage | count",
        0,
    );
    assert!(
        s.contains(
            "SELECT payer_zipped[1].type_coverage AS payer_zipped_0_type_coverage, \
             count(*) AS count"
        ),
        "got: {}",
        s
    );
    assert!(
        s.contains("GROUP BY payer_zipped[1].type_coverage"),
        "GROUP BY should NOT include the AS alias suffix; got: {}",
        s
    );
    assert!(
        !s.contains("GROUP BY payer_zipped[1].type_coverage AS"),
        "GROUP BY must not have an AS clause; got: {}",
        s
    );
}

#[test]
fn limit_head_accepts_unix_n_flag() {
    for q in ["head -n 3", "head -3", "limit -n 3", "limit 3"] {
        let s = sql_of("f.parquet", q, 0);
        assert!(
            s.contains("LIMIT 3"),
            "query `{}` should produce `LIMIT 3`; got: {}",
            q,
            s
        );
    }
}

#[test]
fn projection_chained_unnest_lifts_to_subquery() {
    let s = sql_of("f.parquet", ".events[].kind", 0);
    assert!(
        s.contains("UNNEST(events) AS _pq_u0"),
        "missing inner unnest projection: {}",
        s
    );
    assert!(
        s.contains("_pq_u0.kind"),
        "outer SELECT should reference alias.field: {}",
        s
    );
    let outer = s.split(" FROM ").next().unwrap();
    assert!(
        !outer.contains("UNNEST"),
        "outer SELECT should be UNNEST-free: {}",
        outer
    );
}

#[test]
fn group_by_chained_unnest_compiles() {
    let s = sql_of("f.parquet", "group_by .events[].kind | count", 0);
    assert!(s.contains("UNNEST(events) AS _pq_u0"));
    assert!(s.contains("_pq_u0.kind AS events_kind"));
    assert!(s.contains("GROUP BY _pq_u0.kind"));
    assert!(s.contains("count(*) AS count"));
}

#[test]
fn bare_path_function_routes_to_projection() {
    let s = sql_of("f.parquet", "keys(.metadata)", 0);
    assert!(
        s.contains("SELECT map_keys(metadata)"),
        "keys(.metadata) should project map_keys(): {}",
        s
    );
    assert!(
        !s.contains("WHERE"),
        "keys() alone shouldn't synthesize a WHERE: {}",
        s
    );
    assert!(sql_of("f.parquet", "len(.events)", 0).contains("SELECT len(events)"));
    assert!(sql_of("f.parquet", "values(.metadata)", 0).contains("SELECT map_values(metadata)"));
}

#[test]
fn shared_unnest_source_dedupes() {
    let s = sql_of("f.parquet", ".events[].kind, .events[].amount", 0);
    assert_eq!(
        s.matches("UNNEST(events) AS _pq_u0").count(),
        1,
        "should emit exactly one UNNEST(events) in inner: {}",
        s
    );
    assert!(
        !s.contains("_pq_u1"),
        "should not allocate a 2nd alias: {}",
        s
    );
}

#[test]
fn where_with_chained_unnest_compiles() {
    let s = sql_of("f.parquet", "where .events[].kind == \"click\"", 0);
    assert!(s.contains("UNNEST(events) AS _pq_u0"));
    assert!(s.contains("WHERE _pq_u0.kind = 'click'"));
}

#[test]
fn strip_as_alias_helper() {
    assert_eq!(strip_as_alias("foo"), "foo");
    assert_eq!(strip_as_alias("foo AS bar"), "foo");
    assert_eq!(strip_as_alias("foo as bar"), "foo");
    assert_eq!(
        strip_as_alias("payer_zipped[1].type_coverage AS payer_zipped_0_type_coverage"),
        "payer_zipped[1].type_coverage"
    );
}
