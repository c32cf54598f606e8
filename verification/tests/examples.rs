//! The documented examples.
use pq::compile::{compile_plan, compile_plan_fmt};
use pq::path::{alias_for_path, path_to_sql};
use pq::source::InputFormat;

fn sql_of(file: &str, q: &str) -> String {
    compile_plan(file, q, 20).unwrap().sql
}

fn tail_of(q: &str) -> String {
    sql_of("f.parquet", q)
        .replace("FROM read_parquet('f.parquet')", "FROM f")
}

#[test]
fn first_rows_by_default() {
    assert_eq!(
        sql_of("users.parquet", ""),
        "SELECT * FROM read_parquet('users.parquet') LIMIT 20"
    );
    assert_eq!(
        compile_plan("users.parquet", "  ", 0).unwrap().sql,
        "SELECT * FROM read_parquet('users.parquet')"
    );
}

#[test]
fn top_countries_by_revenue() {
    assert_eq!(
        sql_of(
            "sales.parquet",
            "group_by .country | sum .revenue | top 10 by sum_revenue"
        ),
        "SELECT country, sum(revenue) AS sum_revenue FROM read_parquet('sales.parquet') \
         GROUP BY country ORDER BY sum_revenue DESC LIMIT 10"
    );
}

#[test]
fn filter_group_having() {
    assert_eq!(
        tail_of("where .age > 18 | group_by .country | count | where count > 100"),
        "SELECT country, count(*) AS count FROM f WHERE age > 18 GROUP BY country \
         HAVING count > 100"
    );
}

#[test]
fn distinct_values() {
    assert_eq!(
        tail_of(".user_id | distinct | sort by .user_id"),
        "SELECT DISTINCT user_id FROM f ORDER BY user_id ASC"
    );
}

#[test]
fn many_aggregates() {
    assert_eq!(
        tail_of("group_by .country | count | sum .duration | avg .duration"),
        "SELECT country, count(*) AS count, sum(duration) AS sum_duration, \
         avg(duration) AS avg_duration FROM f GROUP BY country"
    );
    assert_eq!(
        tail_of("group_by .country | count, avg .revenue | sort by .country"),
        "SELECT country, count(*) AS count, avg(revenue) AS avg_revenue FROM f \
         GROUP BY country ORDER BY country ASC"
    );
}

#[test]
fn verbs_emit_their_sql() {
    assert_eq!(tail_of("where .age > 18"), "SELECT * FROM f WHERE age > 18");
    assert_eq!(tail_of("select .email, .name"), "SELECT email, name FROM f");
    assert_eq!(tail_of(".x | select .email, .name"), "SELECT x, email, name FROM f");
    assert_eq!(tail_of("select .*"), "SELECT * FROM f");
    assert_eq!(
        tail_of("count_distinct .npi"),
        "SELECT count(DISTINCT npi) AS count_distinct_npi FROM f"
    );
    assert_eq!(
        tail_of("sort by .revenue desc"),
        "SELECT * FROM f ORDER BY revenue DESC"
    );
    assert_eq!(tail_of("limit 5"), "SELECT * FROM f LIMIT 5");
    assert_eq!(
        tail_of("left_join \"o.parquet\" on .id"),
        "SELECT * FROM f AS a LEFT OUTER JOIN read_parquet('o.parquet') AS b ON a.id = b.id"
    );
}

#[test]
fn joins_of_all_kinds() {
    assert_eq!(
        tail_of("join \"users.parquet\" on .user_id | select .a.amount, .b.email"),
        "SELECT a.amount, b.email FROM f AS a INNER JOIN read_parquet('users.parquet') AS b \
         ON a.user_id = b.user_id"
    );
    assert_eq!(
        tail_of(
            "join \"orders.parquet\" on .a.id == .b.user_id | group_by .a.country \
             | sum .b.amount | sort by .sum_b_amount desc"
        ),
        "SELECT a.country, sum(b.amount) AS sum_b_amount FROM f AS a \
         INNER JOIN read_parquet('orders.parquet') AS b ON a.id = b.user_id \
         GROUP BY a.country ORDER BY sum_b_amount DESC"
    );
    assert_eq!(
        tail_of("inner_join \"e\" on .a.id == .b.user_id and .a.dt == .b.dt | count"),
        "SELECT count(*) AS count FROM f AS a INNER JOIN read_parquet('e') AS b \
         ON a.id = b.user_id and a.dt = b.dt"
    );
}

#[test]
fn lines_go_on_behind_a_backslash() {
    assert_eq!(
        tail_of(
            "left_join \"orders.parquet\" on .a.id == .b.user_id \\\n\
                               | select .a.email, .b.amount, .b.status"
        ),
        "SELECT a.email, b.amount, b.status FROM f AS a \
         LEFT OUTER JOIN read_parquet('orders.parquet') AS b ON a.id = b.user_id"
    );
    assert_eq!(
        tail_of("inner_join \"e\" \\\n   on .a.id == .b.user_id and .a.dt == .b.dt | count"),
        "SELECT count(*) AS count FROM f AS a INNER JOIN read_parquet('e') AS b \
         ON a.id = b.user_id and a.dt = b.dt"
    );
}

#[test]
fn macros_in_filters() {
    assert_eq!(
        tail_of(".email where is_us(.country)"),
        "SELECT email FROM f WHERE is_us(country)"
    );
    assert_eq!(
        sql_of(
            "sample.parquet",
            ".email, discount(.revenue) AS d where is_us(.country) | sort by .d desc"
        ),
        "SELECT email, discount(revenue) AS d FROM read_parquet('sample.parquet') \
         WHERE is_us(country) ORDER BY d DESC"
    );
}

#[test]
fn built_in_functions_in_projections() {
    assert_eq!(
        tail_of(".id | select coalesce(.a, .b), regexp_matches(.email, 'x,y'), length(trim(.c))"),
        "SELECT id, coalesce(a, b), regexp_matches(email, 'x,y'), \
         len(trim(c)) AS len_trim_c FROM f"
    );
    assert_eq!(
        tail_of("select .name, \"t\".x, tags[1].y, upper(.user.name) AS \"N, .n\""),
        "SELECT name, \"t\".x, tags[1].y, upper(user.name) AS \"N, .n\" FROM f"
    );
    assert_eq!(
        tail_of("select .email where .country == \"US\""),
        "SELECT email FROM f WHERE country = 'US'"
    );
}

#[test]
fn raw_sql_reads_the_file() {
    assert_eq!(sql_of("f", "select t.x from FILE t"), "select t.x from read_parquet('f') t");
    assert_eq!(
        sql_of(
            "users.parquet",
            "SELECT country, count(*) FROM FILE GROUP BY country ORDER BY 2 DESC"
        ),
        "SELECT country, count(*) FROM read_parquet('users.parquet') GROUP BY country \
         ORDER BY 2 DESC"
    );
}

#[test]
fn filter_sugar() {
    assert_eq!(
        tail_of("x == \"foo\" and y != 3 and .col"),
        "SELECT * FROM f WHERE x = 'foo' and y <> 3 and col"
    );
    assert_eq!(
        tail_of("where tags[1].x > .5 and f(a).y == a.b"),
        "SELECT * FROM f WHERE tags[1].x > .5 and f(a).y = a.b"
    );
}

#[test]
fn nested_paths() {
    for (path, sql, alias) in [
        (".user.name", "user.name", None),
        (".tags[0]", "tags[1]", Some("tags_0")),
        (".tags[-1]", "tags[-1]", Some("tags_neg1")),
        (".tags[]", "UNNEST(tags)", Some("tags")),
        (".events[0].kind", "events[1].kind", Some("events_0_kind")),
        (
            ".metadata[\"plan\"]",
            "element_at(metadata, 'plan')[1]",
            Some("metadata_plan"),
        ),
        (
            ".metadata['plan']",
            "element_at(metadata, 'plan')[1]",
            Some("metadata_plan"),
        ),
        (".foo.bar[0]", "foo.bar[1]", Some("foo_bar_0")),
    ] {
        assert_eq!(path_to_sql(path).unwrap(), sql);
        assert_eq!(alias_for_path(path).as_deref(), alias);
    }
    assert_eq!(
        tail_of("len(.tags), length(.tags), keys(.metadata), values(.metadata)"),
        "SELECT len(tags) AS len_tags, len(tags) AS len_tags, \
         map_keys(metadata) AS keys_metadata, map_values(metadata) AS values_metadata FROM f"
    );
}

#[test]
fn all_columns_fold_into_lines() {
    for q in ["where .age > 18 | to_json", "where .age > 18 | .* | to_json"] {
        assert_eq!(
            tail_of(q),
            "SELECT to_json(__pq_inner) AS line FROM (SELECT * FROM f WHERE age > 18) AS __pq_inner"
        );
    }
}

#[test]
fn map_values_keep_their_key() {
    assert_eq!(
        tail_of(".metadata[\"plan\"] | to_json"),
        "SELECT to_json({\"metadata_plan\": metadata_plan}) AS line FROM \
         (SELECT element_at(metadata, 'plan')[1] AS metadata_plan FROM f) AS __pq_inner"
    );
    assert_eq!(
        tail_of("group_by .metadata[\"plan\"] | count"),
        "SELECT element_at(metadata, 'plan')[1] AS metadata_plan, count(*) AS count FROM f \
         GROUP BY element_at(metadata, 'plan')[1]"
    );
}

#[test]
fn exploded_lists() {
    assert_eq!(
        sql_of(
            "f.parquet",
            "group_by .events[].kind | count | sort by .count desc"
        ),
        "SELECT _pq_u0.kind AS events_kind, count(*) AS count \
         FROM (SELECT *, UNNEST(events) AS _pq_u0 FROM read_parquet('f.parquet')) AS _pq_src \
         GROUP BY _pq_u0.kind ORDER BY count DESC"
    );
    assert_eq!(
        tail_of("sum .events[].amount"),
        "SELECT sum(_pq_u0.amount) AS sum_events_amount \
         FROM (SELECT *, UNNEST(events) AS _pq_u0 FROM f) AS _pq_src"
    );
    assert_eq!(
        tail_of("where .events[].kind == \"buy\" | group_by .country | sum .events[].amount"),
        "SELECT country, sum(_pq_u0.amount) AS sum_events_amount \
         FROM (SELECT *, UNNEST(events) AS _pq_u0 FROM f) AS _pq_src \
         WHERE _pq_u0.kind = 'buy' GROUP BY country"
    );
    assert_eq!(
        tail_of("group_by .payer[].type, .provider[].spec | count | top 10 by count"),
        "SELECT _pq_u0.type AS payer_type, _pq_u1.spec AS provider_spec, count(*) AS count \
         FROM (SELECT *, UNNEST(payer) AS _pq_u0, UNNEST(provider) AS _pq_u1 FROM f) AS _pq_src \
         GROUP BY _pq_u0.type, _pq_u1.spec ORDER BY count DESC LIMIT 10"
    );
}

#[test]
fn casts_are_no_aliases() {
    assert_eq!(
        tail_of("group_by cast(.ts as date) | count"),
        "SELECT cast(ts as date), count(*) AS count FROM f GROUP BY cast(ts as date)"
    );
    assert_eq!(
        tail_of("group_by cast(.ts as date) AS \"d (day)\" | count"),
        "SELECT cast(ts as date) AS \"d (day)\", count(*) AS count FROM f \
         GROUP BY cast(ts as date)"
    );
}

#[test]
fn quoted_calls_are_not_lifted() {
    assert_eq!(
        tail_of("where .x == \"UNNEST(a).b\" and .l[].k == 1"),
        "SELECT * FROM (SELECT *, UNNEST(l) AS _pq_u0 FROM f) AS _pq_src \
         WHERE x = 'UNNEST(a).b' and _pq_u0.k = 1"
    );
}

#[test]
fn lines_of_other_formats() {
    let out = compile_plan_fmt(
        "data.ndjson",
        "group_by .country | sum .revenue | to_ndjson",
        0,
        InputFormat::Ndjson,
    )
    .unwrap();
    assert!(out.raw_lines);
    assert_eq!(
        out.sql,
        "SELECT to_json({\"country\": country, \"sum_revenue\": sum_revenue}) AS line \
         FROM (SELECT country, sum(revenue) AS sum_revenue \
         FROM read_json('data.ndjson', format='newline_delimited', auto_detect=true) \
         GROUP BY country) AS __pq_inner"
    );
}
