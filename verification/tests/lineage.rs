//! Column references of queries.
use pq::lineage::{extract, ColumnRef, DerivedColumn};

fn names(refs: &[ColumnRef]) -> Vec<&str> {
    refs.iter().map(|r| r.name.as_str()).collect()
}

#[test]
fn extracts_simple_projection() {
    let l = extract(".email, .country, .age");
    assert_eq!(names(&l.column_refs), vec!["email", "country", "age"]);
    assert!(l.derived.is_empty());
}

#[test]
fn ignores_columns_inside_string_literals() {
    let l = extract(".email where .country == \"US.tld\"");
    assert_eq!(names(&l.column_refs), vec!["email", "country"]);
}

#[test]
fn detects_qualified_dotted_columns() {
    let l = extract("on .a.id == .b.user_id");
    let n = names(&l.column_refs);
    assert_eq!(n, vec!["id", "user_id"]);
}

#[test]
fn aggregator_pairing_sum() {
    let l = extract("group_by .country | sum .revenue");
    assert_eq!(
        l.derived,
        vec![DerivedColumn {
            alias: "sum_revenue".into(),
            agg: "sum".into(),
            source: Some("revenue".into()),
        }]
    );
}

#[test]
fn aggregator_pairing_count_distinct() {
    let l = extract("count_distinct .email");
    assert_eq!(
        l.derived,
        vec![DerivedColumn {
            alias: "count_distinct_email".into(),
            agg: "count_distinct".into(),
            source: Some("email".into()),
        }]
    );
}

#[test]
fn bare_count_emits_derived_with_no_source() {
    let l = extract("group_by .country | count");
    assert!(
        l.derived
            .iter()
            .any(|d| d.alias == "count" && d.source.is_none()),
        "expected bare count among {:?}",
        l.derived
    );
}

#[test]
fn bare_count_not_emitted_for_count_paren() {
    let l = extract("count(*)");
    assert!(
        l.derived.is_empty(),
        "no DSL-style derived from count(*): {:?}",
        l.derived
    );
}

#[test]
fn bare_count_not_confused_with_count_distinct() {
    let l = extract("count_distinct .email");
    let bare_counts = l
        .derived
        .iter()
        .filter(|d| d.alias == "count" && d.source.is_none())
        .count();
    assert_eq!(
        bare_counts, 0,
        "should not emit bare count: {:?}",
        l.derived
    );
}

#[test]
fn column_at_finds_token_under_cursor() {
    let q = ".email, .country";
    let l = extract(q);
    let off = q.find("email").unwrap() + 2;
    let r = l.column_at(off).expect("expected hit");
    assert_eq!(r.name, "email");
    let off = q.find("country").unwrap() + 1;
    let r = l.column_at(off).expect("expected hit");
    assert_eq!(r.name, "country");
    let off = q.find(", ").unwrap();
    let r = l.column_at(off);
    assert!(r.is_some_and(|c| c.name == "email"));
    let off = off + 1;
    assert!(l.column_at(off).is_none());
}

#[test]
fn source_of_round_trip() {
    let l = extract("group_by .country | sum .revenue | top 3 by sum_revenue");
    assert_eq!(l.source_of("sum_revenue"), Some("revenue"));
    assert_eq!(l.source_of("nonexistent"), None);
}

#[test]
fn aggregator_pairing_breaks_on_intervening_token() {
    let l = extract("sum where .x > 1");
    assert!(
        l.derived.is_empty(),
        "no spurious sum_x pairing: {:?}",
        l.derived
    );
}

#[test]
fn nested_struct_path_uses_last_segment() {
    let l = extract(".user.address.city");
    assert_eq!(names(&l.column_refs), vec!["city"]);
}
