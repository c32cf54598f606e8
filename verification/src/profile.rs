//! Measured scans, from the JSON profile of a query.
use vstd::prelude::*;

use crate::explain::{
    all_scans, gen_suggestions, hints, parse_explain, plan_read, scan_views, ScanInfo, ScanView,
};
use crate::json::{
    json_as_array, json_as_str, json_as_u64, json_get, json_parse, json_parsed, json_tree,
    json_trees, member, member_index, tree_count, tree_text, JsonTree,
};
use crate::text::{
    contains, copy_of, first_separator_splits, has_text, occurs_at, same, texts,
    texts_without_separator_stay_whole,
};

verus! {

/// The scan of parquet files that a node itself is: its rows and its files.
pub open spec fn own_scan(tree: JsonTree) -> Seq<(u64, Seq<char>)> {
    let name = match member(tree, "operator_name"@) {
        Some(t) => tree_text(t),
        None => None,
    };
    let rows = match member(tree, "operator_cardinality"@) {
        Some(t) => tree_count(t),
        None => None,
    };
    let files = match member(tree, "extra_info"@) {
        Some(info) => match member(info, "Filename(s)"@) {
            Some(t) => tree_text(t),
            None => None,
        },
        None => None,
    };
    if name == Some("READ_PARQUET"@) && rows is Some && files is Some {
        seq![(rows->0, files->0)]
    } else {
        Seq::empty()
    }
}

/// The scans of parquet files of a node and the nodes below it, each node before
/// its children.
pub open spec fn profile_scans(tree: JsonTree) -> Seq<(u64, Seq<char>)>
    decreases tree,
{
    own_scan(tree) + match tree {
        JsonTree::Object(members) => match member_index(members, "children"@, 0) {
            Some(i) => if 0 <= i < members.len() {
                match members[i].1 {
                    JsonTree::Array(children) => all_profile_scans(children),
                    _ => Seq::empty(),
                }
            } else {
                Seq::empty()
            },
            None => Seq::empty(),
        },
        _ => Seq::empty(),
    }
}

/// The scans of several nodes, in order.
pub open spec fn all_profile_scans(trees: Seq<JsonTree>) -> Seq<(u64, Seq<char>)>
    decreases trees,
{
    if trees.len() == 0 {
        Seq::empty()
    } else {
        all_profile_scans(trees.drop_last()) + profile_scans(trees.last())
    }
}

/// The views of a list of measured scans.
pub open spec fn measured_views(v: Seq<(u64, String)>) -> Seq<(u64, Seq<char>)> {
    Seq::new(v.len(), |i: int| (v[i].0, v[i].1@))
}

fn read_own_scan(node: &serde_json::Value) -> (r: Option<(u64, String)>)
    ensures
        match r {
            Some((rows, files)) => own_scan(json_tree(*node)) == seq![(rows, files@)],
            None => own_scan(json_tree(*node)) == Seq::<(u64, Seq<char>)>::empty(),
        },
{
    let name = match json_get(node, "operator_name") {
        Some(v) => json_as_str(v),
        None => None,
    };
    match name {
        Some(s) => {
            if !same(s, "READ_PARQUET") {
                return None;
            }
        },
        None => {
            return None;
        },
    }
    let rows = match json_get(node, "operator_cardinality") {
        Some(v) => json_as_u64(v),
        None => None,
    };
    let files = match json_get(node, "extra_info") {
        Some(info) => match json_get(info, "Filename(s)") {
            Some(v) => json_as_str(v),
            None => None,
        },
        None => None,
    };
    match (rows, files) {
        (Some(rows), Some(files)) => Some((rows, copy_of(files))),
        _ => None,
    }
}

proof fn lemma_children_below(tree: JsonTree)
    ensures
        match member(tree, "children"@) {
            Some(JsonTree::Array(children)) => decreases_to!(tree => children),
            _ => true,
        },
{
    if let JsonTree::Object(members) = tree {
        lemma_member_index_range(members, "children"@, 0);
        if let Some(i) = member_index(members, "children"@, 0) {
            assert(decreases_to!(members => members[i]));
        }
    }
}

proof fn lemma_member_index_range(
    members: Seq<(Seq<char>, JsonTree)>,
    key: Seq<char>,
    i: int,
)
    requires
        0 <= i,
    ensures
        member_index(members, key, i) matches Some(k) ==> i <= k < members.len(),
    decreases members.len() - i,
{
    if i < members.len() {
        lemma_member_index_range(members, key, i + 1);
    }
}

fn walk_json_for_parquet(node: &serde_json::Value, out: &mut Vec<(u64, String)>)
    ensures
        measured_views(final(out)@) == measured_views(old(out)@) + profile_scans(json_tree(*node)),
    decreases json_tree(*node),
{
    let ghost tree = json_tree(*node);
    let ghost start = measured_views(out@);
    if let Some((rows, files)) = read_own_scan(node) {
        let ghost v = (rows, files@);
        let ghost before = out@;
        out.push((rows, files));
        assert(measured_views(out@) =~= measured_views(before) + seq![v]);
    } else {
        assert(start =~= start + own_scan(tree));
    }
    let ghost own = measured_views(out@);
    assert(own == start + own_scan(tree));
    proof {
        lemma_children_below(tree);
        if let JsonTree::Object(members) = tree {
            lemma_member_index_range(members, "children"@, 0);
        }
    }
    if let Some(v) = json_get(node, "children") {
        if let Some(children) = json_as_array(v) {
            let ghost trees = json_trees(children@);
            let mut i: usize = 0;
            assert(trees.take(0) =~= Seq::empty());
            assert(own =~= own + all_profile_scans(trees.take(0)));
            while i < children.len()
                invariant
                    i <= children.len(),
                    trees == json_trees(children@),
                    tree == json_tree(*node),
                    decreases_to!(tree => trees),
                    measured_views(out@) == own + all_profile_scans(trees.take(i as int)),
                decreases children.len() - i,
            {
                assert(json_tree(children@[i as int]) == trees[i as int]);
                assert(decreases_to!(trees => trees[i as int]));
                walk_json_for_parquet(&children[i], out);
                assert(trees.take(i + 1).drop_last() =~= trees.take(i as int));
                assert(measured_views(out@) =~= own + all_profile_scans(trees.take(i + 1)));
                i += 1;
            }
            assert(trees.take(trees.len() as int) =~= trees);
            assert(own + all_profile_scans(trees) =~= start + profile_scans(tree));
            return ;
        }
    }
    assert(own =~= start + profile_scans(tree));
}

/// Collects the scans of parquet files from a profile, in the order of the plan.
pub fn collect_json_parquet_scans(node: &serde_json::Value) -> (r: Vec<(u64, String)>)
    ensures
        measured_views(r@) == profile_scans(json_tree(*node)),
{
    let mut out: Vec<(u64, String)> = Vec::new();
    assert(measured_views(out@) + profile_scans(json_tree(*node)) =~= profile_scans(
        json_tree(*node),
    ));
    walk_json_for_parquet(node, &mut out);
    out
}

/// Collects the scans of parquet files from the text of a profile, none where it
/// is no JSON.
pub fn scans_of_profile(text: &str) -> (r: Option<Vec<(u64, String)>>)
    ensures
        match r {
            Some(scans) => json_parsed(text@) is Some && measured_views(scans@) == profile_scans(
                json_parsed(text@)->0,
            ),
            None => json_parsed(text@) is None,
        },
{
    match json_parse(text) {
        Some(v) => Some(collect_json_parquet_scans(&v)),
        None => None,
    }
}

// ─── pruning ────────────────────────────────────────────────────────────────
/// The rows of these files can be counted from their metadata.
pub open spec fn can_count(path: Seq<char>) -> bool {
    path.len() > 0 && !has_text(path, "://"@)
}

/// Can the rows of these files be counted from their metadata? Not without a
/// name, and not over the network.
pub fn counts_files(path: &str) -> (r: bool)
    ensures
        r == can_count(path@),
{
    !path.is_empty() && !contains(path, "://")
}

/// What a sum of metadata tells of the number of rows.
pub open spec fn told_total(total: u64) -> Option<u64> {
    if total == 0 {
        None
    } else {
        Some(total)
    }
}

/// The number of rows that metadata tell, none where they tell of no row.
pub fn known_total(total: u64) -> (r: Option<u64>)
    ensures
        r == told_total(total),
{
    if total == 0 {
        None
    } else {
        Some(total)
    }
}

/// What is known of a scan's pruning: the rows that it read, and, where the
/// files' rows are known, their number and the percentage that was skipped.
#[derive(Debug, Clone, Copy, PartialEq, Eq)]
pub struct Pruning {
    pub rows_scanned: u64,
    pub total: Option<(u64, u64)>,
}

/// A scan with its pruning.
pub open spec fn with_pruning(scan: ScanView, p: Pruning) -> ScanView {
    match p.total {
        Some((total, percent)) => ScanView {
            rows_scanned: Some(p.rows_scanned),
            file_total_rows: Some(total),
            pruned_percent: Some(percent),
            ..scan
        },
        None => ScanView { rows_scanned: Some(p.rows_scanned), ..scan },
    }
}

/// Each scan with its pruning, where there is one for each.
pub open spec fn with_prunings(scans: Seq<ScanView>, measured: Seq<Pruning>) -> Seq<ScanView> {
    if scans.len() == measured.len() {
        Seq::new(scans.len(), |i: int| with_pruning(scans[i], measured[i]))
    } else {
        scans
    }
}

/// Adds the pruning that was measured to the scans of a plan, in order. Where
/// the two lists differ in length, the scans stay as they are.
pub fn merge_pruning_metrics(scans: &mut Vec<ScanInfo>, measured: &Vec<Pruning>)
    ensures
        scan_views(final(scans)@) == with_prunings(scan_views(old(scans)@), measured@),
{
    if scans.len() != measured.len() {
        return ;
    }
    let ghost first = scan_views(scans@);
    let mut i: usize = 0;
    while i < scans.len()
        invariant
            i <= scans.len(),
            scans@.len() == measured@.len(),
            first.len() == scans@.len(),
            forall|k: int|
                0 <= k < i ==> #[trigger] scan_views(scans@)[k] == with_pruning(
                    first[k],
                    measured@[k],
                ),
            forall|k: int| i <= k < first.len() ==> #[trigger] scan_views(scans@)[k] == first[k],
        decreases scans.len() - i,
    {
        let p = measured[i];
        assert(scan_views(scans@)[i as int] == first[i as int]);
        let ghost before = scans@;
        scans[i].rows_scanned = Some(p.rows_scanned);
        if let Some((total, percent)) = p.total {
            scans[i].file_total_rows = Some(total);
            scans[i].pruned_percent = Some(percent);
        }
        assert(scan_views(scans@)[i as int] =~= with_pruning(first[i as int], p));
        assert forall|k: int| 0 <= k < first.len() && k != i implies #[trigger] scan_views(
            scans@,
        )[k] == scan_views(before)[k] by {
            assert(scans@[k] == before[k]);
        }
        i += 1;
    }
    assert(scan_views(scans@) =~= with_prunings(first, measured@));
}

// ─── summaries ──────────────────────────────────────────────────────────────
/// What is known of a query's plan.
#[derive(Debug)]
pub struct ExplainSummary {
    pub scans: Vec<ScanInfo>,
    pub suggestions: Vec<String>,
    /// The plan's text.
    pub raw: String,
    /// The query was run, and its scans were measured.
    pub analyzed: bool,
    /// The texts of the plan's total times. The last that is a number counts.
    pub times: Vec<String>,
}

/// The scans of a plan, with their pruning where it was measured.
pub open spec fn summary_scans(plan: Seq<char>, measured: Option<Vec<Pruning>>) -> Seq<ScanView> {
    match measured {
        Some(m) => with_prunings(all_scans(plan_read(plan)), m@),
        None => all_scans(plan_read(plan)),
    }
}

/// Summarizes a plan, with the pruning that was measured and the hints for the
/// query.
pub fn summarize(
    plan: String,
    measured: &Option<Vec<Pruning>>,
    file: &str,
    query: &str,
    analyzed: bool,
) -> (r: ExplainSummary)
    ensures
        scan_views(r.scans@) == summary_scans(plan@, *measured),
        texts(r.suggestions@) == hints(
            summary_scans(plan@, *measured),
            file@,
            query@,
            analyzed,
        ),
        r.raw@ == plan@,
        r.analyzed == analyzed,
        texts(r.times@) == plan_read(plan@).times,
{
    let (scans, times) = parse_explain(plan.as_str());
    let mut scans = scans;
    if let Some(m) = measured {
        merge_pruning_metrics(&mut scans, m);
    }
    let suggestions = gen_suggestions(&scans, file, query, analyzed);
    ExplainSummary { scans, suggestions, raw: plan, analyzed, times }
}

// ─── laws ───────────────────────────────────────────────────────────────────
/// A node that reads parquet files, and gives its rows and its files, is one scan;
/// no other node is one.
pub proof fn parquet_nodes_are_scans(tree: JsonTree, rows: u64, files: Seq<char>)
    ensures
        member(tree, "operator_name"@) == Some(JsonTree::Text("READ_PARQUET"@)) && member(
            tree,
            "operator_cardinality"@,
        ) == Some(JsonTree::Int(rows as int)) && (member(tree, "extra_info"@) matches Some(info)
            && member(info, "Filename(s)"@) == Some(JsonTree::Text(files))) ==> own_scan(tree)
            == seq![(rows, files)],
        member(tree, "operator_name"@) != Some(JsonTree::Text("READ_PARQUET"@)) ==> own_scan(
            tree,
        ).len() == 0,
        member(tree, "operator_cardinality"@) is None ==> own_scan(tree).len() == 0,
        member(tree, "extra_info"@) is None ==> own_scan(tree).len() == 0,
{
    assert((rows as int) as u64 == rows);
}

/// The scans of a profile are those of a node and then those of its children, in
/// order.
pub proof fn profiles_are_read_from_the_top(
    tree: JsonTree,
    children: Seq<JsonTree>,
    more: JsonTree,
)
    ensures
        tree is Object && member(tree, "children"@) == Some(JsonTree::Array(children))
            ==> profile_scans(tree) == own_scan(tree) + all_profile_scans(children),
        member(tree, "children"@) is None ==> profile_scans(tree) == own_scan(tree),
        all_profile_scans(children.push(more)) == all_profile_scans(children) + profile_scans(more),
        all_profile_scans(Seq::empty()).len() == 0,
{
    assert(children.push(more).drop_last() =~= children);
    if let JsonTree::Object(members) = tree {
        lemma_member_index_range(members, "children"@, 0);
    }
    if member(tree, "children"@) is None {
        assert(own_scan(tree) + Seq::<(u64, Seq<char>)>::empty() =~= own_scan(tree));
    }
}

/// Each scan gets the figures that were measured at its place, where there are as
/// many of both; else the scans stay as they are. Nothing else of a scan changes.
pub proof fn figures_go_to_their_scan(scans: Seq<ScanView>, measured: Seq<Pruning>, i: int)
    requires
        0 <= i < scans.len(),
    ensures
        scans.len() != measured.len() ==> with_prunings(scans, measured) == scans,
        scans.len() == measured.len() ==> ({
            let after = with_prunings(scans, measured);
            &&& after.len() == scans.len()
            &&& after[i].rows_scanned == Some(measured[i].rows_scanned)
            &&& after[i].filters == scans[i].filters
            &&& after[i].projections == scans[i].projections
            &&& after[i].estimated_rows == scans[i].estimated_rows
            &&& after[i].actual_rows == scans[i].actual_rows
            &&& after[i].files_read == scans[i].files_read
            &&& match measured[i].total {
                Some((total, percent)) => after[i].file_total_rows == Some(total)
                    && after[i].pruned_percent == Some(percent),
                None => after[i].file_total_rows == scans[i].file_total_rows
                    && after[i].pruned_percent == scans[i].pruned_percent,
            }
        }),
{
}

/// Local files are counted, remote ones and those without a name are not; a sum of
/// no rows tells nothing.
pub proof fn only_local_files_are_counted(scheme: Seq<char>, rest: Seq<char>, n: u64)
    requires
        !scheme.contains(':'),
        n > 0,
    ensures
        !can_count(""@),
        !can_count(scheme + "://"@ + rest),
        scheme.len() > 0 ==> can_count(scheme),
        told_total(n) == Some(n),
        told_total(0) is None,
{
    reveal_strlit("");
    reveal_strlit("://");
    let s = scheme + "://"@ + rest;
    assert forall|k: int| 0 <= k < scheme.len() implies !#[trigger] occurs_at(s, "://"@, k) by {
        if occurs_at(s, "://"@, k) {
            assert(s.subrange(k, k + 3)[0] == ':');
            assert(s[k] == scheme[k]);
            assert(scheme.contains(':'));
        }
    }
    first_separator_splits(scheme, "://"@, rest);
    assert forall|k: int| !#[trigger] occurs_at(scheme, "://"@, k) by {
        if occurs_at(scheme, "://"@, k) {
            assert(scheme.subrange(k, k + 3)[0] == ':');
            assert(scheme.contains(':'));
        }
    }
    texts_without_separator_stay_whole(scheme, "://"@, ""@);
}

} // verus!
