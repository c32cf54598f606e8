//! What DuckDB's query plans say about the scans of a query.
use vstd::prelude::*;

use crate::figures::nearest;
use crate::number::{
    decimal, decimal_reads_back, large_numbers_are_refused, parse_u64, parsed_unsigned, show,
};
use crate::path::is_tight;
use crate::source::{is_hive_path, is_hive_segment};
use crate::text::{
    after_prefix, all_trimmed, cat2, cat3, cat5, chars_of, contains, contains_char, copy_of,
    ends_with, has_prefix, has_suffix, has_text, is_digit, join, joined, lower, lowered,
    occurrences_are_replaced_in_turn, occurs_at, push_text, replace, replaced, same, split,
    split_first, split_on, split_once, starts_with, strip_prefix, strip_trailing,
    strip_trailing_text, texts, texts_without_separator_stay_whole, trim, trimmed,
    trimming_takes_the_space_around, without_trailing, without_trailing_text,
};
use crate::unnest::non_empty;

verus! {

/// What a plan says about one scan.
#[derive(Debug, PartialEq, Eq)]
pub struct ScanInfo {
    /// The filters that the scan applies itself.
    pub filters: Vec<String>,
    /// The columns that the scan reads.
    pub projections: Vec<String>,
    pub estimated_rows: Option<u64>,
    pub actual_rows: Option<u64>,
    pub files_read: Option<u64>,
    /// The rows that were left after row groups had been skipped.
    pub rows_scanned: Option<u64>,
    /// The rows of the files that were scanned.
    pub file_total_rows: Option<u64>,
    /// The share of the rows that was skipped, in percent.
    pub pruned_percent: Option<u64>,
}

/// The mathematical value of a `ScanInfo`.
#[verifier::ext_equal]
pub struct ScanView {
    pub filters: Seq<Seq<char>>,
    pub projections: Seq<Seq<char>>,
    pub estimated_rows: Option<u64>,
    pub actual_rows: Option<u64>,
    pub files_read: Option<u64>,
    pub rows_scanned: Option<u64>,
    pub file_total_rows: Option<u64>,
    pub pruned_percent: Option<u64>,
}

impl View for ScanInfo {
    type V = ScanView;

    open spec fn view(&self) -> ScanView {
        ScanView {
            filters: texts(self.filters@),
            projections: texts(self.projections@),
            estimated_rows: self.estimated_rows,
            actual_rows: self.actual_rows,
            files_read: self.files_read,
            rows_scanned: self.rows_scanned,
            file_total_rows: self.file_total_rows,
            pruned_percent: self.pruned_percent,
        }
    }
}

/// The views of a list of scans.
pub open spec fn scan_views(v: Seq<ScanInfo>) -> Seq<ScanView> {
    Seq::new(v.len(), |i: int| v[i]@)
}

/// A scan of which nothing is known.
pub open spec fn empty_scan() -> ScanView {
    ScanView {
        filters: Seq::empty(),
        projections: Seq::empty(),
        estimated_rows: None,
        actual_rows: None,
        files_read: None,
        rows_scanned: None,
        file_total_rows: None,
        pruned_percent: None,
    }
}

impl ScanInfo {
    /// A scan of which nothing is known.
    pub fn new() -> (r: Self)
        ensures
            r@ == empty_scan(),
    {
        let r = ScanInfo {
            filters: Vec::new(),
            projections: Vec::new(),
            estimated_rows: None,
            actual_rows: None,
            files_read: None,
            rows_scanned: None,
            file_total_rows: None,
            pruned_percent: None,
        };
        assert(r@ =~= empty_scan());
        r
    }
}

impl Default for ScanInfo {
    fn default() -> (r: Self)
        ensures
            r@ == empty_scan(),
    {
        ScanInfo::new()
    }
}

// ─── lines of a plan ────────────────────────────────────────────────────────
/// A character that plans draw their boxes with.
pub open spec fn is_box_char(c: char) -> bool {
    "│─┌┐└┘├┤┬┴┼"@.contains(c)
}

/// `s` without the characters that draw boxes.
pub open spec fn without_boxes(s: Seq<char>) -> Seq<char>
    decreases s.len(),
{
    if s.len() == 0 {
        s
    } else if is_box_char(s.last()) {
        without_boxes(s.drop_last())
    } else {
        without_boxes(s.drop_last()).push(s.last())
    }
}

fn strip_boxes(s: &str) -> (r: String)
    ensures
        r@ == without_boxes(s@),
{
    let cs = chars_of(s);
    let mut out = String::new();
    let mut i: usize = 0;
    assert(out@ =~= s@.take(0));
    while i < cs.len()
        invariant
            i <= cs.len(),
            cs@ == s@,
            out@ == without_boxes(s@.take(i as int)),
        decreases cs.len() - i,
    {
        assert(s@.take(i + 1).drop_last() =~= s@.take(i as int));
        if !contains_char("│─┌┐└┘├┤┬┴┼", cs[i]) {
            out.push(cs[i]);
        }
        i += 1;
    }
    assert(s@.take(s@.len() as int) =~= s@);
    out
}

/// An ASCII capital.
pub open spec fn is_capital(c: char) -> bool {
    'A' <= c && c <= 'Z'
}

/// The line is an operator's label: capitals, digits and underscores, with at
/// least one capital.
pub open spec fn is_label(line: Seq<char>) -> bool {
    &&& forall|i: int|
        0 <= i < line.len() ==> is_capital(#[trigger] line[i]) || line[i] == '_' || is_digit(line[i])
    &&& exists|i: int| 0 <= i < line.len() && is_capital(#[trigger] line[i])
}

fn looks_like_label(line: &str) -> (r: bool)
    ensures
        r == is_label(line@),
{
    let cs = chars_of(line);
    let mut capital = false;
    let mut i: usize = 0;
    while i < cs.len()
        invariant
            i <= cs.len(),
            cs@ == line@,
            forall|k: int|
                0 <= k < i ==> is_capital(#[trigger] line@[k]) || line@[k] == '_' || is_digit(
                    line@[k],
                ),
            capital == exists|k: int| 0 <= k < i && is_capital(#[trigger] line@[k]),
        decreases cs.len() - i,
    {
        let c = cs[i];
        assert(line@[i as int] == c);
        if 'A' <= c && c <= 'Z' {
            assert(is_capital(line@[i as int]));
            capital = true;
        } else if !(c == '_' || ('0' <= c && c <= '9')) {
            assert(!(is_capital(line@[i as int]) || line@[i as int] == '_' || is_digit(
                line@[i as int],
            )));
            return false;
        }
        i += 1;
    }
    capital
}

/// The label is that of a scan.
pub open spec fn is_scan_label(line: Seq<char>) -> bool {
    ||| has_text(line, "PARQUET_SCAN"@)
    ||| has_text(line, "READ_PARQUET"@)
    ||| line == "TABLE_SCAN"@
}

/// The number in a text, with commas between its digits or without.
pub open spec fn count_in(s: Seq<char>) -> Option<u64> {
    match parsed_unsigned(replaced(s, ","@, ""@), u64::MAX as int) {
        Some(n) => Some(n as u64),
        None => None,
    }
}

fn read_count(s: &str) -> (r: Option<u64>)
    ensures
        r == count_in(s@),
{
    proof {
        reveal_strlit(",");
    }
    parse_u64(replace(s, ",", "").as_str())
}

/// The text before the unit `row` or `rows`.
pub open spec fn before_rows(s: Seq<char>) -> Seq<char> {
    trimmed(without_trailing_text(without_trailing_text(s, "rows"@), "row"@))
}

fn strip_rows(s: &str) -> (r: String)
    ensures
        r@ == before_rows(s@),
{
    proof {
        reveal_strlit("rows");
        reveal_strlit("row");
    }
    let s = strip_trailing_text(s, "rows");
    let s = strip_trailing_text(s.as_str(), "row");
    trim(s.as_str())
}

/// `new` where there is one, else `old_one`.
pub open spec fn or_else(new: Option<u64>, old_one: Option<u64>) -> Option<u64> {
    match new {
        Some(n) => Some(n),
        None => old_one,
    }
}

/// The non-empty items of a comma list, trimmed.
pub open spec fn comma_items(s: Seq<char>) -> Seq<Seq<char>> {
    crate::unnest::non_empty(crate::text::all_trimmed(split_on(s, ","@)))
}

/// What a line of a scan's box adds to the scan.
pub open spec fn with_line(scan: ScanView, line: Seq<char>) -> ScanView {
    if has_prefix(line, "Filters:"@) {
        let body = trimmed(after_prefix(line, "Filters:"@)->0);
        if body.len() > 0 {
            ScanView { filters: scan.filters.push(body), ..scan }
        } else {
            scan
        }
    } else if has_prefix(line, "Projections:"@) {
        let items = comma_items(after_prefix(line, "Projections:"@)->0);
        ScanView { projections: scan.projections + items, ..scan }
    } else if has_prefix(line, "Estimated Cardinality:"@) {
        let n = count_in(trimmed(after_prefix(line, "Estimated Cardinality:"@)->0));
        ScanView { estimated_rows: or_else(n, scan.estimated_rows), ..scan }
    } else if has_prefix(line, "Total Files Read:"@) {
        let n = count_in(trimmed(after_prefix(line, "Total Files Read:"@)->0));
        ScanView { files_read: or_else(n, scan.files_read), ..scan }
    } else if has_prefix(line, "~"@) {
        // An estimate: `~248 rows`.
        let n = count_in(before_rows(trimmed(after_prefix(line, "~"@)->0)));
        ScanView { estimated_rows: or_else(n, scan.estimated_rows), ..scan }
    } else if has_suffix(line, " rows"@) || has_suffix(line, " row"@) {
        // A measured count: `248 rows`.
        let n = count_in(before_rows(line));
        ScanView { actual_rows: or_else(n, scan.actual_rows), ..scan }
    } else {
        scan
    }
}

fn add_line(scan: &mut ScanInfo, line: &str)
    ensures
        final(scan)@ == with_line(old(scan)@, line@),
{
    if let Some(rest) = strip_prefix(line, "Filters:") {
        let body = trim(rest.as_str());
        if !body.as_str().is_empty() {
            proof {
                crate::text::lemma_texts_push(scan.filters@, body);
            }
            scan.filters.push(body);
        }
    } else if let Some(rest) = strip_prefix(line, "Projections:") {
        proof {
            reveal_strlit(",");
        }
        let items = crate::text::split_trimmed(rest.as_str(), ",");
        let mut items = crate::unnest::keep_non_empty(&items);
        let ghost before = scan.projections@;
        let ghost added = items@;
        scan.projections.append(&mut items);
        assert(texts(before + added) =~= texts(before) + texts(added));
    } else if let Some(rest) = strip_prefix(line, "Estimated Cardinality:") {
        if let Some(n) = read_count(trim(rest.as_str()).as_str()) {
            scan.estimated_rows = Some(n);
        }
    } else if let Some(rest) = strip_prefix(line, "Total Files Read:") {
        if let Some(n) = read_count(trim(rest.as_str()).as_str()) {
            scan.files_read = Some(n);
        }
    } else if let Some(rest) = strip_prefix(line, "~") {
        let rest = trim(rest.as_str());
        if let Some(n) = read_count(strip_rows(rest.as_str()).as_str()) {
            scan.estimated_rows = Some(n);
        }
    } else if ends_with(line, " rows") || ends_with(line, " row") {
        if let Some(n) = read_count(strip_rows(line).as_str()) {
            scan.actual_rows = Some(n);
        }
    }
}

// ─── plans ──────────────────────────────────────────────────────────────────
/// The state of reading a plan: the scans that are complete, the one whose box
/// is open, whether the last line was a field's name, and the total times.
pub struct PlanState {
    pub done: Seq<ScanView>,
    pub open: Option<ScanView>,
    pub after_name: bool,
    pub times: Seq<Seq<char>>,
}

/// The scans with the open one closed.
pub open spec fn all_scans(st: PlanState) -> Seq<ScanView> {
    match st.open {
        Some(scan) => st.done.push(scan),
        None => st.done,
    }
}

/// The total time that a line gives, without its unit.
pub open spec fn time_in(line: Seq<char>) -> Seq<char> {
    trimmed(without_trailing(trimmed(after_prefix(line, "Total Time:"@)->0), 's'))
}

/// The state after a line. An operator's label opens a new box, unless it stands
/// where a field's value does.
pub open spec fn plan_step(st: PlanState, raw: Seq<char>) -> PlanState {
    let line = trimmed(without_boxes(raw));
    if line.len() == 0 {
        st
    } else {
        let times = if has_prefix(line, "Total Time:"@) {
            st.times.push(time_in(line))
        } else {
            st.times
        };
        let after_name = has_suffix(line, ":"@);
        if is_label(line) && !st.after_name {
            PlanState {
                done: all_scans(st),
                open: if is_scan_label(line) {
                    Some(empty_scan())
                } else {
                    None
                },
                after_name,
                times,
            }
        } else {
            PlanState {
                done: st.done,
                open: match st.open {
                    Some(scan) => Some(with_line(scan, line)),
                    None => None,
                },
                after_name,
                times,
            }
        }
    }
}

/// The state after the lines from `i` on.
pub open spec fn plan_from(lines: Seq<Seq<char>>, i: int, st: PlanState) -> PlanState
    decreases lines.len() - i,
{
    if i < 0 || i >= lines.len() {
        st
    } else {
        plan_from(lines, i + 1, plan_step(st, lines[i]))
    }
}

/// The state after a plan.
pub open spec fn plan_read(plan: Seq<char>) -> PlanState {
    plan_from(
        split_on(plan, "\n"@),
        0,
        PlanState {
            done: Seq::empty(),
            open: None,
            after_name: false,
            times: Seq::empty(),
        },
    )
}

/// Reads a plan: its scans in order, and the texts of its total times. The last
/// of these that is a number counts.
pub fn parse_explain(plan: &str) -> (r: (Vec<ScanInfo>, Vec<String>))
    ensures
        scan_views(r.0@) == all_scans(plan_read(plan@)),
        texts(r.1@) == plan_read(plan@).times,
{
    proof {
        reveal_strlit("\n");
    }
    let lines = split(plan, "\n");
    let ghost views = texts(lines@);
    let mut done: Vec<ScanInfo> = Vec::new();
    let mut open: Option<ScanInfo> = None;
    let mut after_name = false;
    let mut times: Vec<String> = Vec::new();
    let ghost mut st = PlanState {
        done: Seq::empty(),
        open: None,
        after_name: false,
        times: Seq::empty(),
    };
    assert(scan_views(done@) =~= Seq::empty());
    assert(texts(times@) =~= Seq::empty());
    let mut i: usize = 0;
    while i < lines.len()
        invariant
            i <= lines.len(),
            views == texts(lines@),
            plan_read(plan@) == plan_from(views, i as int, st),
            st.done == scan_views(done@),
            match open {
                Some(scan) => st.open == Some(scan@),
                None => st.open is None,
            },
            st.after_name == after_name,
            st.times == texts(times@),
        decreases lines.len() - i,
    {
        assert(views[i as int] == lines@[i as int]@);
        let ghost before = done@;
        proof {
            st = plan_step(st, views[i as int]);
        }
        let line = trim(strip_boxes(lines[i].as_str()).as_str());
        let line = line.as_str();
        if !line.is_empty() {
            if let Some(rest) = strip_prefix(line, "Total Time:") {
                let t = trim(strip_trailing(trim(rest.as_str()).as_str(), 's').as_str());
                proof {
                    crate::text::lemma_texts_push(times@, t);
                }
                times.push(t);
            }
            if looks_like_label(line) && !after_name {
                if let Some(scan) = open {
                    assert(scan_views(before.push(scan)) =~= scan_views(before).push(scan@));
                    done.push(scan);
                }
                if contains(line, "PARQUET_SCAN") || contains(line, "READ_PARQUET") || same(
                    line,
                    "TABLE_SCAN",
                ) {
                    open = Some(ScanInfo::new());
                } else {
                    open = None;
                }
            } else {
                open = match open {
                    Some(scan) => {
                        let mut scan = scan;
                        add_line(&mut scan, line);
                        Some(scan)
                    },
                    None => None,
                };
            }
            after_name = ends_with(line, ":");
        }
        i += 1;
    }
    let ghost before = done@;
    if let Some(scan) = open {
        assert(scan_views(before.push(scan)) =~= scan_views(before).push(scan@));
        done.push(scan);
    }
    (done, times)
}

// ─── hints ──────────────────────────────────────────────────────────────────
/// The keys of the `key=value` segments from `i` on, after `acc`, each once.
pub open spec fn hive_keys_from(
    segments: Seq<Seq<char>>,
    i: int,
    acc: Seq<Seq<char>>,
) -> Seq<Seq<char>>
    decreases segments.len() - i,
{
    if i < 0 || i >= segments.len() {
        acc
    } else if is_hive_segment(segments[i]) && !acc.contains(
        (split_first(segments[i], "="@)->0).0,
    ) {
        hive_keys_from(segments, i + 1, acc.push((split_first(segments[i], "="@)->0).0))
    } else {
        hive_keys_from(segments, i + 1, acc)
    }
}

/// The partition keys of a path, in order.
pub open spec fn hive_keys(path: Seq<char>) -> Seq<Seq<char>> {
    hive_keys_from(split_on(path, "/"@), 0, Seq::empty())
}

fn holds(list: &Vec<String>, s: &str) -> (r: bool)
    ensures
        r == texts(list@).contains(s@),
{
    let mut i: usize = 0;
    while i < list.len()
        invariant
            i <= list.len(),
            forall|k: int| 0 <= k < i ==> texts(list@)[k] != s@,
        decreases list.len() - i,
    {
        if same(list[i].as_str(), s) {
            assert(texts(list@)[i as int] == s@);
            return true;
        }
        i += 1;
    }
    false
}

/// Finds the partition keys of a path.
pub fn extract_hive_keys(path: &str) -> (r: Vec<String>)
    ensures
        texts(r@) == hive_keys(path@),
{
    proof {
        reveal_strlit("/");
    }
    let segments = split(path, "/");
    let ghost views = texts(segments@);
    let mut out: Vec<String> = Vec::new();
    let mut i: usize = 0;
    assert(texts(out@) =~= Seq::empty());
    while i < segments.len()
        invariant
            i <= segments.len(),
            views == texts(segments@),
            hive_keys_from(views, 0, Seq::empty()) == hive_keys_from(
                views,
                i as int,
                texts(out@),
            ),
        decreases segments.len() - i,
    {
        assert(views[i as int] == segments@[i as int]@);
        if crate::source::hive_segment(segments[i].as_str()) {
            if let Some((key, _)) = split_once(segments[i].as_str(), "=") {
                if !holds(&out, key.as_str()) {
                    proof {
                        crate::text::lemma_texts_push(out@, key);
                    }
                    out.push(key);
                }
            }
        }
        i += 1;
    }
    out
}

/// The segment is the first one of a path with that partition key.
pub open spec fn is_first_with_key(segments: Seq<Seq<char>>, key: Seq<char>, p: int) -> bool {
    &&& 0 <= p < segments.len()
    &&& has_key(segments[p], key)
    &&& forall|q: int| 0 <= q < p ==> !has_key(#[trigger] segments[q], key)
}

/// The segment has the form `key=value` with the given key.
pub open spec fn has_key(segment: Seq<char>, key: Seq<char>) -> bool {
    is_hive_segment(segment) && (split_first(segment, "="@)->0).0 == key
}

/// The keys are those of the first `n` segments, each at the place, in `at`, where
/// it first appears.
spec fn keys_stand_at(segments: Seq<Seq<char>>, keys: Seq<Seq<char>>, at: Seq<int>, n: int) -> bool {
    &&& at.len() == keys.len()
    &&& forall|k: int|
        0 <= k < keys.len() ==> is_first_with_key(segments, keys[k], #[trigger] at[k]) && at[k] < n
    &&& forall|i: int, j: int| 0 <= i < j < at.len() ==> #[trigger] at[i] < #[trigger] at[j]
    &&& forall|p: int|
        0 <= p < n && p < segments.len() && is_hive_segment(#[trigger] segments[p])
            ==> keys.contains((split_first(segments[p], "="@)->0).0)
}

proof fn lemma_key_positions(
    segments: Seq<Seq<char>>,
    i: int,
    acc: Seq<Seq<char>>,
    at: Seq<int>,
) -> (r: Seq<int>)
    requires
        0 <= i <= segments.len(),
        keys_stand_at(segments, acc, at, i),
    ensures
        keys_stand_at(segments, hive_keys_from(segments, i, acc), r, segments.len() as int),
    decreases segments.len() - i,
{
    if i == segments.len() {
        at
    } else {
        let key = (split_first(segments[i], "="@)->0).0;
        if is_hive_segment(segments[i]) && !acc.contains(key) {
            let keys = acc.push(key);
            let places = at.push(i);
            assert(is_first_with_key(segments, key, i)) by {
                assert forall|q: int| 0 <= q < i implies !has_key(#[trigger] segments[q], key) by {
                    if has_key(segments[q], key) {
                        assert(acc.contains(key));
                    }
                }
            }
            assert forall|k: int| 0 <= k < keys.len() implies is_first_with_key(
                segments,
                keys[k],
                #[trigger] places[k],
            ) && places[k] < i + 1 by {
                if k < acc.len() {
                    assert(places[k] == at[k] && keys[k] == acc[k]);
                }
            }
            assert forall|p: int|
                0 <= p < i + 1 && p < segments.len() && is_hive_segment(
                    #[trigger] segments[p],
                ) implies keys.contains((split_first(segments[p], "="@)->0).0) by {
                let own = (split_first(segments[p], "="@)->0).0;
                if p < i {
                    assert(acc.contains(own));
                    let k = choose|k: int| 0 <= k < acc.len() && acc[k] == own;
                    assert(keys[k] == own);
                } else {
                    assert(keys[acc.len() as int] == own);
                }
            }
            lemma_key_positions(segments, i + 1, keys, places)
        } else {
            lemma_key_positions(segments, i + 1, acc, at)
        }
    }
}

/// The first key of the path stands before the second one.
pub open spec fn key_precedes(path: Seq<char>, a: Seq<char>, b: Seq<char>) -> bool {
    let segments = split_on(path, "/"@);
    exists|p: int, q: int| #[trigger]
        is_first_with_key(segments, a, p) && #[trigger] is_first_with_key(segments, b, q) && p < q
}

/// The partition keys of a path come in the order in which they first appear,
/// each once, and every one of them. There are none where the path is not
/// partitioned.
pub proof fn hive_keys_come_in_order(path: Seq<char>)
    ensures
        hive_keys(path).no_duplicates(),
        forall|i: int, j: int|
            0 <= i < j < hive_keys(path).len() ==> key_precedes(
                path,
                #[trigger] hive_keys(path)[i],
                #[trigger] hive_keys(path)[j],
            ),
        forall|p: int|
            0 <= p < split_on(path, "/"@).len() && is_hive_segment(
                #[trigger] split_on(path, "/"@)[p],
            ) ==> hive_keys(path).contains((split_first(split_on(path, "/"@)[p], "="@)->0).0),
        hive_keys(path).len() == 0 <==> !is_hive_path(path),
{
    let segments = split_on(path, "/"@);
    let keys = hive_keys(path);
    let at = lemma_key_positions(segments, 0, Seq::empty(), Seq::empty());
    assert forall|i: int, j: int| 0 <= i < j < keys.len() implies #[trigger] keys[i]
        != #[trigger] keys[j] && key_precedes(path, keys[i], keys[j]) by {
        assert(at[i] < at[j]);
        assert(is_first_with_key(segments, keys[i], at[i]));
        assert(is_first_with_key(segments, keys[j], at[j]));
        assert(!has_key(segments[at[i]], keys[j]));
    }
    if keys.len() > 0 {
        assert(is_first_with_key(segments, keys[0], at[0]));
        assert(is_hive_segment(segments[at[0]]));
    }
    if is_hive_path(path) {
        let p = choose|p: int| 0 <= p < segments.len() && is_hive_segment(#[trigger] segments[p]);
        assert(keys.contains((split_first(segments[p], "="@)->0).0));
    }
}

/// The hint that a partition key is not used.
pub open spec fn partition_hint(key: Seq<char>) -> Seq<char> {
    "💡 add `where ."@ + lowered(key) + " = …` to prune partitions ("@ + key + "=… in path)"@
}

/// The hints for the keys from `i` on that the query, in lower case, does not name.
pub open spec fn partition_hints(keys: Seq<Seq<char>>, q: Seq<char>, i: int) -> Seq<Seq<char>>
    decreases keys.len() - i,
{
    if i < 0 || i >= keys.len() {
        Seq::empty()
    } else if has_text(q, "."@ + lowered(keys[i])) {
        partition_hints(keys, q, i + 1)
    } else {
        seq![partition_hint(keys[i])] + partition_hints(keys, q, i + 1)
    }
}

/// Some scan applies a filter itself.
pub open spec fn filter_pushed(scans: Seq<ScanView>) -> bool {
    exists|i: int| 0 <= i < scans.len() && (#[trigger] scans[i]).filters.len() > 0
}

/// Some scan reads chosen columns only.
pub open spec fn projection_pushed(scans: Seq<ScanView>) -> bool {
    exists|i: int| 0 <= i < scans.len() && (#[trigger] scans[i]).projections.len() > 0
}

/// The hint that a filter did not reach the scans.
pub open spec fn filter_hint(scans: Seq<ScanView>, query: Seq<char>) -> Seq<Seq<char>> {
    let q = lowered(query);
    if trimmed(query).len() > 0 && !filter_pushed(scans) && (has_text(q, " where "@) || has_prefix(
        q,
        "where "@,
    )) {
        seq![
            "💡 your `where` clause didn't push to the parquet scan — check column types match"@,
        ]
    } else {
        Seq::empty()
    }
}

/// The hint that the scans read every column.
pub open spec fn projection_hint(scans: Seq<ScanView>, query: Seq<char>) -> Seq<Seq<char>> {
    if !projection_pushed(scans) && (trimmed(query).len() == 0 || !query.contains('.')) {
        seq![
            "💡 select specific columns (`.col1, .col2`) for projection pushdown — scans currently read every field"@,
        ]
    } else {
        Seq::empty()
    }
}

/// At least one.
pub open spec fn at_least_one(n: u64) -> int {
    if n == 0 {
        1
    } else {
        n as int
    }
}

/// The hint that an estimate is off by a factor of ten or more.
pub open spec fn skew_hint(scan: ScanView) -> Seq<Seq<char>> {
    match (scan.estimated_rows, scan.actual_rows) {
        (Some(est), Some(act)) => {
            let (e, a) = (at_least_one(est), at_least_one(act));
            let (high, low) = if a >= e {
                (a, e)
            } else {
                (e, a)
            };
            if high >= 10 * low {
                seq![
                    "💡 estimate skewed "@ + decimal(nearest(high, low) as nat) + "× (est "@
                        + decimal(est as nat) + ", actual "@ + decimal(act as nat)
                        + ") — parquet stats may be stale; rewriting the file refreshes them"@,
                ]
            } else {
                Seq::empty()
            }
        },
        _ => Seq::empty(),
    }
}

/// The hint that many files were read without a filter.
pub open spec fn files_hint(scan: ScanView) -> Seq<Seq<char>> {
    match scan.files_read {
        Some(n) => if n >= 20 && scan.filters.len() == 0 {
            seq![
                "💡 scanned "@ + decimal(n as nat)
                    + " files with no pushed predicate — add a `where` on a partition column to prune"@,
            ]
        } else {
            Seq::empty()
        },
        None => Seq::empty(),
    }
}

/// No row was skipped.
pub open spec fn nothing_pruned(scanned: u64, total: u64) -> bool {
    scanned >= total
}

/// The hint that a filter skipped no rows of a large file.
pub open spec fn prune_hint(scan: ScanView) -> Seq<Seq<char>> {
    match (scan.rows_scanned, scan.file_total_rows) {
        (Some(scanned), Some(total)) => if nothing_pruned(scanned, total) && scan.filters.len() > 0
            && total >= 1_000_000 {
            seq![
                "💡 filter `"@ + joined(scan.filters, " AND "@)
                    + "` didn't prune any row groups — column may lack min/max stats (common for STRING from older Spark writers)"@,
            ]
        } else {
            Seq::empty()
        },
        _ => Seq::empty(),
    }
}

/// The hints that measured scans give, from index `i` on.
pub open spec fn measured_hints(scans: Seq<ScanView>, i: int) -> Seq<Seq<char>>
    decreases scans.len() - i,
{
    if i < 0 || i >= scans.len() {
        Seq::empty()
    } else {
        skew_hint(scans[i]) + files_hint(scans[i]) + prune_hint(scans[i]) + measured_hints(
            scans,
            i + 1,
        )
    }
}

/// The hints for a query: unused partitions, a filter that does not reach the
/// scans, unchosen columns, and what measured scans tell.
pub open spec fn hints(
    scans: Seq<ScanView>,
    file: Seq<char>,
    query: Seq<char>,
    analyzed: bool,
) -> Seq<Seq<char>> {
    partition_hints(hive_keys(file), lowered(query), 0) + filter_hint(scans, query)
        + projection_hint(scans, query) + if analyzed {
        measured_hints(scans, 0)
    } else {
        Seq::empty()
    }
}

fn push_hint(out: &mut Vec<String>, hint: String)
    ensures
        texts(final(out)@) == texts(old(out)@) + seq![hint@],
{
    proof {
        crate::text::lemma_texts_push(out@, hint);
        assert(texts(out@).push(hint@) =~= texts(out@) + seq![hint@]);
    }
    out.push(hint);
}

proof fn lemma_no_hint(s: Seq<Seq<char>>)
    ensures
        s + Seq::<Seq<char>>::empty() == s,
{
    assert(s + Seq::<Seq<char>>::empty() =~= s);
}

fn add_partition_hints(out: &mut Vec<String>, file: &str, q: &str)
    ensures
        texts(final(out)@) == texts(old(out)@) + partition_hints(hive_keys(file@), q@, 0),
{
    let keys = extract_hive_keys(file);
    let ghost views = texts(keys@);
    let ghost all = texts(old(out)@) + partition_hints(views, q@, 0);
    let mut i: usize = 0;
    while i < keys.len()
        invariant
            i <= keys.len(),
            views == texts(keys@),
            texts(out@) + partition_hints(views, q@, i as int) == all,
        decreases keys.len() - i,
    {
        let key = keys[i].as_str();
        assert(views[i as int] == key@);
        let low = lower(key);
        if !contains(q, cat2(".", low.as_str()).as_str()) {
            let ghost before = texts(out@);
            push_hint(
                out,
                cat5(
                    "💡 add `where .",
                    low.as_str(),
                    " = …` to prune partitions (",
                    key,
                    "=… in path)",
                ),
            );
            assert(before + (seq![partition_hint(key@)] + partition_hints(views, q@, i + 1))
                =~= texts(out@) + partition_hints(views, q@, i + 1));
        }
        i += 1;
    }
    proof {
        lemma_no_hint(texts(out@));
    }
}

fn any_filter(scans: &[ScanInfo]) -> (r: bool)
    ensures
        r == filter_pushed(scan_views(scans@)),
{
    let ghost views = scan_views(scans@);
    let mut i: usize = 0;
    while i < scans.len()
        invariant
            i <= scans@.len(),
            views == scan_views(scans@),
            forall|k: int| 0 <= k < i ==> (#[trigger] views[k]).filters.len() == 0,
        decreases scans@.len() - i,
    {
        assert(views[i as int].filters.len() == scans@[i as int].filters@.len());
        if scans[i].filters.len() > 0 {
            return true;
        }
        i += 1;
    }
    false
}

fn any_projection(scans: &[ScanInfo]) -> (r: bool)
    ensures
        r == projection_pushed(scan_views(scans@)),
{
    let ghost views = scan_views(scans@);
    let mut i: usize = 0;
    while i < scans.len()
        invariant
            i <= scans@.len(),
            views == scan_views(scans@),
            forall|k: int| 0 <= k < i ==> (#[trigger] views[k]).projections.len() == 0,
        decreases scans@.len() - i,
    {
        assert(views[i as int].projections.len() == scans@[i as int].projections@.len());
        if scans[i].projections.len() > 0 {
            return true;
        }
        i += 1;
    }
    false
}

fn add_skew_hint(out: &mut Vec<String>, scan: &ScanInfo)
    ensures
        texts(final(out)@) == texts(old(out)@) + skew_hint(scan@),
{
    if let (Some(est), Some(act)) = (scan.estimated_rows, scan.actual_rows) {
        let e: u64 = if est == 0 {
            1
        } else {
            est
        };
        let a: u64 = if act == 0 {
            1
        } else {
            act
        };
        let (high, low): (u64, u64) = if a >= e {
            (a, e)
        } else {
            (e, a)
        };
        if high as u128 >= 10 * (low as u128) {
            let ratio = crate::figures::round_div(high as u128, low as u128);
            let mut hint = cat3("💡 estimate skewed ", show(ratio).as_str(), "× (est ");
            push_text(&mut hint, show(est as u128).as_str());
            push_text(&mut hint, ", actual ");
            push_text(&mut hint, show(act as u128).as_str());
            push_text(
                &mut hint,
                ") — parquet stats may be stale; rewriting the file refreshes them",
            );
            push_hint(out, hint);
            return ;
        }
    }
    proof {
        lemma_no_hint(texts(out@));
    }
}

fn add_files_hint(out: &mut Vec<String>, scan: &ScanInfo)
    ensures
        texts(final(out)@) == texts(old(out)@) + files_hint(scan@),
{
    if let Some(n) = scan.files_read {
        if n >= 20 && scan.filters.len() == 0 {
            push_hint(
                out,
                cat3(
                    "💡 scanned ",
                    show(n as u128).as_str(),
                    " files with no pushed predicate — add a `where` on a partition column to prune",
                ),
            );
            return ;
        }
    }
    proof {
        lemma_no_hint(texts(out@));
    }
}

fn add_prune_hint(out: &mut Vec<String>, scan: &ScanInfo)
    ensures
        texts(final(out)@) == texts(old(out)@) + prune_hint(scan@),
{
    if let (Some(scanned), Some(total)) = (scan.rows_scanned, scan.file_total_rows) {
        if scanned >= total && scan.filters.len() > 0 && total >= 1_000_000 {
            push_hint(
                out,
                cat3(
                    "💡 filter `",
                    join(&scan.filters, " AND ").as_str(),
                    "` didn't prune any row groups — column may lack min/max stats (common for STRING from older Spark writers)",
                ),
            );
            return ;
        }
    }
    proof {
        lemma_no_hint(texts(out@));
    }
}

fn add_measured_hints(out: &mut Vec<String>, scans: &[ScanInfo])
    ensures
        texts(final(out)@) == texts(old(out)@) + measured_hints(scan_views(scans@), 0),
{
    let ghost views = scan_views(scans@);
    let ghost all = texts(out@) + measured_hints(views, 0);
    let mut i: usize = 0;
    while i < scans.len()
        invariant
            i <= scans@.len(),
            views == scan_views(scans@),
            texts(out@) + measured_hints(views, i as int) == all,
        decreases scans@.len() - i,
    {
        let ghost before = texts(out@);
        assert(views[i as int] == scans@[i as int]@);
        add_skew_hint(out, &scans[i]);
        add_files_hint(out, &scans[i]);
        add_prune_hint(out, &scans[i]);
        assert(before + measured_hints(views, i as int) =~= texts(out@) + measured_hints(
            views,
            i + 1,
        ));
        i += 1;
    }
    proof {
        lemma_no_hint(texts(out@));
    }
}

/// Collects the hints for a query.
pub fn gen_suggestions(scans: &[ScanInfo], file: &str, query: &str, analyzed: bool) -> (r: Vec<
    String,
>)
    ensures
        texts(r@) == hints(scan_views(scans@), file@, query@, analyzed),
{
    let mut out: Vec<String> = Vec::new();
    let q = lower(query);
    let blank = trim(query).as_str().is_empty();
    assert(texts(out@) + partition_hints(hive_keys(file@), q@, 0) =~= partition_hints(
        hive_keys(file@),
        q@,
        0,
    ));
    add_partition_hints(&mut out, file, q.as_str());
    if !blank && !any_filter(scans) && (contains(q.as_str(), " where ") || starts_with(
        q.as_str(),
        "where ",
    )) {
        push_hint(
            &mut out,
            copy_of(
                "💡 your `where` clause didn't push to the parquet scan — check column types match",
            ),
        );
    } else {
        proof {
            lemma_no_hint(texts(out@));
        }
    }
    if !any_projection(scans) && (blank || !contains_char(query, '.')) {
        push_hint(
            &mut out,
            copy_of(
                "💡 select specific columns (`.col1, .col2`) for projection pushdown — scans currently read every field",
            ),
        );
    } else {
        proof {
            lemma_no_hint(texts(out@));
        }
    }
    if analyzed {
        add_measured_hints(&mut out, scans);
    } else {
        proof {
            lemma_no_hint(texts(out@));
        }
    }
    out
}

// ─── laws ───────────────────────────────────────────────────────────────────
/// A filter line adds its filter to the scan, and nothing else.
pub proof fn filter_lines_add_filters(scan: ScanView, filter: Seq<char>)
    requires
        is_tight(filter),
    ensures
        with_line(scan, "Filters: "@ + filter) == (ScanView {
            filters: scan.filters.push(filter),
            ..scan
        }),
        with_line(scan, "Filters:"@) == scan,
{
    reveal_strlit("Filters: ");
    reveal_strlit("Filters:");
    let line = "Filters: "@ + filter;
    let blank = seq![' '];
    assert(line.subrange(0, 8) =~= "Filters:"@);
    assert(line.skip(8) =~= blank + filter + Seq::<char>::empty());
    trimming_takes_the_space_around(blank, filter, Seq::empty());
    assert("Filters:"@.subrange(0, 8) =~= "Filters:"@);
    assert("Filters:"@.skip(8) =~= Seq::<char>::empty());
    assert(trimmed("Filters:"@.skip(8)).len() == 0);
}

#[verifier::rlimit(50)]
proof fn lemma_count_text(n: nat)
    requires
        n <= u64::MAX,
    ensures
        count_in(decimal(n)) == Some(n as u64),
        trimmed(decimal(n)) == decimal(n),
        before_rows(decimal(n) + " rows"@) == decimal(n),
        before_rows(decimal(n) + " row"@) == decimal(n),
{
    let d = decimal(n);
    decimal_reads_back(n);
    large_numbers_are_refused(n, u64::MAX as int);
    assert(is_digit(d[0]) && is_digit(d[d.len() - 1]));
    reveal_strlit(",");
    assert forall|k: int| !#[trigger] occurs_at(d, ","@, k) by {
        if occurs_at(d, ","@, k) {
            assert(d.subrange(k, k + 1)[0] == ',');
            assert(is_digit(d[k]));
        }
    }
    texts_without_separator_stay_whole(d, ","@, ""@);
    reveal_strlit("rows");
    reveal_strlit("row");
    reveal_strlit(" rows");
    reveal_strlit(" row");
    let blank = seq![' '];
    let a = d + " rows"@;
    let b = d + " row"@;
    let mid = d + blank;
    assert(a.subrange(a.len() - 4, a.len() as int) =~= "rows"@);
    assert(a.take(a.len() - 4) =~= mid);
    lemma_no_unit(mid);
    lemma_no_unit_s(b);
    assert(b.subrange(b.len() - 3, b.len() as int) =~= "row"@);
    assert(b.take(b.len() - 3) =~= mid);
    assert(without_trailing_text(a, "rows"@) == without_trailing_text(mid, "rows"@));
    assert(without_trailing_text(b, "row"@) == without_trailing_text(mid, "row"@));
    trimming_takes_the_space_around(Seq::empty(), d, blank);
    assert(Seq::<char>::empty() + d + blank =~= mid);
}

proof fn lemma_no_unit(s: Seq<char>)
    requires
        s.len() > 0,
        s[s.len() - 1] == ' ',
    ensures
        without_trailing_text(s, "rows"@) == s,
        without_trailing_text(s, "row"@) == s,
{
    reveal_strlit("rows");
    reveal_strlit("row");
    if has_suffix(s, "rows"@) {
        assert(s.subrange(s.len() - 4, s.len() as int)[3] == 's');
    }
    if has_suffix(s, "row"@) {
        assert(s.subrange(s.len() - 3, s.len() as int)[2] == 'w');
    }
}

proof fn lemma_no_unit_s(s: Seq<char>)
    requires
        s.len() > 0,
        s[s.len() - 1] == 'w',
    ensures
        without_trailing_text(s, "rows"@) == s,
{
    reveal_strlit("rows");
    if has_suffix(s, "rows"@) {
        assert(s.subrange(s.len() - 4, s.len() as int)[3] == 's');
    }
}

proof fn lemma_other_start(line: Seq<char>, p: Seq<char>)
    requires
        line.len() > 0,
        p.len() > 0,
        line[0] != p[0],
    ensures
        !has_prefix(line, p),
{
    if has_prefix(line, p) {
        assert(line.subrange(0, p.len() as int)[0] == line[0]);
    }
}

proof fn lemma_line_names(line: Seq<char>)
    requires
        line.len() > 0,
    ensures
        line[0] != 'F' ==> !has_prefix(line, "Filters:"@),
        line[0] != 'P' ==> !has_prefix(line, "Projections:"@),
        line[0] != 'E' ==> !has_prefix(line, "Estimated Cardinality:"@),
        line[0] != 'T' ==> !has_prefix(line, "Total Files Read:"@),
        line[0] != '~' ==> !has_prefix(line, "~"@),
{
    reveal_strlit("Filters:");
    reveal_strlit("Projections:");
    reveal_strlit("Estimated Cardinality:");
    reveal_strlit("Total Files Read:");
    reveal_strlit("~");
    if line[0] != 'F' {
        lemma_other_start(line, "Filters:"@);
    }
    if line[0] != 'P' {
        lemma_other_start(line, "Projections:"@);
    }
    if line[0] != 'E' {
        lemma_other_start(line, "Estimated Cardinality:"@);
    }
    if line[0] != 'T' {
        lemma_other_start(line, "Total Files Read:"@);
    }
    if line[0] != '~' {
        lemma_other_start(line, "~"@);
    }
}

/// A number of rows by itself was measured.
pub proof fn measured_rows_are_read(scan: ScanView, n: nat)
    requires
        n <= u64::MAX,
    ensures
        with_line(scan, decimal(n) + " rows"@) == (ScanView {
            actual_rows: Some(n as u64),
            ..scan
        }),
        with_line(scan, decimal(n) + " row"@) == (ScanView {
            actual_rows: Some(n as u64),
            ..scan
        }),
{
    let d = decimal(n);
    decimal_reads_back(n);
    lemma_count_text(n);
    assert(is_digit(d[0]));
    reveal_strlit(" rows");
    reveal_strlit(" row");
    let rows = d + " rows"@;
    let row = d + " row"@;
    assert(rows[0] == d[0] && row[0] == d[0]);
    lemma_line_names(rows);
    lemma_line_names(row);
    assert(rows.subrange(rows.len() - 5, rows.len() as int) =~= " rows"@);
    assert(row.subrange(row.len() - 4, row.len() as int) =~= " row"@);
}

/// A number of rows behind `~` is an estimate.
pub proof fn estimated_rows_are_read(scan: ScanView, n: nat)
    requires
        n <= u64::MAX,
    ensures
        with_line(scan, "~"@ + (decimal(n) + " rows"@)) == (ScanView {
            estimated_rows: Some(n as u64),
            ..scan
        }),
{
    let d = decimal(n);
    decimal_reads_back(n);
    lemma_count_text(n);
    assert(is_digit(d[0]));
    reveal_strlit("~");
    reveal_strlit(" rows");
    let rows = d + " rows"@;
    let about = "~"@ + rows;
    assert(about[0] == '~');
    lemma_line_names(about);
    assert(about.subrange(0, 1) =~= "~"@);
    assert(about.skip(1) =~= rows);
    assert(rows[0] == d[0] && rows[rows.len() - 1] == 's');
    assert(trimmed(rows) == rows);
}

proof fn lemma_behind_name(name: Seq<char>, value: Seq<char>)
    requires
        is_tight(value),
    ensures
        has_prefix(name + (seq![' '] + value), name),
        after_prefix(name + (seq![' '] + value), name) == Some(seq![' '] + value),
        trimmed(seq![' '] + value) == value,
{
    let blank = seq![' '];
    let line = name + (blank + value);
    assert(line.subrange(0, name.len() as int) =~= name);
    assert(line.skip(name.len() as int) =~= blank + value);
    trimming_takes_the_space_around(blank, value, Seq::empty());
    assert(blank + value + Seq::<char>::empty() =~= blank + value);
}

/// The older name of the estimate has a line of its own.
#[verifier::rlimit(50)]
pub proof fn named_estimates_are_read(scan: ScanView, n: nat)
    requires
        n <= u64::MAX,
    ensures
        with_line(scan, "Estimated Cardinality: "@ + decimal(n)) == (ScanView {
            estimated_rows: Some(n as u64),
            ..scan
        }),
{
    let d = decimal(n);
    decimal_reads_back(n);
    lemma_count_text(n);
    assert(is_digit(d[0]) && is_digit(d[d.len() - 1]));
    reveal_strlit("Estimated Cardinality:");
    reveal_strlit("Estimated Cardinality: ");
    let name = "Estimated Cardinality:"@;
    let blank = seq![' '];
    assert("Estimated Cardinality: "@ =~= name + blank);
    let line = "Estimated Cardinality: "@ + d;
    assert(line[0] == 'E');
    lemma_line_names(line);
    lemma_behind_name(name, d);
    assert(line =~= name + (blank + d));
}

/// The number of files that were read has a line of its own.
#[verifier::rlimit(50)]
pub proof fn file_counts_are_read(scan: ScanView, n: nat)
    requires
        n <= u64::MAX,
    ensures
        with_line(scan, "Total Files Read: "@ + decimal(n)) == (ScanView {
            files_read: Some(n as u64),
            ..scan
        }),
{
    let d = decimal(n);
    decimal_reads_back(n);
    lemma_count_text(n);
    assert(is_digit(d[0]) && is_digit(d[d.len() - 1]));
    reveal_strlit("Total Files Read:");
    reveal_strlit("Total Files Read: ");
    let name = "Total Files Read:"@;
    let blank = seq![' '];
    assert("Total Files Read: "@ =~= name + blank);
    let line = "Total Files Read: "@ + d;
    assert(line[0] == 'T');
    lemma_line_names(line);
    lemma_behind_name(name, d);
    assert(line =~= name + (blank + d));
}

/// A projection line adds the columns that it lists.
pub proof fn projection_lines_add_columns(scan: ScanView, list: Seq<char>)
    ensures
        with_line(scan, "Projections:"@ + list) == (ScanView {
            projections: scan.projections + comma_items(list),
            ..scan
        }),
        comma_items(list) == non_empty(all_trimmed(split_on(list, ","@))),
{
    reveal_strlit("Filters:");
    reveal_strlit("Projections:");
    let line = "Projections:"@ + list;
    assert(line.subrange(0, 12) =~= "Projections:"@);
    assert(line.skip(12) =~= list);
    if has_prefix(line, "Filters:"@) {
        assert(line.subrange(0, 8)[0] == 'F');
        assert(line[0] == 'P');
    }
}

/// Blank lines of a plan say nothing. A label in capitals ends the box before it, and
/// opens one for a scan where it is a scan's label; behind the name of a field it
/// is a value. Other lines belong to the open scan, if there is one.
#[verifier::rlimit(50)]
pub proof fn labels_open_boxes(st: PlanState, line: Seq<char>)
    requires
        is_tight(line),
        forall|k: int| 0 <= k < line.len() ==> !is_box_char(#[trigger] line[k]),
        !has_prefix(line, "Total Time:"@),
    ensures
        plan_step(st, ""@) == st,
        is_label(line) && !st.after_name ==> ({
            let next = plan_step(st, line);
            &&& next.done == (match st.open {
                Some(scan) => st.done.push(scan),
                None => st.done,
            })
            &&& next.open == (if has_text(line, "PARQUET_SCAN"@) || has_text(line, "READ_PARQUET"@)
                || line == "TABLE_SCAN"@ {
                Some(empty_scan())
            } else {
                None
            })
            &&& next.times == st.times
            &&& !next.after_name
        }),
        !is_label(line) || st.after_name ==> ({
            let next = plan_step(st, line);
            &&& next.done == st.done
            &&& next.open == (match st.open {
                Some(scan) => Some(with_line(scan, line)),
                None => None,
            })
            &&& next.times == st.times
            &&& next.after_name == (line[line.len() - 1] == ':')
        }),
{
    reveal_strlit("");
    reveal_strlit(":");
    assert(without_boxes(""@) == ""@);
    assert(trimmed(""@).len() == 0);
    lemma_no_boxes(line);
    assert(trimmed(line) == line);
    assert(line.subrange(line.len() - 1, line.len() as int) =~= seq![line[line.len() - 1]]);
    assert(":"@ =~= seq![':']);
    assert(has_suffix(line, ":"@) == (line[line.len() - 1] == ':')) by {
        if has_suffix(line, ":"@) {
            assert(seq![line[line.len() - 1]][0] == ':');
        }
    }
    if is_label(line) {
        let last = line[line.len() - 1];
        assert(is_capital(last) || last == '_' || is_digit(last));
    }
}

proof fn lemma_no_boxes(s: Seq<char>)
    requires
        forall|k: int| 0 <= k < s.len() ==> !is_box_char(#[trigger] s[k]),
    ensures
        without_boxes(s) == s,
    decreases s.len(),
{
    if s.len() > 0 {
        assert(!is_box_char(s[s.len() - 1]));
        let front = s.drop_last();
        assert forall|k: int| 0 <= k < front.len() implies !is_box_char(#[trigger] front[k]) by {
            assert(front[k] == s[k]);
        }
        lemma_no_boxes(front);
        assert(front.push(s.last()) =~= s);
    }
}

/// The signs that boxes are drawn with are taken out wherever they stand.
pub proof fn boxes_are_taken_out(s: Seq<char>, c: char)
    ensures
        c == '│' || c == '─' || c == '┌' || c == '┐' || c == '└' || c == '┘' || c == '├' || c == '┤'
            || c == '┬' || c == '┴' || c == '┼' ==> without_boxes(s.push(c)) == without_boxes(s),
        '!' <= c && c <= '~' || c == ' ' ==> without_boxes(s.push(c)) == without_boxes(s).push(c),
{
    reveal_strlit("│─┌┐└┘├┤┬┴┼");
    let boxes = "│─┌┐└┘├┤┬┴┼"@;
    assert(boxes[0] == '│' && boxes[1] == '─' && boxes[2] == '┌' && boxes[3] == '┐' && boxes[4]
        == '└' && boxes[5] == '┘' && boxes[6] == '├' && boxes[7] == '┤' && boxes[8] == '┬'
        && boxes[9] == '┴' && boxes[10] == '┼');
    assert(s.push(c).drop_last() =~= s);
    if boxes.contains(c) {
        let k = choose|k: int| 0 <= k < boxes.len() && boxes[k] == c;
        assert(k == 0 || k == 1 || k == 2 || k == 3 || k == 4 || k == 5 || k == 6 || k == 7 || k
            == 8 || k == 9 || k == 10);
    }
}

/// The total time is the text behind its name, without its unit.
#[verifier::rlimit(50)]
pub proof fn total_times_are_read(st: PlanState, time: Seq<char>)
    requires
        is_tight(time),
        time[time.len() - 1] != 's',
        forall|k: int|
            0 <= k < ("Total Time: "@ + time + "s"@).len() ==> !is_box_char(
                #[trigger] ("Total Time: "@ + time + "s"@)[k],
            ),
    ensures
        plan_step(st, "Total Time: "@ + time + "s"@).times == st.times.push(time),
{
    reveal_strlit("Total Time: ");
    reveal_strlit("Total Time:");
    reveal_strlit("s");
    let line = "Total Time: "@ + time + "s"@;
    lemma_no_boxes(line);
    assert(line[0] == 'T' && line[line.len() - 1] == 's');
    assert(trimmed(line) == line);
    assert(line.subrange(0, 11) =~= "Total Time:"@);
    let blank = seq![' '];
    let rest = time + "s"@;
    assert(line.skip(11) =~= blank + rest + Seq::<char>::empty());
    assert(rest[0] == time[0] && rest[rest.len() - 1] == 's');
    trimming_takes_the_space_around(blank, rest, Seq::empty());
    assert(rest.last() == 's');
    assert(rest.drop_last() =~= time);
    assert(time.last() == time[time.len() - 1]);
    assert(without_trailing(rest, 's') == without_trailing(time, 's'));
    assert(without_trailing(time, 's') == time);
    assert(trimmed(time) == time);
}

/// The lines of a plan are read one after the other.
pub proof fn plans_are_read_line_by_line(lines: Seq<Seq<char>>, i: int, st: PlanState)
    requires
        0 <= i < lines.len(),
    ensures
        plan_from(lines, i, st) == plan_from(lines, i + 1, plan_step(st, lines[i])),
        plan_from(lines, lines.len() as int, st) == st,
{
}

/// A partition key that the query does not name gets a hint, one that it names
/// none; the hints follow the keys.
pub proof fn unused_partitions_are_hinted_at(keys: Seq<Seq<char>>, q: Seq<char>, i: int)
    requires
        0 <= i < keys.len(),
    ensures
        has_text(q, "."@ + lowered(keys[i])) ==> partition_hints(keys, q, i) == partition_hints(
            keys,
            q,
            i + 1,
        ),
        !has_text(q, "."@ + lowered(keys[i])) ==> partition_hints(keys, q, i) == seq![
            "💡 add `where ."@ + lowered(keys[i]) + " = …` to prune partitions ("@ + keys[i]
                + "=… in path)"@,
        ] + partition_hints(keys, q, i + 1),
        partition_hints(keys, q, keys.len() as int).len() == 0,
{
}

/// A query with a `where` that no scan applies gets the hint that it did not reach
/// the scans; one without, or with a scan that filters, does not.
pub proof fn unpushed_filters_are_hinted_at(scans: Seq<ScanView>, query: Seq<char>)
    requires
        trimmed(query).len() > 0,
    ensures
        ({
            let asks = has_text(lowered(query), " where "@) || has_prefix(
                lowered(query),
                "where "@,
            );
            let pushed = exists|i: int|
                0 <= i < scans.len() && (#[trigger] scans[i]).filters.len() > 0;
            filter_hint(scans, query) == if asks && !pushed {
                seq![
                    "💡 your `where` clause didn't push to the parquet scan — check column types match"@,
                ]
            } else {
                Seq::empty()
            }
        }),
{
}

/// Scans that read every column for a query without columns get the hint to choose
/// some.
pub proof fn unchosen_columns_are_hinted_at(scans: Seq<ScanView>, query: Seq<char>)
    ensures
        ({
            let chosen = exists|i: int|
                0 <= i < scans.len() && (#[trigger] scans[i]).projections.len() > 0;
            let names = trimmed(query).len() > 0 && query.contains('.');
            projection_hint(scans, query) == if !chosen && !names {
                seq![
                    "💡 select specific columns (`.col1, .col2`) for projection pushdown — scans currently read every field"@,
                ]
            } else {
                Seq::empty()
            }
        }),
{
}

/// An estimate that is ten times too high or too low is hinted at, with the factor
/// and both figures; a closer one is not.
pub proof fn skewed_estimates_are_hinted_at(scan: ScanView, est: u64, act: u64)
    requires
        scan.estimated_rows == Some(est),
        scan.actual_rows == Some(act),
        est > 0,
        act > 0,
    ensures
        act >= 10 * est ==> skew_hint(scan) == seq![
            "💡 estimate skewed "@ + decimal(nearest(act as int, est as int) as nat) + "× (est "@
                + decimal(est as nat) + ", actual "@ + decimal(act as nat)
                + ") — parquet stats may be stale; rewriting the file refreshes them"@,
        ],
        est >= 10 * act ==> skew_hint(scan) == seq![
            "💡 estimate skewed "@ + decimal(nearest(est as int, act as int) as nat) + "× (est "@
                + decimal(est as nat) + ", actual "@ + decimal(act as nat)
                + ") — parquet stats may be stale; rewriting the file refreshes them"@,
        ],
        act < 10 * est && est < 10 * act ==> skew_hint(scan).len() == 0,
{
}

/// Without both figures nothing is said of an estimate.
pub proof fn unmeasured_scans_get_no_figures_hints(scan: ScanView)
    ensures
        scan.estimated_rows is None || scan.actual_rows is None ==> skew_hint(scan).len() == 0,
        scan.files_read is None ==> files_hint(scan).len() == 0,
        scan.rows_scanned is None || scan.file_total_rows is None ==> prune_hint(scan).len() == 0,
{
}

/// Twenty files or more without a filter are hinted at.
pub proof fn many_files_are_hinted_at(scan: ScanView, n: u64)
    requires
        scan.files_read == Some(n),
    ensures
        n >= 20 && scan.filters.len() == 0 ==> files_hint(scan) == seq![
            "💡 scanned "@ + decimal(n as nat)
                + " files with no pushed predicate — add a `where` on a partition column to prune"@,
        ],
        n < 20 || scan.filters.len() > 0 ==> files_hint(scan).len() == 0,
{
}

/// A filter that skipped no row of a million or more is hinted at.
pub proof fn useless_filters_are_hinted_at(scan: ScanView, scanned: u64, total: u64)
    requires
        scan.rows_scanned == Some(scanned),
        scan.file_total_rows == Some(total),
    ensures
        scanned >= total && scan.filters.len() > 0 && total >= 1_000_000 ==> prune_hint(scan)
            == seq![
            "💡 filter `"@ + joined(scan.filters, " AND "@)
                + "` didn't prune any row groups — column may lack min/max stats (common for STRING from older Spark writers)"@,
        ],
        scanned < total || scan.filters.len() == 0 || total < 1_000_000 ==> prune_hint(scan).len()
            == 0,
{
}

/// The hints come in order: partitions, filters, columns, and then, only where the
/// query was measured, those of each scan.
pub proof fn hints_come_in_order(
    scans: Seq<ScanView>,
    file: Seq<char>,
    query: Seq<char>,
    i: int,
)
    requires
        0 <= i < scans.len(),
    ensures
        hints(scans, file, query, false) == partition_hints(hive_keys(file), lowered(query), 0)
            + filter_hint(scans, query) + projection_hint(scans, query),
        hints(scans, file, query, true) == hints(scans, file, query, false) + measured_hints(
            scans,
            0,
        ),
        measured_hints(scans, i) == skew_hint(scans[i]) + files_hint(scans[i]) + prune_hint(
            scans[i],
        ) + measured_hints(scans, i + 1),
        measured_hints(scans, scans.len() as int).len() == 0,
{
    let a = partition_hints(hive_keys(file), lowered(query), 0) + filter_hint(scans, query)
        + projection_hint(scans, query);
    assert(a + Seq::<Seq<char>>::empty() =~= a);
}

/// Labels are made of capitals, digits and underscores, and have a capital.
pub proof fn labels_are_capitals(line: Seq<char>, k: int)
    requires
        0 <= k < line.len(),
    ensures
        'a' <= line[k] && line[k] <= 'z' || line[k] == ' ' || line[k] == ':' ==> !is_label(line),
        (forall|i: int|
            0 <= i < line.len() ==> 'A' <= #[trigger] line[i] && line[i] <= 'Z' || line[i] == '_')
            && 'A' <= line[k] && line[k] <= 'Z' ==> is_label(line),
{
    let c = line[k];
    if is_label(line) {
        assert(is_capital(line[k]) || line[k] == '_' || is_digit(line[k]));
    }
    if 'A' <= c && c <= 'Z' {
        assert(is_capital(line[k]));
    }
}

/// Commas between the digits of a count say nothing.
#[verifier::rlimit(50)]
pub proof fn commas_in_counts_are_passed_over(a: Seq<char>, b: Seq<char>)
    requires
        !a.contains(','),
        !b.contains(','),
    ensures
        count_in(a + ","@ + b) == count_in(a + b),
{
    reveal_strlit(",");
    reveal_strlit("");
    let s = a + ","@ + b;
    assert forall|k: int| 0 <= k < a.len() implies !#[trigger] occurs_at(s, ","@, k) by {
        if occurs_at(s, ","@, k) {
            assert(s.subrange(k, k + 1)[0] == ',');
            assert(s[k] == a[k]);
            assert(a.contains(','));
        }
    }
    occurrences_are_replaced_in_turn(a, ","@, b, ""@);
    let t = a + b;
    assert forall|k: int| !#[trigger] occurs_at(b, ","@, k) by {
        if occurs_at(b, ","@, k) {
            assert(b.subrange(k, k + 1)[0] == ',');
            assert(b.contains(','));
        }
    }
    assert forall|k: int| !#[trigger] occurs_at(t, ","@, k) by {
        if occurs_at(t, ","@, k) {
            assert(t.subrange(k, k + 1)[0] == ',');
            if k < a.len() {
                assert(a[k] == ',');
                assert(a.contains(','));
            } else {
                assert(b[k - a.len()] == ',');
                assert(b.contains(','));
            }
        }
    }
    texts_without_separator_stay_whole(b, ","@, ""@);
    texts_without_separator_stay_whole(t, ","@, ""@);
    assert(a + ""@ + b =~= t);
}

/// Other lines of a scan's box say nothing of it.
pub proof fn other_lines_say_nothing(scan: ScanView, line: Seq<char>)
    requires
        line.len() > 0,
        line[0] != 'F' && line[0] != 'P' && line[0] != 'E' && line[0] != 'T' && line[0] != '~',
        !has_suffix(line, " rows"@),
        !has_suffix(line, " row"@),
    ensures
        with_line(scan, line) == scan,
{
    lemma_line_names(line);
}

} // verus!
