//! Which columns a query speaks of, and where.
//!
//! A forgiving scan for queries that are still being typed: it finds the column
//! references with their byte spans, and the columns that aggregates derive. It
//! never fails, and it looks into no quoted text.
use vstd::prelude::*;
use vstd::utf8::encode_utf8;

use crate::filter::{path_end, paths_go_on_over_names, scan_path_end};
use crate::path::{path_sql, path_to_sql, single_names_stay_as_they_are};
use crate::plan::{aggregate_alias, AggregateView};
use crate::stage::aggregate_of;
use crate::text::{
    cat2, chars_of, copy_of, is_letter, is_space, is_word, letter, lower, lowered, same, space,
    substring, word,
};
use crate::unnest::{alias_safe, safe_alias};

verus! {

/// A column reference in a query.
#[derive(Debug, PartialEq, Eq)]
pub struct ColumnRef {
    /// The column's name: the last of the dotted names.
    pub name: String,
    /// The byte offset of the leading dot.
    pub start: usize,
    /// The byte offset behind the last name.
    pub end: usize,
}

/// A column that an aggregate derives.
#[derive(Debug, PartialEq, Eq)]
pub struct DerivedColumn {
    /// The column's name in the result.
    pub alias: String,
    /// The aggregate's keyword, as written.
    pub agg: String,
    /// The column that is aggregated, none for a count of rows.
    pub source: Option<String>,
}

/// What a scan of a query found.
#[derive(Debug)]
pub struct Lineage {
    pub column_refs: Vec<ColumnRef>,
    pub derived: Vec<DerivedColumn>,
}

/// The mathematical value of a `ColumnRef`.
pub struct RefView {
    pub name: Seq<char>,
    pub start: int,
    pub end: int,
}

/// The mathematical value of a `DerivedColumn`.
pub struct DerivedView {
    pub alias: Seq<char>,
    pub agg: Seq<char>,
    pub source: Option<Seq<char>>,
}

/// The mathematical value of a `Lineage`.
#[verifier::ext_equal]
pub struct LineageView {
    pub refs: Seq<RefView>,
    pub derived: Seq<DerivedView>,
}

impl View for ColumnRef {
    type V = RefView;

    open spec fn view(&self) -> RefView {
        RefView { name: self.name@, start: self.start as int, end: self.end as int }
    }
}

impl View for DerivedColumn {
    type V = DerivedView;

    open spec fn view(&self) -> DerivedView {
        DerivedView {
            alias: self.alias@,
            agg: self.agg@,
            source: match self.source {
                Some(s) => Some(s@),
                None => None,
            },
        }
    }
}

impl View for Lineage {
    type V = LineageView;

    open spec fn view(&self) -> LineageView {
        LineageView {
            refs: Seq::new(self.column_refs@.len(), |i: int| self.column_refs@[i]@),
            derived: Seq::new(self.derived@.len(), |i: int| self.derived@[i]@),
        }
    }
}

// ─── bytes ──────────────────────────────────────────────────────────────────
/// The byte starts a name.
pub open spec fn starts_name(b: u8) -> bool {
    is_letter(b as char) || b == 95
}

/// The byte may stand in a name.
pub open spec fn in_name(b: u8) -> bool {
    is_word(b as char)
}

/// The byte is ASCII white space.
pub open spec fn is_blank(b: u8) -> bool {
    b == 32 || b == 9 || b == 10 || b == 12 || b == 13
}

/// Bytes taken as characters.
pub open spec fn as_chars(b: Seq<u8>) -> Seq<char> {
    Seq::new(b.len(), |i: int| b[i] as char)
}

/// The first position at or after `i` that holds no name byte.
pub open spec fn name_end(b: Seq<u8>, i: int) -> int
    decreases b.len() - i,
{
    if 0 <= i < b.len() && in_name(b[i]) {
        name_end(b, i + 1)
    } else {
        i
    }
}

/// Another dotted name follows the one that ends at `i`.
pub open spec fn dot_follows(b: Seq<u8>, i: int) -> bool {
    0 <= i && i + 1 < b.len() && b[i] == 46 && starts_name(b[i + 1])
}

/// The start of the last name, and the end, of the dotted names that start at `i`.
pub open spec fn dotted_names(b: Seq<u8>, i: int) -> (int, int)
    decreases b.len() - i,
    via dotted_names_decreases
{
    let end = name_end(b, i);
    if dot_follows(b, end) {
        dotted_names(b, end + 1)
    } else {
        (i, end)
    }
}

#[via_fn]
proof fn dotted_names_decreases(b: Seq<u8>, i: int) {
    if 0 <= i {
        lemma_name_end_range(b, i);
    }
}

proof fn lemma_name_end_range(b: Seq<u8>, i: int)
    requires
        0 <= i,
    ensures
        i <= name_end(b, i),
        i <= b.len() ==> name_end(b, i) <= b.len(),
        forall|k: int| i <= k < name_end(b, i) ==> in_name(#[trigger] b[k]),
        name_end(b, i) < b.len() ==> !in_name(b[name_end(b, i)]),
    decreases b.len() - i,
{
    if i < b.len() && in_name(b[i]) {
        lemma_name_end_range(b, i + 1);
    }
}

proof fn lemma_dotted_names_range(b: Seq<u8>, i: int)
    requires
        0 <= i < b.len(),
        starts_name(b[i]),
    ensures
        i <= dotted_names(b, i).0 < dotted_names(b, i).1 <= b.len(),
        !dot_follows(b, dotted_names(b, i).1),
        dotted_names(b, i).1 < b.len() ==> !in_name(b[dotted_names(b, i).1]),
        forall|k: int|
            i <= k < dotted_names(b, i).1 ==> in_name(#[trigger] b[k]) || b[k] == 46,
        forall|k: int|
            dotted_names(b, i).0 <= k < dotted_names(b, i).1 ==> in_name(#[trigger] b[k]),
        forall|k: int|
            i <= k < dotted_names(b, i).1 && #[trigger] b[k] == 46 ==> k + 1 < dotted_names(b, i).1
                && starts_name(b[k + 1]),
        dotted_names(b, i).0 == i || b[dotted_names(b, i).0 - 1] == 46,
    decreases b.len() - i,
{
    let end = name_end(b, i);
    lemma_name_end_range(b, i);
    lemma_name_end_range(b, i + 1);
    assert forall|k: int| i <= k < end implies #[trigger] b[k] != 46 by {
        assert(in_name(b[k]));
    }
    if dot_follows(b, end) {
        lemma_dotted_names_range(b, end + 1);
    }
}

/// The first byte at or after `i` that is no white space.
pub open spec fn next_nonblank(b: Seq<u8>, i: int) -> Option<u8>
    decreases b.len() - i,
{
    if i < 0 || i >= b.len() {
        None
    } else if is_space(b[i] as char) {
        next_nonblank(b, i + 1)
    } else {
        Some(b[i])
    }
}

/// At most one opening parenthesis and ASCII white space: what may stand between
/// an aggregate's keyword and its column.
pub open spec fn is_gap(b: Seq<u8>) -> bool {
    &&& forall|i: int| 0 <= i < b.len() ==> is_blank(#[trigger] b[i]) || b[i] == 40
    &&& forall|i: int, j: int|
        0 <= i < b.len() && 0 <= j < b.len() && #[trigger] b[i] == 40 && #[trigger] b[j] == 40 ==> i
            == j
}

/// A backslash stands at `i` before a double quote or a backslash.
pub open spec fn byte_escape_at(b: Seq<u8>, i: int) -> bool {
    0 <= i && i + 1 < b.len() && b[i] == 92 && (b[i + 1] == 34 || b[i + 1] == 92)
}

// ─── the scan ───────────────────────────────────────────────────────────────
/// The word, in any case, is an aggregate's keyword.
pub open spec fn is_aggregate(w: Seq<char>) -> bool {
    let low = lowered(w);
    ||| low == "sum"@
    ||| low == "avg"@
    ||| low == "min"@
    ||| low == "max"@
    ||| low == "count"@
    ||| low == "count_distinct"@
}

/// The name of the column that an aggregate of a column, given as SQL, gives.
pub open spec fn derived_alias(agg: Seq<char>, column: Seq<char>) -> Seq<char> {
    if lowered(agg) == "count"@ {
        "count"@
    } else {
        lowered(agg) + "_"@ + safe_alias(column)
    }
}

/// The state of a scan: the next position, the quotes that are open there, an
/// aggregate's keyword that waits for its column, with its end, and what was
/// found so far.
pub struct ScanState {
    pub next: int,
    pub single: bool,
    pub double: bool,
    pub pending: Option<(Seq<char>, int)>,
    pub found: LineageView,
}

/// A column reference starts at `i`.
pub open spec fn ref_starts(b: Seq<u8>, i: int) -> bool {
    b[i] == 46 && i + 1 < b.len() && starts_name(b[i + 1])
}

/// A word starts at `i`.
pub open spec fn word_starts(b: Seq<u8>, i: int) -> bool {
    starts_name(b[i]) && (i == 0 || !in_name(b[i - 1]))
}

/// The SQL of the column that an aggregate before the reference from `i` to `end`
/// takes: of the whole path there, with its brackets, or of its names where it is
/// no path.
pub open spec fn aggregated_column(b: Seq<u8>, i: int, end: int) -> Seq<char> {
    let s = as_chars(b);
    match path_sql(s.subrange(i, path_end(s, i))) {
        Ok(sql) => sql,
        Err(_) => as_chars(b.subrange(i + 1, end)),
    }
}

/// The scan after the column reference at `st.next`. It is the argument of a
/// waiting aggregate where only white space, and at most one opening
/// parenthesis, stand between the two.
pub open spec fn after_ref(b: Seq<u8>, st: ScanState) -> ScanState {
    let i = st.next;
    let (last, end) = dotted_names(b, i + 1);
    let name = as_chars(b.subrange(last, end));
    ScanState {
        next: end,
        pending: None,
        found: LineageView {
            refs: st.found.refs.push(RefView { name, start: i, end }),
            derived: match st.pending {
                Some((agg, agg_end)) => if is_aggregate(agg) && is_gap(b.subrange(agg_end, i)) {
                    st.found.derived.push(
                        DerivedView {
                            alias: derived_alias(agg, aggregated_column(b, i, end)),
                            agg,
                            source: Some(name),
                        },
                    )
                } else {
                    st.found.derived
                },
                None => st.found.derived,
            },
        },
        ..st
    }
}

/// The scan after the word at `st.next`. A `count` that no parenthesis follows
/// counts rows; any other aggregate waits for its column.
pub open spec fn after_word(b: Seq<u8>, st: ScanState) -> ScanState {
    let end = name_end(b, st.next);
    let w = as_chars(b.subrange(st.next, end));
    if lowered(w) == "count"@ && next_nonblank(b, end) != Some(40u8) {
        ScanState {
            next: end,
            pending: None,
            found: LineageView {
                derived: st.found.derived.push(
                    DerivedView { alias: "count"@, agg: "count"@, source: None },
                ),
                ..st.found
            },
            ..st
        }
    } else {
        ScanState {
            next: end,
            pending: if is_aggregate(w) {
                Some((w, end))
            } else {
                None
            },
            ..st
        }
    }
}

/// One step of the scan.
pub open spec fn scan_step(b: Seq<u8>, st: ScanState) -> ScanState {
    let i = st.next;
    if st.double && byte_escape_at(b, i) {
        ScanState { next: i + 2, ..st }
    } else if b[i] == 39 && !st.double {
        ScanState { next: i + 1, single: !st.single, ..st }
    } else if b[i] == 34 && !st.single {
        ScanState { next: i + 1, double: !st.double, ..st }
    } else if st.single || st.double {
        ScanState { next: i + 1, ..st }
    } else if ref_starts(b, i) {
        after_ref(b, st)
    } else if word_starts(b, i) {
        after_word(b, st)
    } else {
        ScanState { next: i + 1, ..st }
    }
}

/// What is found once the rest is scanned.
pub open spec fn scan_from(b: Seq<u8>, st: ScanState) -> LineageView
    decreases b.len() - st.next,
    via scan_from_decreases
{
    if st.next < 0 || st.next >= b.len() {
        st.found
    } else {
        scan_from(b, scan_step(b, st))
    }
}

#[via_fn]
proof fn scan_from_decreases(b: Seq<u8>, st: ScanState) {
    if 0 <= st.next < b.len() {
        lemma_scan_step(b, st);
    }
}

proof fn lemma_scan_step(b: Seq<u8>, st: ScanState)
    requires
        0 <= st.next < b.len(),
    ensures
        st.next < scan_step(b, st).next <= b.len(),
{
    let i = st.next;
    if ref_starts(b, i) {
        lemma_dotted_names_range(b, i + 1);
    }
    lemma_name_end_range(b, i);
    lemma_name_end_range(b, i + 1);
}

/// The state before the first byte.
pub open spec fn scan_start() -> ScanState {
    ScanState {
        next: 0,
        single: false,
        double: false,
        pending: None,
        found: LineageView { refs: Seq::empty(), derived: Seq::empty() },
    }
}

/// The lineage of a query, given by its bytes.
pub open spec fn lineage_of(b: Seq<u8>) -> LineageView {
    scan_from(b, scan_start())
}

// ─── executable scan ────────────────────────────────────────────────────────
fn is_name_start(b: u8) -> (r: bool)
    ensures
        r == starts_name(b),
{
    letter(b as char) || b == 95
}

fn is_name_byte(b: u8) -> (r: bool)
    ensures
        r == in_name(b),
{
    word(b as char)
}

fn scan_name(b: &[u8], i: usize) -> (r: usize)
    requires
        i <= b@.len(),
    ensures
        r == name_end(b@, i as int),
        i <= r <= b@.len(),
{
    let mut end: usize = i;
    while end < b.len() && is_name_byte(b[end])
        invariant
            i <= end <= b@.len(),
            name_end(b@, i as int) == name_end(b@, end as int),
        decreases b@.len() - end,
    {
        end += 1;
    }
    end
}

fn dot_name_follows(b: &[u8], i: usize) -> (r: bool)
    requires
        i <= b@.len(),
    ensures
        r == dot_follows(b@, i as int),
{
    b.len() - i > 1 && b[i] == 46 && is_name_start(b[i + 1])
}

fn scan_dotted(b: &[u8], i: usize) -> (r: (usize, usize))
    requires
        i < b@.len(),
        starts_name(b@[i as int]),
    ensures
        r.0 == dotted_names(b@, i as int).0,
        r.1 == dotted_names(b@, i as int).1,
        i <= r.0 < r.1 <= b@.len(),
{
    proof {
        lemma_dotted_names_range(b@, i as int);
    }
    let n: usize = b.len();
    let mut last: usize = i;
    loop
        invariant
            n == b@.len(),
            i <= last < n,
            starts_name(b@[last as int]),
            dotted_names(b@, i as int) == dotted_names(b@, last as int),
            i <= dotted_names(b@, i as int).0 < dotted_names(b@, i as int).1 <= b@.len(),
        decreases b@.len() - last,
    {
        let end = scan_name(b, last);
        if dot_name_follows(b, end) {
            last = end + 1;
        } else {
            return (last, end);
        }
    }
}

fn chars_between(b: &[u8], from: usize, to: usize) -> (r: String)
    requires
        from <= to <= b@.len(),
    ensures
        r@ == as_chars(b@.subrange(from as int, to as int)),
{
    let mut out = String::new();
    let mut i: usize = from;
    let ghost want = as_chars(b@.subrange(from as int, to as int));
    assert(out@ =~= want.take(0));
    while i < to
        invariant
            from <= i <= to <= b@.len(),
            want == as_chars(b@.subrange(from as int, to as int)),
            out@ == want.take(i - from),
        decreases to - i,
    {
        out.push(b[i] as char);
        assert(out@ =~= want.take(i + 1 - from));
        i += 1;
    }
    assert(want.take(to - from) =~= want);
    out
}

fn column_behind(b: &[u8], i: usize, end: usize) -> (r: String)
    requires
        i < end <= b@.len(),
    ensures
        r@ == aggregated_column(b@, i as int, end as int),
{
    let text = chars_between(b, 0, b.len());
    assert(b@.subrange(0, b@.len() as int) =~= b@);
    let cs = chars_of(text.as_str());
    let path = substring(&cs, i, scan_path_end(&cs, i));
    match path_to_sql(path.as_str()) {
        Ok(sql) => sql,
        Err(_) => chars_between(b, i + 1, end),
    }
}

fn is_agg_keyword(w: &str) -> (r: bool)
    ensures
        r == is_aggregate(w@),
{
    let low = lower(w);
    let low = low.as_str();
    same(low, "sum") || same(low, "avg") || same(low, "min") || same(low, "max") || same(
        low,
        "count",
    ) || same(low, "count_distinct")
}

/// The name of the column that an aggregate of a column gives.
pub fn agg_alias(agg: &str, source: &str) -> (r: String)
    ensures
        r@ == derived_alias(agg@, source@),
{
    let low = lower(agg);
    if same(low.as_str(), "count") {
        copy_of("count")
    } else {
        let head = cat2(low.as_str(), "_");
        cat2(head.as_str(), alias_safe(source).as_str())
    }
}

fn column_may_follow(b: &[u8], from: usize, to: usize) -> (r: bool)
    requires
        from <= to <= b@.len(),
    ensures
        r == is_gap(b@.subrange(from as int, to as int)),
{
    let ghost gap = b@.subrange(from as int, to as int);
    let ghost mut paren: int = 0;
    let mut seen = false;
    let mut i: usize = from;
    while i < to
        invariant
            from <= i <= to <= b@.len(),
            gap == b@.subrange(from as int, to as int),
            forall|k: int| 0 <= k < i - from ==> is_blank(#[trigger] gap[k]) || gap[k] == 40,
            seen ==> 0 <= paren < i - from && gap[paren] == 40,
            forall|k: int| 0 <= k < i - from && #[trigger] gap[k] == 40 ==> seen && k == paren,
        decreases to - i,
    {
        let c: u8 = b[i];
        assert(gap[i - from] == c);
        if c == 40 {
            if seen {
                return false;
            }
            seen = true;
            proof {
                paren = i - from;
            }
        } else if !(c == 32 || c == 9 || c == 10 || c == 12 || c == 13) {
            return false;
        }
        i += 1;
    }
    true
}

fn next_nonblank_byte(b: &[u8], start: usize) -> (r: Option<u8>)
    requires
        start <= b@.len(),
    ensures
        r == next_nonblank(b@, start as int),
{
    let mut i: usize = start;
    while i < b.len() && space(b[i] as char)
        invariant
            start <= i <= b@.len(),
            next_nonblank(b@, start as int) == next_nonblank(b@, i as int),
        decreases b@.len() - i,
    {
        i += 1;
    }
    if i < b.len() {
        Some(b[i])
    } else {
        None
    }
}

/// Scans a query for its columns.
pub fn extract(query: &str) -> (r: Lineage)
    ensures
        r@ == lineage_of(encode_utf8(query@)),
{
    let b = query.as_bytes();
    let mut out = Lineage::new();
    let mut i: usize = 0;
    let mut pending: Option<(String, usize)> = None;
    let mut single = false;
    let mut double = false;
    let ghost mut st = scan_start();
    while i < b.len()
        invariant
            i <= b@.len(),
            lineage_of(b@) == scan_from(b@, st),
            st.next == i,
            st.single == single,
            st.double == double,
            st.found == out@,
            match pending {
                Some((w, end)) => st.pending == Some((w@, end as int)) && end <= i,
                None => st.pending is None,
            },
        decreases b@.len() - i,
    {
        let ghost before = st;
        let ghost found = out@;
        proof {
            lemma_scan_step(b@, st);
            st = scan_step(b@, st);
        }
        let c: u8 = b[i];
        if double && c == 92 && b.len() - i > 1 && (b[i + 1] == 34 || b[i + 1] == 92) {
            i += 2;
        } else if c == 39 && !double {
            single = !single;
            i += 1;
        } else if c == 34 && !single {
            double = !double;
            i += 1;
        } else if single || double {
            i += 1;
        } else if c == 46 && b.len() - i > 1 && is_name_start(b[i + 1]) {
            let (last, end) = scan_dotted(b, i + 1);
            let name = chars_between(b, last, end);
            let copy = copy_of(name.as_str());
            let cref = ColumnRef { name: copy, start: i, end };
            let ghost ref_view = cref@;
            out.column_refs.push(cref);
            assert(out@.refs =~= found.refs.push(ref_view));
            assert(out@.derived =~= found.derived);
            if let Some((agg, agg_end)) = pending {
                if is_agg_keyword(agg.as_str()) && column_may_follow(b, agg_end, i) {
                    let column = column_behind(b, i, end);
                    let alias = agg_alias(agg.as_str(), column.as_str());
                    let d = DerivedColumn { alias, agg, source: Some(name) };
                    let ghost d_view = d@;
                    out.derived.push(d);
                    assert(out@.derived =~= found.derived.push(d_view));
                    assert(out@.refs =~= found.refs.push(ref_view));
                }
            }
            pending = None;
            i = end;
            assert(st.found =~= out@);
        } else if is_name_start(c) && (i == 0 || !is_name_byte(b[i - 1])) {
            let end = scan_name(b, i);
            let w = chars_between(b, i, end);
            let count = same(lower(w.as_str()).as_str(), "count");
            if count && next_nonblank_byte(b, end) != Some(40u8) {
                let d = DerivedColumn {
                    alias: copy_of("count"),
                    agg: copy_of("count"),
                    source: None,
                };
                let ghost d_view = d@;
                out.derived.push(d);
                assert(out@.derived =~= found.derived.push(d_view));
                assert(out@.refs =~= found.refs);
                pending = None;
            } else if is_agg_keyword(w.as_str()) {
                pending = Some((w, end));
            } else {
                pending = None;
            }
            i = end;
            assert(st.found =~= out@);
        } else {
            i += 1;
        }
    }
    out
}

// ─── look-ups ───────────────────────────────────────────────────────────────
/// The first reference at or after index `i` whose span, with the place behind
/// it, covers an offset.
pub open spec fn first_covering(refs: Seq<RefView>, offset: int, i: int) -> Option<RefView>
    decreases refs.len() - i,
{
    if i < 0 || i >= refs.len() {
        None
    } else if refs[i].start <= offset <= refs[i].end {
        Some(refs[i])
    } else {
        first_covering(refs, offset, i + 1)
    }
}

/// The column that the first derived column of that name aggregates.
pub open spec fn source_named(derived: Seq<DerivedView>, alias: Seq<char>, i: int) -> Option<
    Seq<char>,
>
    decreases derived.len() - i,
{
    if i < 0 || i >= derived.len() {
        None
    } else if derived[i].alias == alias {
        derived[i].source
    } else {
        source_named(derived, alias, i + 1)
    }
}

impl Lineage {
    /// The lineage of an empty query.
    pub fn new() -> (r: Self)
        ensures
            r@ == (LineageView { refs: Seq::empty(), derived: Seq::empty() }),
    {
        let r = Lineage { column_refs: Vec::new(), derived: Vec::new() };
        assert(r@ =~= (LineageView { refs: Seq::empty(), derived: Seq::empty() }));
        r
    }

    /// The column reference at a byte offset. The place right behind a
    /// reference counts as part of it: a cursor stands there while typing.
    pub fn column_at(&self, byte_offset: usize) -> (r: Option<&ColumnRef>)
        ensures
            match r {
                Some(c) => first_covering(self@.refs, byte_offset as int, 0) == Some(c@),
                None => first_covering(self@.refs, byte_offset as int, 0) is None,
            },
    {
        let mut i: usize = 0;
        while i < self.column_refs.len()
            invariant
                i <= self.column_refs.len(),
                first_covering(self@.refs, byte_offset as int, 0) == first_covering(
                    self@.refs,
                    byte_offset as int,
                    i as int,
                ),
            decreases self.column_refs.len() - i,
        {
            let c = &self.column_refs[i];
            assert(self@.refs[i as int] == c@);
            if c.start <= byte_offset && byte_offset <= c.end {
                return Some(c);
            }
            i += 1;
        }
        None
    }

    /// The column that a derived column aggregates.
    pub fn source_of(&self, alias: &str) -> (r: Option<&str>)
        ensures
            match r {
                Some(s) => source_named(self@.derived, alias@, 0) == Some(s@),
                None => source_named(self@.derived, alias@, 0) is None,
            },
    {
        let mut i: usize = 0;
        while i < self.derived.len()
            invariant
                i <= self.derived.len(),
                source_named(self@.derived, alias@, 0) == source_named(
                    self@.derived,
                    alias@,
                    i as int,
                ),
            decreases self.derived.len() - i,
        {
            let d = &self.derived[i];
            assert(self@.derived[i as int] == d@);
            if same(d.alias.as_str(), alias) {
                return match &d.source {
                    Some(s) => Some(s.as_str()),
                    None => None,
                };
            }
            i += 1;
        }
        None
    }
}

impl Default for Lineage {
    fn default() -> (r: Self)
        ensures
            r@ == (LineageView { refs: Seq::empty(), derived: Seq::empty() }),
    {
        Lineage::new()
    }
}

// ─── laws ───────────────────────────────────────────────────────────────────
/// The single and double quotes that are open before position `i`, and whether a
/// backslash there escapes what follows.
pub open spec fn quotes_at(b: Seq<u8>, i: int) -> (bool, bool, bool)
    decreases i,
{
    if i <= 0 || i > b.len() {
        (false, false, false)
    } else {
        let (single, double, escaped) = quotes_at(b, i - 1);
        if escaped {
            (single, double, false)
        } else if double && byte_escape_at(b, i - 1) {
            (single, double, true)
        } else if b[i - 1] == 39 && !double {
            (!single, double, false)
        } else if b[i - 1] == 34 && !single {
            (single, !double, false)
        } else {
            (single, double, false)
        }
    }
}

/// The reference is a dotted name of the text outside quotes: names with a single
/// dot before each, as far as they go, the last name being the column's.
pub open spec fn is_reference(b: Seq<u8>, r: RefView) -> bool {
    &&& 0 <= r.start < r.end <= b.len()
    &&& b[r.start] == 46
    &&& forall|k: int| r.start < k < r.end ==> in_name(#[trigger] b[k]) || b[k] == 46
    &&& forall|k: int|
        r.start <= k < r.end && #[trigger] b[k] == 46 ==> k + 1 < r.end && starts_name(b[k + 1])
    &&& r.end < b.len() ==> !in_name(b[r.end]) && !dot_follows(b, r.end)
    &&& 0 < r.name.len() < r.end - r.start
    &&& r.name == as_chars(b.subrange(r.end - r.name.len(), r.end))
    &&& b[r.end - r.name.len() - 1] == 46
    &&& forall|k: int| r.end - r.name.len() <= k < r.end ==> in_name(#[trigger] b[k])
    &&& quotes_at(b, r.start) == (false, false, false)
}

/// The references are in order, with something between neighbours.
pub open spec fn apart(refs: Seq<RefView>) -> bool {
    forall|i: int, j: int|
        0 <= i < j < refs.len() ==> #[trigger] refs[i].end < #[trigger] refs[j].start
}

spec fn scanned(b: Seq<u8>, st: ScanState) -> bool {
    &&& 0 <= st.next <= b.len()
    &&& quotes_at(b, st.next) == (st.single, st.double, false)
    &&& !(st.single && st.double)
    &&& forall|i: int| 0 <= i < st.found.refs.len() ==> is_reference(b, #[trigger] st.found.refs[i])
    &&& apart(st.found.refs)
    &&& forall|i: int|
        0 <= i < st.found.refs.len() ==> (#[trigger] st.found.refs[i]).end <= st.next
    &&& forall|i: int|
        0 <= i < st.found.refs.len() && (#[trigger] st.found.refs[i]).end == st.next
            ==> st.next < b.len() ==> !ref_starts(b, st.next)
}

proof fn lemma_quotes_unchanged(b: Seq<u8>, from: int, to: int)
    requires
        0 <= from <= to <= b.len(),
        quotes_at(b, from) == (false, false, false),
        forall|k: int| from <= k < to ==> #[trigger] b[k] != 39 && b[k] != 34,
    ensures
        quotes_at(b, to) == quotes_at(b, from),
    decreases to - from,
{
    if from < to {
        lemma_quotes_unchanged(b, from, to - 1);
    }
}

proof fn lemma_scan_step_scanned(b: Seq<u8>, st: ScanState)
    requires
        scanned(b, st),
        st.next < b.len(),
    ensures
        scanned(b, scan_step(b, st)),
{
    let i = st.next;
    let next = scan_step(b, st);
    lemma_scan_step(b, st);
    lemma_name_end_range(b, i);
    if st.double && byte_escape_at(b, i) {
        assert(quotes_at(b, i + 1) == (st.single, st.double, true));
        assert(quotes_at(b, i + 2) == (st.single, st.double, false));
    } else if b[i] == 39 && !st.double || b[i] == 34 && !st.single || st.single || st.double {
    } else if ref_starts(b, i) {
        lemma_dotted_names_range(b, i + 1);
        let (last, end) = dotted_names(b, i + 1);
        assert forall|k: int| i <= k < end implies #[trigger] b[k] != 39 && b[k] != 34 by {
            if k > i {
                assert(in_name(b[k]) || b[k] == 46);
            }
        }
        lemma_quotes_unchanged(b, i, end);
        let r = RefView { name: as_chars(b.subrange(last, end)), start: i, end };
        assert(r.name.len() == end - last);
        assert(is_reference(b, r));
        assert forall|k: int| 0 <= k < next.found.refs.len() implies is_reference(
            b,
            #[trigger] next.found.refs[k],
        ) by {
            if k < st.found.refs.len() {
                assert(next.found.refs[k] == st.found.refs[k]);
            }
        }
        assert forall|x: int, y: int| 0 <= x < y < next.found.refs.len() implies #[trigger] next.found.refs[x].end
            < #[trigger] next.found.refs[y].start by {
            assert(next.found.refs[x] == st.found.refs[x]);
            if y < st.found.refs.len() {
                assert(next.found.refs[y] == st.found.refs[y]);
            }
        }
        assert forall|x: int| 0 <= x < next.found.refs.len() implies (#[trigger] next.found.refs[x]).end
            <= end by {
            if x < st.found.refs.len() {
                assert(next.found.refs[x] == st.found.refs[x]);
            }
        }
    } else if word_starts(b, i) {
        assert forall|k: int| i <= k < next.next implies #[trigger] b[k] != 39 && b[k] != 34 by {
            assert(in_name(b[k]));
        }
        lemma_quotes_unchanged(b, i, next.next);
    }
}

proof fn lemma_scan_from_scanned(b: Seq<u8>, st: ScanState)
    requires
        scanned(b, st),
    ensures
        forall|i: int|
            0 <= i < scan_from(b, st).refs.len() ==> is_reference(
                b,
                #[trigger] scan_from(b, st).refs[i],
            ),
        apart(scan_from(b, st).refs),
    decreases b.len() - st.next,
{
    if st.next < b.len() {
        lemma_scan_step(b, st);
        lemma_scan_step_scanned(b, st);
        lemma_scan_from_scanned(b, scan_step(b, st));
    }
}

/// Every reference of a scan is a dotted name outside quotes, and the
/// references come in order with something between neighbours.
pub proof fn references_are_dotted_names(b: Seq<u8>)
    ensures
        forall|i: int|
            0 <= i < lineage_of(b).refs.len() ==> is_reference(
                b,
                #[trigger] lineage_of(b).refs[i],
            ),
        apart(lineage_of(b).refs),
{
    lemma_scan_from_scanned(b, scan_start());
}

/// At most one reference of a scan covers an offset, and a look-up finds it.
pub proof fn look_up_finds_the_reference(b: Seq<u8>, i: int, offset: int)
    requires
        0 <= i < lineage_of(b).refs.len(),
        lineage_of(b).refs[i].start <= offset <= lineage_of(b).refs[i].end,
    ensures
        first_covering(lineage_of(b).refs, offset, 0) == Some(lineage_of(b).refs[i]),
{
    references_are_dotted_names(b);
    lemma_first_covering(lineage_of(b).refs, offset, 0, i);
}

proof fn lemma_first_covering(refs: Seq<RefView>, offset: int, from: int, i: int)
    requires
        apart(refs),
        0 <= from <= i < refs.len(),
        refs[i].start <= offset <= refs[i].end,
    ensures
        first_covering(refs, offset, from) == Some(refs[i]),
    decreases i - from,
{
    if from < i {
        assert(refs[from].end < refs[i].start);
        lemma_first_covering(refs, offset, from + 1, i);
    }
}

/// The name that a scan gives a derived column is the one that the aggregate's
/// column has in the SQL.
pub proof fn derived_names_are_those_of_the_sql(agg: Seq<char>, col: Seq<char>)
    requires
        is_aggregate(agg),
        lowered(agg) != "count"@,
    ensures
        derived_alias(agg, col) == aggregate_alias(aggregate_of(lowered(agg), col)),
        derived_alias("count"@, col) == aggregate_alias(AggregateView::Count),
{
    reveal_strlit("count");
    reveal_strlit("_");
    reveal_strlit("count_distinct");
    reveal_strlit("count_distinct_");
    reveal_strlit("sum");
    reveal_strlit("sum_");
    reveal_strlit("avg");
    reveal_strlit("avg_");
    reveal_strlit("min");
    reveal_strlit("min_");
    reveal_strlit("max");
    reveal_strlit("max_");
    assert(lowered("count"@) =~= "count"@);
    assert("count_distinct"@ + "_"@ =~= "count_distinct_"@);
    assert("sum"@ + "_"@ =~= "sum_"@);
    assert("avg"@ + "_"@ =~= "avg_"@);
    assert("min"@ + "_"@ =~= "min_"@);
    assert("max"@ + "_"@ =~= "max_"@);
    assert("sum"@.len() == 3 && "avg"@.len() == 3 && "min"@.len() == 3 && "max"@.len() == 3);
    assert("sum"@[0] == 's' && "avg"@[0] == 'a' && "min"@[1] == 'i' && "max"@[1] == 'a');
    assert("min"@[0] == 'm' && "max"@[0] == 'm');
    assert("count_distinct"@.len() == 14);
}

/// A name stands in the text from `i` to `end`, with no further name byte behind it.
pub open spec fn name_stands(b: Seq<u8>, i: int, end: int) -> bool {
    &&& 0 <= i < end <= b.len()
    &&& starts_name(b[i])
    &&& forall|k: int| i <= k < end ==> in_name(#[trigger] b[k])
    &&& end < b.len() ==> !in_name(b[end])
}

proof fn lemma_name_ends(b: Seq<u8>, i: int, end: int)
    requires
        0 <= i <= end <= b.len(),
        forall|k: int| i <= k < end ==> in_name(#[trigger] b[k]),
        end < b.len() ==> !in_name(b[end]),
    ensures
        name_end(b, i) == end,
    decreases end - i,
{
    if i < end {
        assert(in_name(b[i]));
        lemma_name_ends(b, i + 1, end);
    }
}

/// A name byte is an ASCII letter, digit or underscore, and a name starts with no
/// digit.
pub proof fn names_are_made_of_word_bytes(c: u8)
    ensures
        in_name(c) == (97 <= c <= 122 || 65 <= c <= 90 || 48 <= c <= 57 || c == 95),
        starts_name(c) == (97 <= c <= 122 || 65 <= c <= 90 || c == 95),
{
}

#[verifier::rlimit(50)]
proof fn lemma_plain_ref(b: Seq<u8>, dot: int, end: int)
    requires
        0 <= dot,
        b[dot] == 46,
        name_stands(b, dot + 1, end),
        end < b.len() ==> b[end] != 46 && b[end] != 91,
    ensures
        ref_starts(b, dot),
        dotted_names(b, dot + 1) == (dot + 1, end),
        path_end(as_chars(b), dot) == end,
        aggregated_column(b, dot, end) == as_chars(b.subrange(dot + 1, end)),
{
    lemma_name_ends(b, dot + 1, end);
    let s = as_chars(b);
    assert forall|k: int| dot + 1 <= k < end implies is_word(#[trigger] s[k]) || s[k] == '.' by {
        assert(in_name(b[k]));
        assert(s[k] == b[k] as char);
    }
    if end < b.len() {
        assert(s[end] == b[end] as char);
        assert(!is_word(s[end]));
        assert(s[end] != '.' && s[end] != '[');
    }
    paths_go_on_over_names(s, dot + 1, end);
    let name = as_chars(b.subrange(dot + 1, end));
    let path = s.subrange(dot, end);
    reveal_strlit(".");
    assert(path =~= "."@ + name);
    assert forall|k: int| 0 <= k < name.len() implies is_word(#[trigger] name[k]) by {
        assert(in_name(b[dot + 1 + k]));
    }
    single_names_stay_as_they_are(name);
}

/// A dotted name outside quotes is a reference of that name and place. Where no
/// aggregate waits for its column, nothing is derived from it.
pub proof fn dotted_names_are_references(b: Seq<u8>, st: ScanState, end: int)
    requires
        0 <= st.next < b.len(),
        !st.single && !st.double,
        b[st.next] == 46,
        name_stands(b, st.next + 1, end),
        end < b.len() ==> b[end] != 46 && b[end] != 91,
        st.pending is None,
    ensures
        scan_from(b, st) == scan_from(
            b,
            (ScanState {
                next: end,
                found: LineageView {
                    refs: st.found.refs.push(
                        RefView {
                            name: as_chars(b.subrange(st.next + 1, end)),
                            start: st.next,
                            end,
                        },
                    ),
                    ..st.found
                },
                ..st
            }),
        ),
{
    lemma_plain_ref(b, st.next, end);
}

/// Every aggregate of the query language derives a column: behind its keyword, in
/// any case, a column gives a derived column whose source it is, and whose name is
/// that of the aggregate's column in the SQL. An opening parenthesis may stand
/// between the two in place of a blank.
#[verifier::rlimit(50)]
pub proof fn aggregates_derive_their_columns(
    b: Seq<u8>,
    st: ScanState,
    word_end: int,
    end: int,
    keyword: Seq<char>,
)
    requires
        0 <= st.next,
        !st.single && !st.double,
        name_stands(b, st.next, word_end),
        st.next > 0 ==> !in_name(b[st.next - 1]),
        word_end + 1 < b.len(),
        b[word_end] == 32 || b[word_end] == 40,
        b[word_end + 1] == 46,
        name_stands(b, word_end + 2, end),
        end < b.len() ==> b[end] != 46 && b[end] != 91,
        keyword == lowered(as_chars(b.subrange(st.next, word_end))),
        ({
            ||| keyword == "sum"@
            ||| keyword == "avg"@
            ||| keyword == "min"@
            ||| keyword == "max"@
            ||| keyword == "count_distinct"@
        }),
    ensures
        ({
            let name = as_chars(b.subrange(word_end + 2, end));
            let derived = DerivedView {
                alias: aggregate_alias(aggregate_of(keyword, name)),
                agg: as_chars(b.subrange(st.next, word_end)),
                source: Some(name),
            };
            scan_from(b, st) == scan_from(
                b,
                (ScanState {
                    next: end,
                    pending: None,
                    found: LineageView {
                        refs: st.found.refs.push(RefView { name, start: word_end + 1, end }),
                        derived: st.found.derived.push(derived),
                    },
                    ..st
                }),
            )
        }),
{
    let i = st.next;
    let word = as_chars(b.subrange(i, word_end));
    let name = as_chars(b.subrange(word_end + 2, end));
    lemma_name_ends(b, i, word_end);
    reveal_strlit("count");
    reveal_strlit("sum");
    reveal_strlit("avg");
    reveal_strlit("min");
    reveal_strlit("max");
    reveal_strlit("count_distinct");
    assert("count"@.len() == 5 && "sum"@.len() == 3 && "avg"@.len() == 3 && "min"@.len() == 3
        && "max"@.len() == 3 && "count_distinct"@.len() == 14);
    assert(keyword != "count"@);
    assert(b[i] != 39 && b[i] != 34 && b[i] != 46);
    assert(word_starts(b, i));
    let at_gap = ScanState { next: word_end, pending: Some((word, word_end)), ..st };
    assert(scan_step(b, st) == at_gap);
    assert(scan_from(b, st) == scan_from(b, at_gap));
    let at_dot = ScanState { next: word_end + 1, pending: Some((word, word_end)), ..st };
    assert(!starts_name(b[word_end]));
    assert(scan_step(b, at_gap) == at_dot);
    assert(scan_from(b, at_gap) == scan_from(b, at_dot));
    lemma_plain_ref(b, word_end + 1, end);
    let gap = b.subrange(word_end, word_end + 1);
    assert(gap[0] == b[word_end]);
    assert(is_gap(gap));
    assert(word =~= as_chars(b.subrange(i, word_end)));
    derived_names_are_those_of_the_sql(word, name);
    assert(lowered(word) == keyword);
    let done = after_ref(b, at_dot);
    assert(scan_step(b, at_dot) == done);
    assert(scan_from(b, at_dot) == scan_from(b, done));
}

/// A `count` that no parenthesis follows counts rows.
pub proof fn bare_count_counts_rows(b: Seq<u8>, st: ScanState, end: int)
    requires
        0 <= st.next,
        !st.single && !st.double,
        name_stands(b, st.next, end),
        st.next > 0 ==> !in_name(b[st.next - 1]),
        lowered(as_chars(b.subrange(st.next, end))) == "count"@,
        end < b.len() ==> b[end] != 40 && !is_space(b[end] as char),
    ensures
        scan_from(b, st) == scan_from(
            b,
            (ScanState {
                next: end,
                pending: None,
                found: LineageView {
                    derived: st.found.derived.push(
                        DerivedView {
                            alias: aggregate_alias(AggregateView::Count),
                            agg: "count"@,
                            source: None,
                        },
                    ),
                    ..st.found
                },
                ..st
            }),
        ),
{
    lemma_name_ends(b, st.next, end);
    assert(word_starts(b, st.next));
}

/// Other words outside quotes say nothing of columns, and an aggregate that waits
/// for its column does not wait beyond them.
pub proof fn other_words_are_passed_over(b: Seq<u8>, st: ScanState, end: int)
    requires
        0 <= st.next,
        !st.single && !st.double,
        name_stands(b, st.next, end),
        st.next > 0 ==> !in_name(b[st.next - 1]),
        ({
            let word = lowered(as_chars(b.subrange(st.next, end)));
            word != "count"@ && word != "sum"@ && word != "avg"@ && word != "min"@ && word
                != "max"@ && word != "count_distinct"@
        }),
    ensures
        scan_from(b, st) == scan_from(b, (ScanState { next: end, pending: None, ..st })),
{
    lemma_name_ends(b, st.next, end);
    assert(word_starts(b, st.next));
}

/// Text in quotes says nothing of columns: there only the quotes count.
pub proof fn quoted_text_is_passed_over(b: Seq<u8>, st: ScanState)
    requires
        0 <= st.next < b.len(),
        st.single != st.double,
    ensures
        st.single ==> scan_from(b, st) == scan_from(
            b,
            (ScanState { next: st.next + 1, single: b[st.next] != 39, ..st }),
        ),
        st.double && b[st.next] != 92 ==> scan_from(b, st) == scan_from(
            b,
            (ScanState { next: st.next + 1, double: b[st.next] != 34, ..st }),
        ),
{
}

/// Quotes open outside quotes, and any other sign is passed over.
pub proof fn signs_are_passed_over(b: Seq<u8>, st: ScanState)
    requires
        0 <= st.next < b.len(),
        !st.single && !st.double,
        !in_name(b[st.next]),
        b[st.next] != 46,
    ensures
        scan_from(b, st) == scan_from(
            b,
            (ScanState {
                next: st.next + 1,
                single: b[st.next] == 39,
                double: b[st.next] == 34,
                ..st
            }),
        ),
{
}

/// A scan starts at the first byte with nothing found, and ends with what was found.
pub proof fn scans_go_from_end_to_end(b: Seq<u8>, st: ScanState)
    ensures
        lineage_of(b) == scan_from(
            b,
            (ScanState {
                next: 0,
                single: false,
                double: false,
                pending: None,
                found: LineageView { refs: Seq::empty(), derived: Seq::empty() },
            }),
        ),
        st.next == b.len() ==> scan_from(b, st) == st.found,
{
}

/// The lineage of a stage with an aggregate of one column: the column, and the
/// derived column with the name that the stage's column has in the SQL.
#[verifier::rlimit(50)]
pub proof fn aggregate_stages_derive_their_column(b: Seq<u8>, word_end: int)
    requires
        0 < word_end,
        word_end + 2 < b.len(),
        name_stands(b, 0, word_end),
        b[word_end] == 32,
        b[word_end + 1] == 46,
        name_stands(b, word_end + 2, b.len() as int),
        ({
            let keyword = lowered(as_chars(b.subrange(0, word_end)));
            keyword == "sum"@ || keyword == "avg"@ || keyword == "min"@ || keyword == "max"@
                || keyword == "count_distinct"@
        }),
    ensures
        ({
            let keyword = lowered(as_chars(b.subrange(0, word_end)));
            let name = as_chars(b.subrange(word_end + 2, b.len() as int));
            let found = lineage_of(b);
            &&& found.refs.len() == 1 && found.refs[0].name == name
            &&& found.derived.len() == 1 && found.derived[0].source == Some(name)
            &&& found.derived[0].alias == keyword + "_"@ + safe_alias(name)
            &&& source_named(found.derived, keyword + "_"@ + safe_alias(name), 0) == Some(name)
        }),
{
    let keyword = lowered(as_chars(b.subrange(0, word_end)));
    let name = as_chars(b.subrange(word_end + 2, b.len() as int));
    aggregates_derive_their_columns(b, scan_start(), word_end, b.len() as int, keyword);
    let word = as_chars(b.subrange(0, word_end));
    reveal_strlit("count");
    reveal_strlit("sum");
    reveal_strlit("avg");
    reveal_strlit("min");
    reveal_strlit("max");
    reveal_strlit("count_distinct");
    assert("count"@.len() == 5 && "sum"@.len() == 3 && "avg"@.len() == 3 && "min"@.len() == 3
        && "max"@.len() == 3 && "count_distinct"@.len() == 14);
    derived_names_are_those_of_the_sql(word, name);
    assert(derived_alias(word, name) == keyword + "_"@ + safe_alias(name));
}

/// A look-up of a derived name gives the source of the first derived column of that
/// name, and none where no column has it.
pub proof fn look_up_finds_the_source(derived: Seq<DerivedView>, alias: Seq<char>, i: int)
    requires
        0 <= i < derived.len(),
        derived[i].alias == alias,
        forall|k: int| 0 <= k < i ==> (#[trigger] derived[k]).alias != alias,
    ensures
        source_named(derived, alias, 0) == derived[i].source,
{
    lemma_source_named(derived, alias, 0, i);
}

proof fn lemma_source_named(derived: Seq<DerivedView>, alias: Seq<char>, from: int, i: int)
    requires
        0 <= from <= i < derived.len(),
        derived[i].alias == alias,
        forall|k: int| 0 <= k < i ==> (#[trigger] derived[k]).alias != alias,
    ensures
        source_named(derived, alias, from) == derived[i].source,
    decreases i - from,
{
    if from < i {
        assert(derived[from].alias != alias);
        lemma_source_named(derived, alias, from + 1, i);
    }
}

/// A name that no derived column has is looked up in vain.
pub proof fn unknown_names_have_no_source(derived: Seq<DerivedView>, alias: Seq<char>, from: int)
    requires
        0 <= from,
        forall|k: int| 0 <= k < derived.len() ==> (#[trigger] derived[k]).alias != alias,
    ensures
        source_named(derived, alias, from) is None,
    decreases derived.len() - from,
{
    if from < derived.len() {
        assert(derived[from].alias != alias);
        unknown_names_have_no_source(derived, alias, from + 1);
    }
}

/// What follows white space is the next sign.
pub proof fn white_space_is_skipped(b: Seq<u8>, i: int)
    requires
        0 <= i < b.len(),
    ensures
        b[i] == 32 ==> next_nonblank(b, i) == next_nonblank(b, i + 1),
        33 <= b[i] <= 126 ==> next_nonblank(b, i) == Some(b[i]),
        next_nonblank(b, b.len() as int) is None,
{
}

/// A `count` counts rows unless a parenthesis follows it, with white space between or
/// without.
pub proof fn counts_without_argument_count_rows(b: Seq<u8>, st: ScanState, end: int)
    requires
        0 <= st.next,
        !st.single && !st.double,
        name_stands(b, st.next, end),
        st.next > 0 ==> !in_name(b[st.next - 1]),
        lowered(as_chars(b.subrange(st.next, end))) == "count"@,
    ensures
        next_nonblank(b, end) != Some(40u8) ==> scan_from(b, st) == scan_from(
            b,
            (ScanState {
                next: end,
                pending: None,
                found: LineageView {
                    derived: st.found.derived.push(
                        DerivedView { alias: "count"@, agg: "count"@, source: None },
                    ),
                    ..st.found
                },
                ..st
            }),
        ),
        next_nonblank(b, end) == Some(40u8) ==> scan_from(b, st) == scan_from(
            b,
            (ScanState {
                next: end,
                pending: Some((as_chars(b.subrange(st.next, end)), end)),
                ..st
            }),
        ),
{
    lemma_name_ends(b, st.next, end);
    assert(word_starts(b, st.next));
}

/// The column of an aggregate is its whole path, with brackets and fields, as SQL.
pub proof fn aggregated_columns_are_whole_paths(b: Seq<u8>, i: int, end: int, path_end_at: int)
    requires
        0 <= i < path_end_at <= b.len(),
        path_end(as_chars(b), i) == path_end_at,
        path_sql(as_chars(b).subrange(i, path_end_at)) is Ok,
    ensures
        aggregated_column(b, i, end) == path_sql(as_chars(b).subrange(i, path_end_at))->Ok_0,
{
}

/// An aggregate and its column are one where only white space, and at most one
/// opening parenthesis, stand between them.
pub proof fn gaps_hold_one_parenthesis(c: u8)
    requires
        c != 40 && c != 32 && c != 9 && c != 10 && c != 12 && c != 13,
    ensures
        is_gap(Seq::empty()),
        is_gap(seq![32u8]) && is_gap(seq![40u8]) && is_gap(seq![32u8, 40u8, 32u8]),
        !is_gap(seq![40u8, 40u8]),
        !is_gap(seq![c]) && !is_gap(seq![32u8, c]),
{
    let two = seq![40u8, 40u8];
    assert(two[0] == 40 && two[1] == 40);
    let one = seq![c];
    assert(one[0] == c);
    let other = seq![32u8, c];
    assert(other[1] == c);
    let three = seq![32u8, 40u8, 32u8];
    assert forall|i: int, j: int|
        0 <= i < three.len() && 0 <= j < three.len() && #[trigger] three[i] == 40
            && #[trigger] three[j] == 40 implies i == j by {}
}

/// Signs inside a name, and dots that no name follows, are passed over one by one; in
/// double quotes an escaped sign goes with its backslash.
#[verifier::rlimit(50)]
pub proof fn other_bytes_are_passed_over(b: Seq<u8>, st: ScanState)
    requires
        0 <= st.next < b.len(),
        !(st.single && st.double),
    ensures
        ({
            let i = st.next;
            let next = scan_from(b, (ScanState { next: i + 1, ..st }));
            let outside = !st.single && !st.double;
            let escape = b[i] == 92 && i + 1 < b.len() && (b[i + 1] == 34 || b[i + 1] == 92);
            &&& outside && in_name(b[i]) && (!starts_name(b[i]) || (i > 0 && in_name(b[i - 1])))
                ==> scan_from(b, st) == next
            &&& outside && b[i] == 46 && (i + 1 == b.len() || !starts_name(b[i + 1])) ==> scan_from(
                b,
                st,
            ) == next
            &&& st.double && b[i] == 92 && !escape ==> scan_from(b, st) == next
            &&& st.double && escape ==> scan_from(b, st) == scan_from(
                b,
                (ScanState { next: i + 2, ..st }),
            )
        }),
{
}

/// A reference takes all of its dotted names; an aggregate that waits derives a
/// column from it where nothing but a gap lies between, and waits no longer.
#[verifier::rlimit(50)]
pub proof fn references_end_the_waiting(b: Seq<u8>, st: ScanState)
    requires
        0 <= st.next,
        st.next + 1 < b.len(),
        !st.single && !st.double,
        b[st.next] == 46,
        starts_name(b[st.next + 1]),
    ensures
        ({
            let i = st.next;
            let (last, end) = dotted_names(b, i + 1);
            let name = as_chars(b.subrange(last, end));
            let refs = st.found.refs.push(RefView { name, start: i, end });
            let plain = scan_from(
                b,
                (ScanState {
                    next: end,
                    pending: None,
                    found: LineageView { refs, derived: st.found.derived },
                    ..st
                }),
            );
            &&& st.pending is None ==> scan_from(b, st) == plain
            &&& st.pending matches Some((agg, from)) ==> !is_gap(b.subrange(from, i)) ==> scan_from(
                b,
                st,
            ) == plain
            &&& st.pending matches Some((agg, from)) ==> is_aggregate(agg) && is_gap(
                b.subrange(from, i),
            ) ==> scan_from(b, st) == scan_from(
                b,
                (ScanState {
                    next: end,
                    pending: None,
                    found: LineageView {
                        refs,
                        derived: st.found.derived.push(
                            DerivedView {
                                alias: derived_alias(agg, aggregated_column(b, i, end)),
                                agg,
                                source: Some(name),
                            },
                        ),
                    },
                    ..st
                }),
            )
        }),
{
}

/// Dotted names go on as long as a dot and another name follow; the last one counts.
pub proof fn dotted_names_go_on(b: Seq<u8>, i: int, end: int)
    requires
        name_stands(b, i, end),
    ensures
        end + 1 < b.len() && b[end] == 46 && starts_name(b[end + 1]) ==> dotted_names(b, i)
            == dotted_names(b, end + 1),
        !(end + 1 < b.len() && b[end] == 46 && starts_name(b[end + 1])) ==> dotted_names(b, i) == (
            i,
            end,
        ),
{
    lemma_name_ends(b, i, end);
}

} // verus!
