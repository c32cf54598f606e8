//! Completion of column names while a query is typed.
use vstd::prelude::*;

use crate::editor::{before_cursor, editor_text, Editor, EditorView};
use crate::text::{
    chars_of, contains, has_prefix, has_text, is_word, lower, lowered, push_text, starts_with,
    substring, texts, word,
};

verus! {

/// A column of the file.
#[derive(Debug)]
pub struct ColumnInfo {
    pub name: String,
    /// The column's type.
    pub ty: String,
    /// The query names the column.
    pub selected: bool,
}

/// The mathematical value of a `ColumnInfo`.
pub struct ColumnView {
    pub name: Seq<char>,
    pub ty: Seq<char>,
    pub selected: bool,
}

impl View for ColumnInfo {
    type V = ColumnView;

    open spec fn view(&self) -> ColumnView {
        ColumnView { name: self.name@, ty: self.ty@, selected: self.selected }
    }
}

/// The views of a list of columns.
pub open spec fn column_views(v: Seq<ColumnInfo>) -> Seq<ColumnView> {
    Seq::new(v.len(), |i: int| v[i]@)
}

/// The columns that may complete what was typed behind a dot.
#[derive(Debug)]
pub struct Completion {
    /// What was typed behind the dot.
    pub prefix: String,
    /// The place of the dot, in characters.
    pub dot: usize,
    /// The names to choose from.
    pub candidates: Vec<String>,
    /// The name that is chosen.
    pub selected: usize,
}

/// The mathematical value of a `Completion`.
#[verifier::ext_equal]
pub struct CompletionView {
    pub prefix: Seq<char>,
    pub dot: int,
    pub candidates: Seq<Seq<char>>,
    pub selected: int,
}

impl View for Completion {
    type V = CompletionView;

    open spec fn view(&self) -> CompletionView {
        CompletionView {
            prefix: self.prefix@,
            dot: self.dot as int,
            candidates: texts(self.candidates@),
            selected: self.selected as int,
        }
    }
}

// ─── order ──────────────────────────────────────────────────────────────────
/// `a` comes before `b`, both compared from place `i` on, character by character.
pub open spec fn precedes_from(a: Seq<char>, b: Seq<char>, i: int) -> bool
    decreases a.len() - i,
{
    if i < 0 || i >= b.len() {
        false
    } else if i >= a.len() {
        true
    } else if a[i] != b[i] {
        a[i] < b[i]
    } else {
        precedes_from(a, b, i + 1)
    }
}

/// `a` comes before `b` in the order of their characters.
pub open spec fn precedes(a: Seq<char>, b: Seq<char>) -> bool {
    precedes_from(a, b, 0)
}

fn comes_before(a: &str, b: &str) -> (r: bool)
    ensures
        r == precedes(a@, b@),
{
    let x = chars_of(a);
    let y = chars_of(b);
    let mut i: usize = 0;
    loop
        invariant
            i <= x.len(),
            i <= y.len(),
            x@ == a@,
            y@ == b@,
            precedes(a@, b@) == precedes_from(a@, b@, i as int),
        decreases x.len() - i,
    {
        if i >= y.len() {
            return false;
        }
        if i >= x.len() {
            return true;
        }
        if x[i] != y[i] {
            return x[i] < y[i];
        }
        i += 1;
    }
}

/// The place for `x` among the first `n` names: behind all that do not come
/// after it.
pub open spec fn slot(list: Seq<Seq<char>>, x: Seq<char>, n: int) -> int
    decreases n,
{
    if n <= 0 || !precedes(x, list[n - 1]) {
        n
    } else {
        slot(list, x, n - 1)
    }
}

/// The names in order.
pub open spec fn in_order(names: Seq<Seq<char>>) -> Seq<Seq<char>>
    decreases names.len(),
{
    if names.len() == 0 {
        names
    } else {
        let rest = in_order(names.drop_last());
        let x = names.last();
        rest.insert(slot(rest, x, rest.len() as int), x)
    }
}

proof fn lemma_slot_range(list: Seq<Seq<char>>, x: Seq<char>, n: int)
    requires
        0 <= n <= list.len(),
    ensures
        0 <= slot(list, x, n) <= n,
        forall|k: int| slot(list, x, n) <= k < n ==> precedes(x, #[trigger] list[k]),
        slot(list, x, n) > 0 ==> !precedes(x, list[slot(list, x, n) - 1]),
    decreases n,
{
    if n > 0 && precedes(x, list[n - 1]) {
        lemma_slot_range(list, x, n - 1);
    }
}

fn insert_in_order(list: &mut Vec<String>, x: String)
    ensures
        texts(final(list)@) == texts(old(list)@).insert(
            slot(texts(old(list)@), x@, old(list)@.len() as int),
            x@,
        ),
{
    let ghost views = texts(list@);
    let mut n: usize = list.len();
    while n > 0 && comes_before(x.as_str(), list[n - 1].as_str())
        invariant
            n <= list.len(),
            views == texts(list@),
            slot(views, x@, list@.len() as int) == slot(views, x@, n as int),
        decreases n,
    {
        assert(views[n - 1] == list@[n - 1]@);
        n -= 1;
    }
    proof {
        if n > 0 {
            assert(views[n - 1] == list@[n - 1]@);
        }
    }
    let ghost before = list@;
    list.insert(n, x);
    assert(texts(list@) =~= views.insert(n as int, x@));
}

// ─── candidates ─────────────────────────────────────────────────────────────
/// The names of the columns that begin with the prefix, in any case.
pub open spec fn prefix_hits(columns: Seq<ColumnView>, prefix: Seq<char>) -> Seq<Seq<char>>
    decreases columns.len(),
{
    if columns.len() == 0 {
        Seq::empty()
    } else {
        let hits = prefix_hits(columns.drop_last(), prefix);
        if has_prefix(lowered(columns.last().name), lowered(prefix)) {
            hits.push(columns.last().name)
        } else {
            hits
        }
    }
}

/// The names of the columns that hold the prefix, in any case, behind their
/// beginning only.
pub open spec fn inner_hits(columns: Seq<ColumnView>, prefix: Seq<char>) -> Seq<Seq<char>>
    decreases columns.len(),
{
    if columns.len() == 0 {
        Seq::empty()
    } else {
        let hits = inner_hits(columns.drop_last(), prefix);
        let name = lowered(columns.last().name);
        if !has_prefix(name, lowered(prefix)) && has_text(name, lowered(prefix)) {
            hits.push(columns.last().name)
        } else {
            hits
        }
    }
}

/// The names to choose from: those that begin with the prefix, then those that
/// hold it, each group in order.
pub open spec fn candidates_for(columns: Seq<ColumnView>, prefix: Seq<char>) -> Seq<Seq<char>> {
    in_order(prefix_hits(columns, prefix)) + in_order(inner_hits(columns, prefix))
}

fn find_candidates(columns: &Vec<ColumnInfo>, prefix: &str) -> (r: Vec<String>)
    ensures
        texts(r@) == candidates_for(column_views(columns@), prefix@),
{
    let ghost views = column_views(columns@);
    let low = lower(prefix);
    let mut first: Vec<String> = Vec::new();
    let mut second: Vec<String> = Vec::new();
    let mut i: usize = 0;
    assert(texts(first@) =~= in_order(prefix_hits(views.take(0), prefix@)));
    assert(texts(second@) =~= in_order(inner_hits(views.take(0), prefix@)));
    while i < columns.len()
        invariant
            i <= columns.len(),
            views == column_views(columns@),
            low@ == lowered(prefix@),
            texts(first@) == in_order(prefix_hits(views.take(i as int), prefix@)),
            texts(second@) == in_order(inner_hits(views.take(i as int), prefix@)),
        decreases columns.len() - i,
    {
        let ghost t = views.take(i + 1);
        proof {
            assert(t.drop_last() =~= views.take(i as int));
            assert(t.last() == columns@[i as int]@);
            let a = prefix_hits(t.drop_last(), prefix@);
            let b = inner_hits(t.drop_last(), prefix@);
            assert(a.push(t.last().name).drop_last() =~= a);
            assert(b.push(t.last().name).drop_last() =~= b);
            assert(texts(first@).len() == first@.len());
            assert(texts(second@).len() == second@.len());
        }
        let name = lower(columns[i].name.as_str());
        if starts_with(name.as_str(), low.as_str()) {
            insert_in_order(&mut first, columns[i].name.clone());
        } else if contains(name.as_str(), low.as_str()) {
            insert_in_order(&mut second, columns[i].name.clone());
        }
        i += 1;
    }
    assert(views.take(views.len() as int) =~= views);
    let ghost a = first@;
    let ghost b = second@;
    first.append(&mut second);
    assert(texts(a + b) =~= texts(a) + texts(b));
    first
}

// ─── completion ─────────────────────────────────────────────────────────────
/// The start of the name that ends at `i`.
pub open spec fn name_start(s: Seq<char>, i: int) -> int
    decreases i,
{
    if 0 < i <= s.len() && is_word(s[i - 1]) {
        name_start(s, i - 1)
    } else {
        i
    }
}

proof fn lemma_name_start_range(s: Seq<char>, i: int)
    requires
        0 <= i <= s.len(),
    ensures
        0 <= name_start(s, i) <= i,
    decreases i,
{
    if 0 < i && is_word(s[i - 1]) {
        lemma_name_start_range(s, i - 1);
    }
}

/// The completion at place `off` of a text: the cursor stands at the end of a
/// name behind a dot that no other name stands before, and some column matches.
pub open spec fn completion_at(buf: Seq<char>, off: int, columns: Seq<ColumnView>) -> Option<
    CompletionView,
> {
    let start = name_start(buf, off);
    if off <= 0 || off > buf.len() {
        None
    } else if off < buf.len() && is_word(buf[off]) {
        None
    } else if start == off || start == 0 || buf[start - 1] != '.' {
        None
    } else if start > 1 && is_word(buf[start - 2]) {
        None
    } else {
        let prefix = buf.subrange(start, off);
        let candidates = candidates_for(columns, prefix);
        if candidates.len() == 0 {
            None
        } else {
            Some(CompletionView { prefix, dot: start - 1, candidates, selected: 0 })
        }
    }
}

/// The completion for an editor.
pub open spec fn completion_for(e: EditorView, columns: Seq<ColumnView>) -> Option<
    CompletionView,
> {
    completion_at(editor_text(e), before_cursor(e).len() as int, columns)
}

/// Finds the columns that may complete what was typed before the cursor.
pub fn compute_completion(e: &Editor, columns: &Vec<ColumnInfo>) -> (r: Option<Completion>)
    ensures
        match r {
            Some(c) => completion_for(e@, column_views(columns@)) == Some(c@),
            None => completion_for(e@, column_views(columns@)) is None,
        },
{
    let text = e.text();
    let buf = chars_of(text.as_str());
    let off: usize = chars_of(e.text_before_cursor().as_str()).len();
    if off == 0 || off > buf.len() {
        return None;
    }
    if off < buf.len() && word(buf[off]) {
        return None;
    }
    let mut start: usize = off;
    while start > 0 && word(buf[start - 1])
        invariant
            start <= off <= buf.len(),
            name_start(buf@, off as int) == name_start(buf@, start as int),
        decreases start,
    {
        start -= 1;
    }
    if start == off || start == 0 || buf[start - 1] != '.' {
        return None;
    }
    if start > 1 && word(buf[start - 2]) {
        return None;
    }
    let prefix = substring(&buf, start, off);
    let candidates = find_candidates(columns, prefix.as_str());
    assert(texts(candidates@).len() == candidates@.len());
    if candidates.len() == 0 {
        return None;
    }
    Some(Completion { prefix, dot: start - 1, candidates, selected: 0 })
}

/// A text with the chosen name in place of what was typed, none where the place
/// lies outside the text or no name is chosen.
pub open spec fn completed(text: Seq<char>, c: CompletionView) -> Option<Seq<char>> {
    let end = c.dot + 1 + c.prefix.len();
    if 0 <= c.selected < c.candidates.len() && end <= text.len() {
        Some(text.take(c.dot) + "."@ + c.candidates[c.selected] + text.skip(end))
    } else {
        None
    }
}

/// Puts the chosen name in place of what was typed.
pub fn complete(text: &str, c: &Completion) -> (r: Option<String>)
    ensures
        match r {
            Some(t) => completed(text@, c@) == Some(t@),
            None => completed(text@, c@) is None,
        },
{
    let cs = chars_of(text);
    let typed: usize = chars_of(c.prefix.as_str()).len();
    if c.selected >= c.candidates.len() || c.dot >= cs.len() || typed > cs.len() - c.dot - 1 {
        return None;
    }
    let end: usize = c.dot + 1 + typed;
    let mut out = substring(&cs, 0, c.dot);
    assert(out@ =~= text@.take(c.dot as int));
    push_text(&mut out, ".");
    push_text(&mut out, c.candidates[c.selected].as_str());
    let rest = substring(&cs, end, cs.len());
    assert(rest@ =~= text@.skip(end as int));
    push_text(&mut out, rest.as_str());
    Some(out)
}

// ─── laws ───────────────────────────────────────────────────────────────────
/// No name comes before one that stands earlier.
pub open spec fn is_ordered(names: Seq<Seq<char>>) -> bool {
    forall|i: int, j: int|
        0 <= i < j < names.len() ==> !precedes(#[trigger] names[j], #[trigger] names[i])
}

proof fn lemma_precedes_asymmetric(a: Seq<char>, b: Seq<char>, i: int)
    requires
        precedes_from(a, b, i),
    ensures
        !precedes_from(b, a, i),
    decreases a.len() - i,
{
    if 0 <= i < b.len() && i < a.len() && a[i] == b[i] {
        lemma_precedes_asymmetric(a, b, i + 1);
    }
}

proof fn lemma_order_chains(a: Seq<char>, b: Seq<char>, c: Seq<char>, i: int)
    requires
        0 <= i,
        !precedes_from(b, a, i),
        !precedes_from(c, b, i),
        i <= a.len(),
        i <= b.len(),
        i <= c.len(),
    ensures
        !precedes_from(c, a, i),
    decreases a.len() + b.len() + c.len() - 3 * i,
{
    if i < a.len() && i < b.len() && i < c.len() && a[i] == b[i] && b[i] == c[i] {
        lemma_order_chains(a, b, c, i + 1);
    }
}

proof fn lemma_in_order(names: Seq<Seq<char>>)
    ensures
        is_ordered(in_order(names)),
        in_order(names).to_multiset() == names.to_multiset(),
        in_order(names).len() == names.len(),
    decreases names.len(),
{
    if names.len() > 0 {
        let rest = in_order(names.drop_last());
        let x = names.last();
        let n = slot(rest, x, rest.len() as int);
        lemma_in_order(names.drop_last());
        lemma_slot_range(rest, x, rest.len() as int);
        let all = rest.insert(n, x);
        assert forall|i: int, j: int| 0 <= i < j < all.len() implies !precedes(
            #[trigger] all[j],
            #[trigger] all[i],
        ) by {
            if i < n && j < n {
                assert(all[i] == rest[i] && all[j] == rest[j]);
            } else if i < n && j == n {
                assert(all[i] == rest[i]);
                if i < n - 1 {
                    assert(!precedes(rest[n - 1], rest[i]));
                    lemma_order_chains(rest[i], rest[n - 1], x, 0);
                }
            } else if i < n {
                assert(all[i] == rest[i] && all[j] == rest[j - 1]);
            } else if i == n {
                assert(all[j] == rest[j - 1]);
                lemma_precedes_asymmetric(x, rest[j - 1], 0);
            } else {
                assert(all[i] == rest[i - 1] && all[j] == rest[j - 1]);
            }
        }
        broadcast use vstd::seq_lib::group_to_multiset_ensures;

        assert(names =~= names.drop_last().push(x));
        lemma_insert_multiset(rest, n, x);
    }
}

proof fn lemma_insert_multiset(s: Seq<Seq<char>>, n: int, x: Seq<char>)
    requires
        0 <= n <= s.len(),
    ensures
        s.insert(n, x).to_multiset() == s.to_multiset().insert(x),
{
    broadcast use vstd::seq_lib::group_to_multiset_ensures;

    let a = s.take(n);
    let b = s.skip(n);
    assert(s =~= a + b);
    assert(s.insert(n, x) =~= a.push(x) + b);
    vstd::seq_lib::lemma_multiset_commutative(a, b);
    vstd::seq_lib::lemma_multiset_commutative(a.push(x), b);
    assert(a.to_multiset().insert(x).add(b.to_multiset()) =~= a.to_multiset().add(
        b.to_multiset(),
    ).insert(x));
}

/// Putting names in order keeps each of them as often as it was there.
pub proof fn ordering_keeps_the_names(names: Seq<Seq<char>>)
    ensures
        is_ordered(in_order(names)),
        in_order(names).to_multiset() == names.to_multiset(),
{
    lemma_in_order(names);
}

/// The place of a completion is where the dot and the typed text stand, so that
/// the chosen name can always be put there: what stands before the dot and
/// behind the typed text stays.
pub proof fn completion_can_be_accepted(
    buf: Seq<char>,
    off: int,
    columns: Seq<ColumnView>,
    pick: int,
)
    requires
        completion_at(buf, off, columns) is Some,
        0 <= pick < (completion_at(buf, off, columns)->0).candidates.len(),
    ensures
        ({
            let c = completion_at(buf, off, columns)->0;
            let chosen = CompletionView { selected: pick, ..c };
            &&& buf.subrange(c.dot, off) == "."@ + c.prefix
            &&& completed(buf, chosen) == Some(
                buf.take(c.dot) + "."@ + c.candidates[pick] + buf.skip(off),
            )
        }),
{
    let c = completion_at(buf, off, columns)->0;
    lemma_name_start_range(buf, off);
    reveal_strlit(".");
    assert(buf.subrange(c.dot, off) =~= "."@ + c.prefix);
    assert(c.dot + 1 + c.prefix.len() == off);
}

/// Some column has this name and, in any case, holds the typed text.
pub open spec fn matches_column(columns: Seq<ColumnView>, name: Seq<char>, prefix: Seq<char>) -> bool {
    exists|i: int|
        0 <= i < columns.len() && (#[trigger] columns[i]).name == name && has_text(
            lowered(name),
            lowered(prefix),
        )
}

proof fn lemma_hits_match(columns: Seq<ColumnView>, prefix: Seq<char>)
    ensures
        forall|k: int|
            0 <= k < prefix_hits(columns, prefix).len() ==> matches_column(
                columns,
                #[trigger] prefix_hits(columns, prefix)[k],
                prefix,
            ),
        forall|k: int|
            0 <= k < inner_hits(columns, prefix).len() ==> matches_column(
                columns,
                #[trigger] inner_hits(columns, prefix)[k],
                prefix,
            ),
    decreases columns.len(),
{
    if columns.len() > 0 {
        let front = columns.drop_last();
        lemma_hits_match(front, prefix);
        let name = columns.last().name;
        let a = prefix_hits(columns, prefix);
        let b = inner_hits(columns, prefix);
        let last = columns.len() - 1;
        assert(columns[last].name == name);
        if has_prefix(lowered(name), lowered(prefix)) {
            crate::text::lemma_find_from_range(lowered(name), lowered(prefix), 0);
            assert(matches_column(columns, name, prefix));
        } else if has_text(lowered(name), lowered(prefix)) {
            assert(matches_column(columns, name, prefix));
        }
        assert forall|k: int| 0 <= k < a.len() implies matches_column(
            columns,
            #[trigger] a[k],
            prefix,
        ) by {
            if k < prefix_hits(front, prefix).len() {
                let n = prefix_hits(front, prefix)[k];
                assert(a[k] == n);
                let i = choose|i: int|
                    0 <= i < front.len() && (#[trigger] front[i]).name == n && has_text(
                        lowered(n),
                        lowered(prefix),
                    );
                assert(columns[i] == front[i]);
            }
        }
        assert forall|k: int| 0 <= k < b.len() implies matches_column(
            columns,
            #[trigger] b[k],
            prefix,
        ) by {
            if k < inner_hits(front, prefix).len() {
                let n = inner_hits(front, prefix)[k];
                assert(b[k] == n);
                let i = choose|i: int|
                    0 <= i < front.len() && (#[trigger] front[i]).name == n && has_text(
                        lowered(n),
                        lowered(prefix),
                    );
                assert(columns[i] == front[i]);
            }
        }
    }
}

proof fn lemma_in_order_holds(names: Seq<Seq<char>>, k: int)
    requires
        0 <= k < in_order(names).len(),
    ensures
        exists|i: int| 0 <= i < names.len() && #[trigger] names[i] == in_order(names)[k],
{
    lemma_in_order(names);
    broadcast use vstd::seq_lib::group_to_multiset_ensures;

    let x = in_order(names)[k];
    assert(in_order(names).contains(x));
    assert(in_order(names).to_multiset().contains(x));
    assert(names.to_multiset().contains(x));
    assert(names.contains(x));
}

/// Every candidate is a column that holds the typed text.
pub proof fn candidates_match(columns: Seq<ColumnView>, prefix: Seq<char>, k: int)
    requires
        0 <= k < candidates_for(columns, prefix).len(),
    ensures
        matches_column(columns, candidates_for(columns, prefix)[k], prefix),
{
    lemma_hits_match(columns, prefix);
    let a = prefix_hits(columns, prefix);
    let b = inner_hits(columns, prefix);
    if k < in_order(a).len() {
        lemma_in_order_holds(a, k);
        let i = choose|i: int| 0 <= i < a.len() && #[trigger] a[i] == in_order(a)[k];
        assert(matches_column(columns, a[i], prefix));
    } else {
        let m = k - in_order(a).len();
        lemma_in_order_holds(b, m);
        let i = choose|i: int| 0 <= i < b.len() && #[trigger] b[i] == in_order(b)[m];
        assert(matches_column(columns, b[i], prefix));
    }
}

/// Names are compared by their first difference; of two names one of which goes on
/// where the other ends, the shorter comes first.
pub proof fn order_goes_by_the_first_difference(
    common: Seq<char>,
    x: char,
    y: char,
    a: Seq<char>,
    b: Seq<char>,
)
    ensures
        x != y ==> precedes(common + seq![x] + a, common + seq![y] + b) == (x < y),
        precedes(common, common + seq![x] + a),
        !precedes(common + seq![x] + a, common),
        !precedes(common, common),
{
    lemma_common_start(common, common + seq![x] + a, common + seq![y] + b, 0);
    lemma_common_start(common, common, common + seq![x] + a, 0);
    lemma_common_start(common, common + seq![x] + a, common, 0);
    lemma_common_start(common, common, common, 0);
    let n = common.len() as int;
    assert((common + seq![x] + a)[n] == x);
    assert((common + seq![y] + b)[n] == y);
}

proof fn lemma_common_start(common: Seq<char>, s: Seq<char>, t: Seq<char>, i: int)
    requires
        0 <= i <= common.len(),
        common.len() <= s.len(),
        common.len() <= t.len(),
        forall|k: int| 0 <= k < common.len() ==> s[k] == t[k],
    ensures
        precedes_from(s, t, i) == precedes_from(s, t, common.len() as int),
    decreases common.len() - i,
{
    if i < common.len() {
        lemma_common_start(common, s, t, i + 1);
    }
}

/// Every column that begins with the typed text, in any case, is offered, and so is
/// every one that holds it elsewhere; the former come first.
#[verifier::rlimit(50)]
pub proof fn all_matches_are_offered(columns: Seq<ColumnView>, prefix: Seq<char>, i: int)
    requires
        0 <= i < columns.len(),
    ensures
        ({
            let all = candidates_for(columns, prefix);
            let n = prefix_hits(columns, prefix).len() as int;
            let name = columns[i].name;
            &&& n <= all.len()
            &&& has_prefix(lowered(name), lowered(prefix)) ==> exists|k: int|
                0 <= k < n && #[trigger] all[k] == name
            &&& !has_prefix(lowered(name), lowered(prefix)) && has_text(
                lowered(name),
                lowered(prefix),
            ) ==> exists|k: int| n <= k < all.len() && #[trigger] all[k] == name
            &&& forall|k: int|
                0 <= k < n ==> has_prefix(lowered(#[trigger] all[k]), lowered(prefix))
            &&& forall|k: int|
                n <= k < all.len() ==> !has_prefix(lowered(#[trigger] all[k]), lowered(prefix))
        }),
{
    let a = prefix_hits(columns, prefix);
    let b = inner_hits(columns, prefix);
    let all = candidates_for(columns, prefix);
    lemma_hits_are_all(columns, prefix, i);
    lemma_hits_begin(columns, prefix);
    lemma_in_order_len(a);
    lemma_in_order_len(b);
    let name = columns[i].name;
    if a.contains(name) {
        let k = choose|k: int| 0 <= k < a.len() && a[k] == name;
        lemma_in_order_finds(a, k);
        let j = choose|j: int| 0 <= j < in_order(a).len() && #[trigger] in_order(a)[j] == a[k];
        assert(all[j] == name);
    }
    if b.contains(name) {
        let k = choose|k: int| 0 <= k < b.len() && b[k] == name;
        lemma_in_order_finds(b, k);
        let j = choose|j: int| 0 <= j < in_order(b).len() && #[trigger] in_order(b)[j] == b[k];
        assert(all[in_order(a).len() + j] == name);
    }
    assert forall|k: int| 0 <= k < a.len() implies has_prefix(
        lowered(#[trigger] all[k]),
        lowered(prefix),
    ) by {
        lemma_in_order_holds(a, k);
        let j = choose|j: int| 0 <= j < a.len() && #[trigger] a[j] == in_order(a)[k];
        assert(has_prefix(lowered(a[j]), lowered(prefix)));
    }
    assert forall|k: int| a.len() <= k < all.len() implies !has_prefix(
        lowered(#[trigger] all[k]),
        lowered(prefix),
    ) by {
        let m = k - in_order(a).len();
        lemma_in_order_holds(b, m);
        let j = choose|j: int| 0 <= j < b.len() && #[trigger] b[j] == in_order(b)[m];
        assert(!has_prefix(lowered(b[j]), lowered(prefix)));
    }
}

proof fn lemma_in_order_len(names: Seq<Seq<char>>)
    ensures
        in_order(names).len() == names.len(),
    decreases names.len(),
{
    if names.len() > 0 {
        lemma_in_order_len(names.drop_last());
        let rest = in_order(names.drop_last());
        lemma_slot_range(rest, names.last(), rest.len() as int);
    }
}

proof fn lemma_in_order_finds(names: Seq<Seq<char>>, i: int)
    requires
        0 <= i < names.len(),
    ensures
        exists|k: int| 0 <= k < in_order(names).len() && #[trigger] in_order(names)[k] == names[i],
    decreases names.len(),
{
    let front = names.drop_last();
    let rest = in_order(front);
    let x = names.last();
    let s = slot(rest, x, rest.len() as int);
    lemma_slot_range(rest, x, rest.len() as int);
    let all = in_order(names);
    if i < front.len() {
        lemma_in_order_finds(front, i);
        let k = choose|k: int| 0 <= k < rest.len() && #[trigger] rest[k] == front[i];
        if k < s {
            assert(all[k] == rest[k]);
        } else {
            assert(all[k + 1] == rest[k]);
        }
    } else {
        assert(all[s] == x);
    }
}

proof fn lemma_hits_are_all(columns: Seq<ColumnView>, prefix: Seq<char>, i: int)
    requires
        0 <= i < columns.len(),
    ensures
        has_prefix(lowered(columns[i].name), lowered(prefix)) ==> prefix_hits(
            columns,
            prefix,
        ).contains(columns[i].name),
        !has_prefix(lowered(columns[i].name), lowered(prefix)) && has_text(
            lowered(columns[i].name),
            lowered(prefix),
        ) ==> inner_hits(columns, prefix).contains(columns[i].name),
    decreases columns.len(),
{
    let front = columns.drop_last();
    let a = prefix_hits(columns, prefix);
    let b = inner_hits(columns, prefix);
    if i < front.len() {
        lemma_hits_are_all(front, prefix, i);
        let name = columns[i].name;
        assert(front[i] == columns[i]);
        let a0 = prefix_hits(front, prefix);
        let b0 = inner_hits(front, prefix);
        if a0.contains(name) {
            let k = choose|k: int| 0 <= k < a0.len() && a0[k] == name;
            assert(a[k] == name);
        }
        if b0.contains(name) {
            let k = choose|k: int| 0 <= k < b0.len() && b0[k] == name;
            assert(b[k] == name);
        }
    } else {
        let name = columns[i].name;
        assert(columns.last() == columns[i]);
        if has_prefix(lowered(name), lowered(prefix)) {
            assert(a[a.len() - 1] == name);
        } else if has_text(lowered(name), lowered(prefix)) {
            assert(b[b.len() - 1] == name);
        }
    }
}

proof fn lemma_hits_begin(columns: Seq<ColumnView>, prefix: Seq<char>)
    ensures
        forall|k: int|
            0 <= k < prefix_hits(columns, prefix).len() ==> has_prefix(
                lowered(#[trigger] prefix_hits(columns, prefix)[k]),
                lowered(prefix),
            ),
        forall|k: int|
            0 <= k < inner_hits(columns, prefix).len() ==> !has_prefix(
                lowered(#[trigger] inner_hits(columns, prefix)[k]),
                lowered(prefix),
            ),
    decreases columns.len(),
{
    if columns.len() > 0 {
        let front = columns.drop_last();
        lemma_hits_begin(front, prefix);
        let a = prefix_hits(columns, prefix);
        let b = inner_hits(columns, prefix);
        assert forall|k: int| 0 <= k < a.len() implies has_prefix(
            lowered(#[trigger] a[k]),
            lowered(prefix),
        ) by {
            if k < prefix_hits(front, prefix).len() {
                assert(a[k] == prefix_hits(front, prefix)[k]);
            }
        }
        assert forall|k: int| 0 <= k < b.len() implies !has_prefix(
            lowered(#[trigger] b[k]),
            lowered(prefix),
        ) by {
            if k < inner_hits(front, prefix).len() {
                assert(b[k] == inner_hits(front, prefix)[k]);
            }
        }
    }
}

/// Columns are offered behind a dot and at least one character, at the end of a
/// name that no other name stands before, and only there.
#[verifier::rlimit(50)]
pub proof fn columns_are_offered_behind_a_dot(
    before: Seq<char>,
    typed: Seq<char>,
    after: Seq<char>,
    columns: Seq<ColumnView>,
)
    requires
        forall|k: int| 0 <= k < typed.len() ==> is_word(#[trigger] typed[k]),
    ensures
        ({
            let buf = before + "."@ + typed + after;
            let off = (before.len() + 1 + typed.len()) as int;
            let ends = after.len() == 0 || !is_word(after[0]);
            let free = before.len() == 0 || !is_word(before[before.len() - 1]);
            if typed.len() > 0 && ends && free && candidates_for(columns, typed).len() > 0 {
                completion_at(buf, off, columns) == Some(
                    CompletionView {
                        prefix: typed,
                        dot: before.len() as int,
                        candidates: candidates_for(columns, typed),
                        selected: 0,
                    },
                )
            } else {
                completion_at(buf, off, columns) is None
            }
        }),
{
    reveal_strlit(".");
    let buf = before + "."@ + typed + after;
    let n = before.len() as int;
    let off = n + 1 + typed.len();
    assert(buf[n] == '.');
    assert forall|k: int| n + 1 <= k < off implies is_word(#[trigger] buf[k]) by {
        assert(buf[k] == typed[k - n - 1]);
    }
    lemma_name_starts(buf, off, n + 1);
    assert(buf.subrange(n + 1, off) =~= typed);
    if after.len() > 0 {
        assert(buf[off] == after[0]);
    }
    if n > 0 {
        assert(buf[n - 1] == before[n - 1]);
    }
}

proof fn lemma_name_starts(s: Seq<char>, i: int, at: int)
    requires
        0 < at <= i <= s.len(),
        !is_word(s[at - 1]),
        forall|k: int| at <= k < i ==> is_word(#[trigger] s[k]),
    ensures
        name_start(s, i) == at,
    decreases i - at,
{
    if at < i {
        assert(is_word(s[i - 1]));
        lemma_name_starts(s, i - 1, at);
    }
}

} // verus!
