//! The queries of earlier sessions, the newest first.
use vstd::prelude::*;

use crate::text::{
    copy_of, join, joined, joined_texts_split_again, same, split, split_on, texts, trim, trimmed,
};

verus! {

/// How many queries are kept.
pub const HISTORY_MAX: usize = 100;

/// The queries other than `q`, in order.
pub open spec fn without_query(list: Seq<Seq<char>>, q: Seq<char>) -> Seq<Seq<char>>
    decreases list.len(),
{
    if list.len() == 0 {
        list
    } else if list.last() == q {
        without_query(list.drop_last(), q)
    } else {
        without_query(list.drop_last(), q).push(list.last())
    }
}

/// The first queries of a list, as many as are kept.
pub open spec fn capped(list: Seq<Seq<char>>) -> Seq<Seq<char>> {
    if list.len() > 100 {
        list.take(100)
    } else {
        list
    }
}

/// The history with `q` on top, and nowhere else.
pub open spec fn recorded(list: Seq<Seq<char>>, q: Seq<char>) -> Seq<Seq<char>> {
    if list.len() > 0 && list[0] == q {
        list
    } else {
        capped(seq![q] + without_query(list, q))
    }
}

/// Puts a query on top of the history. Returns whether the history changed.
pub fn record_history(list: &mut Vec<String>, q: &str) -> (r: bool)
    ensures
        texts(final(list)@) == recorded(texts(old(list)@), q@),
        r == !(old(list)@.len() > 0 && old(list)@[0]@ == q@),
{
    if list.len() > 0 && same(list[0].as_str(), q) {
        return false;
    }
    let ghost views = texts(list@);
    let mut out: Vec<String> = Vec::new();
    out.push(copy_of(q));
    assert(without_query(views.take(0), q@) =~= Seq::empty());
    assert(texts(out@) =~= seq![q@] + without_query(views.take(0), q@));
    let mut i: usize = 0;
    while i < list.len()
        invariant
            i <= list.len(),
            views == texts(list@),
            list@ == old(list)@,
            texts(out@) == seq![q@] + without_query(views.take(i as int), q@),
        decreases list.len() - i,
    {
        assert(views.take(i + 1).drop_last() =~= views.take(i as int));
        assert(views[i as int] == list@[i as int]@);
        if !same(list[i].as_str(), q) {
            let entry = list[i].clone();
            proof {
                crate::text::lemma_texts_push(out@, entry);
                assert(seq![q@] + without_query(views.take(i as int), q@).push(entry@) =~= (
                seq![q@] + without_query(views.take(i as int), q@)).push(entry@));
            }
            out.push(entry);
        }
        i += 1;
    }
    assert(views.take(views.len() as int) =~= views);
    let ghost all = texts(out@);
    if out.len() > HISTORY_MAX {
        out.truncate(HISTORY_MAX);
        assert(texts(out@) =~= all.take(100));
    }
    *list = out;
    true
}

/// The non-empty lines of a text, trimmed, from line `i` on, after `acc`, up to
/// the number that is kept.
pub open spec fn entries_from(lines: Seq<Seq<char>>, i: int, acc: Seq<Seq<char>>) -> Seq<
    Seq<char>,
>
    decreases lines.len() - i,
{
    if i < 0 || i >= lines.len() || acc.len() >= 100 {
        acc
    } else if trimmed(lines[i]).len() == 0 {
        entries_from(lines, i + 1, acc)
    } else {
        entries_from(lines, i + 1, acc.push(trimmed(lines[i])))
    }
}

/// The history that a file's text holds, one query a line.
pub open spec fn history_in(text: Seq<char>) -> Seq<Seq<char>> {
    entries_from(split_on(text, "\n"@), 0, Seq::empty())
}

/// Reads the history from a file's text.
pub fn parse_history(text: &str) -> (r: Vec<String>)
    ensures
        texts(r@) == history_in(text@),
{
    proof {
        reveal_strlit("\n");
    }
    let lines = split(text, "\n");
    let ghost views = texts(lines@);
    let mut out: Vec<String> = Vec::new();
    let mut i: usize = 0;
    assert(texts(out@) =~= Seq::empty());
    while i < lines.len() && out.len() < HISTORY_MAX
        invariant
            i <= lines.len(),
            views == texts(lines@),
            texts(out@).len() == out@.len(),
            history_in(text@) == entries_from(views, i as int, texts(out@)),
        decreases lines.len() - i,
    {
        assert(views[i as int] == lines@[i as int]@);
        let entry = trim(lines[i].as_str());
        if !entry.as_str().is_empty() {
            proof {
                crate::text::lemma_texts_push(out@, entry);
            }
            out.push(entry);
        }
        i += 1;
    }
    out
}

/// Writes the history as a file's text.
pub fn history_text(list: &Vec<String>) -> (r: String)
    ensures
        r@ == joined(texts(list@), "\n"@),
{
    join(list, "\n")
}

// ─── laws ───────────────────────────────────────────────────────────────────
proof fn lemma_without_query(list: Seq<Seq<char>>, q: Seq<char>)
    ensures
        without_query(list, q).len() <= list.len(),
        forall|i: int|
            0 <= i < without_query(list, q).len() ==> #[trigger] without_query(list, q)[i] != q
                && list.contains(without_query(list, q)[i]),
        list.no_duplicates() ==> without_query(list, q).no_duplicates(),
    decreases list.len(),
{
    if list.len() > 0 {
        let front = list.drop_last();
        lemma_without_query(front, q);
        let rest = without_query(front, q);
        let all = without_query(list, q);
        assert forall|i: int| 0 <= i < all.len() implies #[trigger] all[i] != q && list.contains(
            all[i],
        ) by {
            if i < rest.len() {
                assert(rest[i] == all[i]);
                let k = choose|k: int| 0 <= k < front.len() && front[k] == rest[i];
                assert(list[k] == all[i]);
            } else {
                assert(list[list.len() - 1] == all[i]);
            }
        }
        if list.no_duplicates() {
            assert(front.no_duplicates());
            if list.last() != q {
                assert forall|i: int, j: int|
                    0 <= i < all.len() && 0 <= j < all.len() && i != j implies all[i] != all[j] by {
                    if i < rest.len() && j < rest.len() {
                        assert(rest[i] != rest[j]);
                    } else if i < rest.len() {
                        let k = choose|k: int| 0 <= k < front.len() && front[k] == rest[i];
                        assert(list[k] != list[list.len() - 1]);
                    } else if j < rest.len() {
                        let k = choose|k: int| 0 <= k < front.len() && front[k] == rest[j];
                        assert(list[k] != list[list.len() - 1]);
                    }
                }
            }
        }
    }
}

/// Recording a query puts it on top, keeps every query at most once and the
/// number of queries within bounds.
pub proof fn recording_keeps_order(list: Seq<Seq<char>>, q: Seq<char>)
    requires
        list.no_duplicates(),
        list.len() <= 100,
    ensures
        recorded(list, q).len() > 0,
        recorded(list, q)[0] == q,
        recorded(list, q).no_duplicates(),
        recorded(list, q).len() <= 100,
{
    lemma_without_query(list, q);
    let rest = without_query(list, q);
    let all = seq![q] + rest;
    assert(all.no_duplicates()) by {
        assert forall|i: int, j: int|
            0 <= i < all.len() && 0 <= j < all.len() && i != j implies all[i] != all[j] by {
            if i > 0 && j > 0 {
                assert(rest[i - 1] != rest[j - 1]);
            } else if i > 0 {
                assert(rest[i - 1] != q);
            } else {
                assert(rest[j - 1] != q);
            }
        }
    }
}

/// Recording the same query again changes nothing.
pub proof fn recording_twice_is_recording_once(list: Seq<Seq<char>>, q: Seq<char>)
    requires
        list.no_duplicates(),
        list.len() <= 100,
    ensures
        recorded(recorded(list, q), q) == recorded(list, q),
{
    recording_keeps_order(list, q);
}

/// A query that a line of a file can hold: not empty, without white space at
/// its ends, and on one line.
pub open spec fn fits_a_line(q: Seq<char>) -> bool {
    q.len() > 0 && trimmed(q) == q && !q.contains('\n')
}

proof fn lemma_entries_read_back(lines: Seq<Seq<char>>, i: int)
    requires
        0 <= i <= lines.len() <= 100,
        forall|k: int| 0 <= k < lines.len() ==> fits_a_line(#[trigger] lines[k]),
    ensures
        entries_from(lines, i, lines.take(i)) == lines,
    decreases lines.len() - i,
{
    if i < lines.len() {
        assert(fits_a_line(lines[i]));
        assert(lines.take(i).push(lines[i]) =~= lines.take(i + 1));
        lemma_entries_read_back(lines, i + 1);
    } else {
        assert(lines.take(i) =~= lines);
    }
}

/// A history that was written to a file is read back as it was.
pub proof fn saved_history_reads_back(list: Seq<Seq<char>>)
    requires
        list.len() <= 100,
        forall|k: int| 0 <= k < list.len() ==> fits_a_line(#[trigger] list[k]),
    ensures
        history_in(joined(list, "\n"@)) == list,
{
    reveal_strlit("\n");
    assert("\n"@ =~= seq!['\n']);
    if list.len() > 0 {
        joined_texts_split_again(list, '\n');
        lemma_entries_read_back(list, 0);
        assert(list.take(0) =~= Seq::<Seq<char>>::empty());
    } else {
        let text = joined(list, "\n"@);
        assert(text =~= Seq::empty());
        crate::text::lemma_find_from_range(text, "\n"@, 0);
        let lines = split_on(text, "\n"@);
        assert(lines.len() == 1);
        assert(lines[0] =~= Seq::<char>::empty());
        assert(trimmed(lines[0]) == lines[0]);
        reveal_with_fuel(entries_from, 2);
        assert(list =~= Seq::<Seq<char>>::empty());
    }
}

proof fn lemma_absent_query(list: Seq<Seq<char>>, q: Seq<char>)
    requires
        !list.contains(q),
    ensures
        without_query(list, q) == list,
    decreases list.len(),
{
    if list.len() > 0 {
        let front = list.drop_last();
        assert forall|k: int| 0 <= k < front.len() implies front[k] != q by {
            assert(list[k] == front[k]);
            assert(list.contains(list[k]));
        }
        lemma_absent_query(front, q);
        assert(list.contains(list[list.len() - 1]));
        assert(front.push(list.last()) =~= list);
    }
}

proof fn lemma_query_taken_out(a: Seq<Seq<char>>, q: Seq<char>, b: Seq<Seq<char>>)
    requires
        !a.contains(q),
        !b.contains(q),
    ensures
        without_query(a + seq![q] + b, q) == a + b,
    decreases b.len(),
{
    let list = a + seq![q] + b;
    if b.len() == 0 {
        assert(list.last() == q);
        assert(list.drop_last() =~= a);
        lemma_absent_query(a, q);
        assert(a + b =~= a);
    } else {
        let front = b.drop_last();
        assert forall|k: int| 0 <= k < front.len() implies front[k] != q by {
            assert(b[k] == front[k]);
            assert(b.contains(b[k]));
        }
        assert(list.last() == b.last());
        assert(b.contains(b[b.len() - 1]));
        assert(list.drop_last() =~= a + seq![q] + front);
        lemma_query_taken_out(a, q, front);
        assert((a + front).push(b.last()) =~= a + b);
    }
}

/// A new query goes on top of all others, and the oldest leaves a full history. A
/// query that was there moves to the top from its place. The others stay in order.
pub proof fn recording_moves_to_the_top(a: Seq<Seq<char>>, q: Seq<char>, b: Seq<Seq<char>>)
    requires
        !a.contains(q),
        !b.contains(q),
    ensures
        a.len() < 100 ==> recorded(a, q) == seq![q] + a,
        a.len() >= 100 ==> recorded(a, q) == seq![q] + a.take(99),
        (a + b).len() < 100 ==> recorded(a + seq![q] + b, q) == seq![q] + a + b,
{
    lemma_absent_query(a, q);
    if a.len() > 0 {
        assert(a.contains(a[0]));
    }
    if a.len() >= 100 {
        assert((seq![q] + a).take(100) =~= seq![q] + a.take(99));
    }
    let list = a + seq![q] + b;
    lemma_query_taken_out(a, q, b);
    if a.len() > 0 {
        assert(list[0] == a[0]);
    } else {
        assert(list[0] == q);
        assert(list =~= seq![q] + a + b);
    }
    assert(seq![q] + (a + b) =~= seq![q] + a + b);
}

/// Blank lines of a history file are no queries, other lines are, without the
/// white space around them, and no more than a hundred are read.
pub proof fn history_lines_are_queries(lines: Seq<Seq<char>>, i: int, acc: Seq<Seq<char>>)
    requires
        0 <= i < lines.len(),
    ensures
        trimmed(lines[i]).len() == 0 && acc.len() < 100 ==> entries_from(lines, i, acc)
            == entries_from(lines, i + 1, acc),
        trimmed(lines[i]).len() > 0 && acc.len() < 100 ==> entries_from(lines, i, acc)
            == entries_from(lines, i + 1, acc.push(trimmed(lines[i]))),
        acc.len() == 100 ==> entries_from(lines, i, acc) == acc,
        entries_from(lines, lines.len() as int, acc) == acc,
{
}

} // verus!
