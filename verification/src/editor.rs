//! The text of a query that is being edited, and where the cursor stands.
use vstd::prelude::*;
use vstd::utf8::encode_utf8;

use crate::text::{chars_of, copy_of, join, joined, push_text, split, split_on, substring, texts};

verus! {

/// Lines of text with a cursor, which is given by its line and the number of
/// characters before it there.
#[derive(Debug)]
pub struct Editor {
    pub lines: Vec<String>,
    pub row: usize,
    pub col: usize,
}

/// The mathematical value of an `Editor`.
#[verifier::ext_equal]
pub struct EditorView {
    pub lines: Seq<Seq<char>>,
    pub row: int,
    pub col: int,
}

impl View for Editor {
    type V = EditorView;

    open spec fn view(&self) -> EditorView {
        EditorView { lines: texts(self.lines@), row: self.row as int, col: self.col as int }
    }
}

/// The text of the lines.
pub open spec fn editor_text(e: EditorView) -> Seq<char> {
    joined(e.lines, "\n"@)
}

/// The first `n` lines, each with its end.
pub open spec fn lines_before(lines: Seq<Seq<char>>, n: int) -> Seq<char>
    decreases n,
{
    if n <= 0 {
        Seq::empty()
    } else {
        lines_before(lines, n - 1) + lines[n - 1] + "\n"@
    }
}

/// The text before the cursor.
pub open spec fn before_cursor(e: EditorView) -> Seq<char> {
    if e.row < e.lines.len() {
        let line = e.lines[e.row];
        lines_before(e.lines, e.row) + if e.col < line.len() {
            line.take(e.col)
        } else {
            line
        }
    } else {
        lines_before(e.lines, e.lines.len() as int)
    }
}

/// A line without a carriage return at its end.
pub open spec fn without_return(line: Seq<char>) -> Seq<char> {
    if line.len() > 0 && line.last() == '\r' {
        line.drop_last()
    } else {
        line
    }
}

/// An editor that holds a text, with the cursor at its end.
pub open spec fn editor_of(text: Seq<char>) -> EditorView {
    let pieces = split_on(text, "\n"@);
    let lines = Seq::new(pieces.len(), |i: int| without_return(pieces[i]));
    EditorView { lines, row: lines.len() - 1, col: lines.last().len() as int }
}

proof fn lemma_split_is_not_empty(s: Seq<char>, sep: Seq<char>)
    requires
        sep.len() > 0,
    ensures
        split_on(s, sep).len() > 0,
{
    crate::text::lemma_find_from_range(s, sep, 0);
}

/// Removes a carriage return at the end of a line.
pub fn strip_return(line: &str) -> (r: String)
    ensures
        r@ == without_return(line@),
{
    let cs = chars_of(line);
    let n: usize = cs.len();
    if n > 0 && cs[n - 1] == '\r' {
        assert(cs@.subrange(0, n - 1) =~= line@.drop_last());
        substring(&cs, 0, n - 1)
    } else {
        copy_of(line)
    }
}

impl Editor {
    /// An editor that holds a text, with the cursor at its end.
    pub fn of(text: &str) -> (r: Self)
        ensures
            r@ == editor_of(text@),
    {
        proof {
            reveal_strlit("\n");
            lemma_split_is_not_empty(text@, "\n"@);
        }
        let pieces = split(text, "\n");
        let ghost views = texts(pieces@);
        let ghost want = editor_of(text@).lines;
        let mut lines: Vec<String> = Vec::new();
        let mut i: usize = 0;
        assert(texts(lines@) =~= want.take(0));
        while i < pieces.len()
            invariant
                i <= pieces.len(),
                views == texts(pieces@),
                views == split_on(text@, "\n"@),
                want == editor_of(text@).lines,
                texts(lines@) == want.take(i as int),
            decreases pieces.len() - i,
        {
            assert(views[i as int] == pieces@[i as int]@);
            let line = strip_return(pieces[i].as_str());
            proof {
                crate::text::lemma_texts_push(lines@, line);
                assert(want.take(i + 1) =~= want.take(i as int).push(line@));
            }
            lines.push(line);
            i += 1;
        }
        assert(want.take(want.len() as int) =~= want);
        assert(texts(lines@).len() == lines@.len());
        let row: usize = lines.len() - 1;
        assert(texts(lines@)[row as int] == lines@[row as int]@);
        let col: usize = chars_of(lines[row].as_str()).len();
        let r = Editor { lines, row, col };
        assert(r@ =~= editor_of(text@));
        r
    }

    /// The text of the lines.
    pub fn text(&self) -> (r: String)
        ensures
            r@ == editor_text(self@),
    {
        join(&self.lines, "\n")
    }

    /// The text before the cursor.
    pub fn text_before_cursor(&self) -> (r: String)
        ensures
            r@ == before_cursor(self@),
    {
        let ghost views = texts(self.lines@);
        let mut out = String::new();
        let mut i: usize = 0;
        assert(out@ =~= Seq::empty());
        while i < self.lines.len()
            invariant
                i <= self.lines.len(),
                i <= self.row || self.row >= self.lines@.len(),
                views == texts(self.lines@),
                out@ == lines_before(views, i as int),
            decreases self.lines.len() - i,
        {
            assert(views[i as int] == self.lines@[i as int]@);
            if i == self.row {
                let cs = chars_of(self.lines[i].as_str());
                let n: usize = if self.col < cs.len() {
                    self.col
                } else {
                    cs.len()
                };
                let part = substring(&cs, 0, n);
                proof {
                    if self.col < cs@.len() {
                        assert(part@ =~= cs@.take(self.col as int));
                    } else {
                        assert(part@ =~= cs@);
                    }
                }
                push_text(&mut out, part.as_str());
                return out;
            }
            push_text(&mut out, self.lines[i].as_str());
            push_text(&mut out, "\n");
            i += 1;
        }
        out
    }
}

/// The place of the cursor in the text, in bytes.
pub fn cursor_byte_offset(e: &Editor) -> (r: usize)
    ensures
        r == encode_utf8(before_cursor(e@)).len(),
{
    let before = e.text_before_cursor();
    before.as_str().as_bytes().len()
}

// ─── laws ───────────────────────────────────────────────────────────────────
proof fn lemma_joined_prefix(lines: Seq<Seq<char>>, n: int)
    requires
        0 <= n < lines.len(),
    ensures
        lines_before(lines, n) + lines[n] == joined(lines.take(n + 1), "\n"@),
    decreases n,
{
    let t = lines.take(n + 1);
    if n == 0 {
        assert(lines_before(lines, 0) + lines[0] =~= t[0]);
    } else {
        lemma_joined_prefix(lines, n - 1);
        assert(t.drop_last() =~= lines.take(n));
        assert(t.last() == lines[n]);
    }
}

proof fn lemma_joined_grows(lines: Seq<Seq<char>>, n: int)
    requires
        0 < n <= lines.len(),
    ensures
        joined(lines.take(n), "\n"@).is_prefix_of(joined(lines, "\n"@)),
    decreases lines.len() - n,
{
    if n == lines.len() {
        assert(lines.take(n) =~= lines);
    } else {
        lemma_joined_grows(lines, n + 1);
        let t = lines.take(n + 1);
        assert(t.drop_last() =~= lines.take(n));
        let a = joined(lines.take(n), "\n"@);
        let b = joined(t, "\n"@);
        let c = joined(lines, "\n"@);
        assert(b == a + "\n"@ + lines[n]);
        assert(a =~= c.subrange(0, a.len() as int)) by {
            assert forall|i: int| 0 <= i < a.len() implies a[i] == c[i] by {
                assert(a[i] == b[i]);
                assert(b[i] == c.subrange(0, b.len() as int)[i]);
            }
        }
    }
}

/// The text before a cursor that stands on a line is where the whole text begins.
pub proof fn cursor_splits_the_text(e: EditorView)
    requires
        0 <= e.row < e.lines.len(),
        0 <= e.col,
    ensures
        before_cursor(e).is_prefix_of(editor_text(e)),
{
    let line = e.lines[e.row];
    let before = before_cursor(e);
    let upto = lines_before(e.lines, e.row) + line;
    lemma_joined_prefix(e.lines, e.row);
    lemma_joined_grows(e.lines, e.row + 1);
    let all = editor_text(e);
    assert(before =~= all.subrange(0, before.len() as int)) by {
        assert forall|i: int| 0 <= i < before.len() implies before[i] == all[i] by {
            assert(before[i] == upto[i]);
            assert(upto[i] == all.subrange(0, upto.len() as int)[i]);
        }
    }
}

/// No line of the text ends with a carriage return.
pub open spec fn ends_lines_plainly(text: Seq<char>) -> bool {
    forall|i: int|
        0 <= i < split_on(text, "\n"@).len() ==> without_return(
            #[trigger] split_on(text, "\n"@)[i],
        ) == split_on(text, "\n"@)[i]
}

/// An editor gives back the text that it was given.
pub proof fn editor_keeps_the_text(text: Seq<char>)
    requires
        ends_lines_plainly(text),
    ensures
        editor_text(editor_of(text)) == text,
{
    reveal_strlit("\n");
    assert(editor_of(text).lines =~= split_on(text, "\n"@));
    crate::text::split_text_joins_again(text, "\n"@);
}

proof fn lemma_lines_before(lines: Seq<Seq<char>>, n: int)
    requires
        0 < n <= lines.len(),
    ensures
        lines_before(lines, n) == joined(lines.take(n), "\n"@) + "\n"@,
    decreases n,
{
    let front = lines.take(n);
    assert(front.last() == lines[n - 1]);
    if n > 1 {
        lemma_lines_before(lines, n - 1);
        assert(front.drop_last() =~= lines.take(n - 1));
    } else {
        assert(lines_before(lines, 0) =~= Seq::empty());
        assert(lines_before(lines, 1) =~= lines[0] + "\n"@);
        assert(joined(front, "\n"@) == lines[0]);
    }
}

/// Before the cursor stand the lines above it, with their ends, and its own line up
/// to its column; at the end of an editor all of its text.
pub proof fn cursor_stands_behind_what_was_typed(e: EditorView, text: Seq<char>)
    requires
        0 <= e.row < e.lines.len(),
        0 <= e.col <= e.lines[e.row].len(),
    ensures
        e.row == 0 ==> before_cursor(e) == e.lines[0].take(e.col),
        e.row > 0 ==> before_cursor(e) == joined(e.lines.take(e.row), "\n"@) + "\n"@
            + e.lines[e.row].take(e.col),
        before_cursor(editor_of(text)) == editor_text(editor_of(text)),
{
    let line = e.lines[e.row];
    assert(line.take(line.len() as int) =~= line);
    if e.row > 0 {
        lemma_lines_before(e.lines, e.row);
    } else {
        assert(lines_before(e.lines, 0) =~= Seq::empty());
        assert(Seq::<char>::empty() + line.take(e.col) =~= line.take(e.col));
    }
    reveal_strlit("\n");
    lemma_split_is_not_empty(text, "\n"@);
    let full = editor_of(text);
    let n = full.lines.len() as int;
    if n > 1 {
        lemma_lines_before(full.lines, n - 1);
        assert(full.lines.drop_last() =~= full.lines.take(n - 1));
    } else {
        assert(lines_before(full.lines, 0) =~= Seq::empty());
        assert(Seq::<char>::empty() + full.lines[0] =~= full.lines[0]);
    }
}

} // verus!
