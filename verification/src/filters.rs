//! The filters of a query, for display.
use vstd::prelude::*;

use crate::path::is_tight;
use crate::stage::{pipe_stages, split_pipe_stages};
use crate::text::{
    cat2, chars_of, lower, lowered, occurs_at, substring, texts, trim, trimmed,
    trimming_takes_the_space_around,
};

verus! {

/// An ASCII white space character.
pub open spec fn is_ascii_space(c: char) -> bool {
    c == ' ' || c == '\t' || c == '\n' || c == '\r' || c == '\u{c}'
}

fn ascii_space(c: char) -> (r: bool)
    ensures
        r == is_ascii_space(c),
{
    c == ' ' || c == '\t' || c == '\n' || c == '\r' || c == '\u{c}'
}

/// The word `w`, in any case, stands in `s` at `i`, with white space or the end of
/// the text on both sides.
pub open spec fn word_at(s: Seq<char>, w: Seq<char>, i: int) -> bool {
    &&& occurs_at(lowered(s), lowered(w), i)
    &&& i == 0 || is_ascii_space(s[i - 1])
    &&& i + w.len() >= s.len() || is_ascii_space(s[i + w.len()])
}

/// The first place at or after `i` where the word stands.
pub open spec fn word_from(s: Seq<char>, w: Seq<char>, i: int) -> Option<int>
    decreases s.len() - i,
{
    if i < 0 || i >= s.len() {
        None
    } else if word_at(s, w, i) {
        Some(i)
    } else {
        word_from(s, w, i + 1)
    }
}

/// Finds a word, not empty, in any case.
pub fn find_word(s: &str, w: &str) -> (r: Option<usize>)
    requires
        w@.len() > 0,
    ensures
        match r {
            Some(i) => word_from(s@, w@, 0) == Some(i as int) && i + w@.len() <= s@.len(),
            None => word_from(s@, w@, 0) is None,
        },
{
    let cs = chars_of(s);
    let low = chars_of(lower(s).as_str());
    let ws = chars_of(lower(w).as_str());
    let mut i: usize = 0;
    while i < cs.len()
        invariant
            i <= cs.len(),
            cs@ == s@,
            low@ == lowered(s@),
            ws@ == lowered(w@),
            w@.len() > 0,
            word_from(s@, w@, 0) == word_from(s@, w@, i as int),
        decreases cs.len() - i,
    {
        if crate::text::stands_at(&low, &ws, i) {
            assert(low.len() == cs.len());
            let after: usize = i + ws.len();
            if (i == 0 || ascii_space(cs[i - 1])) && (after >= cs.len() || ascii_space(cs[after])) {
                return Some(i);
            }
        }
        i += 1;
    }
    None
}

/// The filter that a stage holds, none where its keyword has nothing behind it.
/// A filter on groups is marked as such.
pub open spec fn stage_filter(stage: Seq<char>) -> Option<Seq<char>> {
    match word_from(stage, "where"@, 0) {
        Some(i) => {
            let expr = trimmed(stage.skip(i + 5));
            if expr.len() > 0 {
                Some(expr)
            } else {
                None
            }
        },
        None => match word_from(stage, "having"@, 0) {
            Some(i) => {
                let expr = trimmed(stage.skip(i + 6));
                if expr.len() > 0 {
                    Some("(having) "@ + expr)
                } else {
                    None
                }
            },
            None => None,
        },
    }
}

fn filter_of_stage(stage: &str) -> (r: Option<String>)
    ensures
        match r {
            Some(f) => stage_filter(stage@) == Some(f@),
            None => stage_filter(stage@) is None,
        },
{
    let cs = chars_of(stage);
    proof {
        reveal_strlit("where");
        reveal_strlit("having");
    }
    match find_word(stage, "where") {
        Some(i) => {
            assert(i + 5 <= cs.len());
            let expr = trim(substring(&cs, i + 5, cs.len()).as_str());
            if expr.as_str().is_empty() {
                None
            } else {
                Some(expr)
            }
        },
        None => match find_word(stage, "having") {
            Some(i) => {
                assert(i + 6 <= cs.len());
                let expr = trim(substring(&cs, i + 6, cs.len()).as_str());
                if expr.as_str().is_empty() {
                    None
                } else {
                    Some(cat2("(having) ", expr.as_str()))
                }
            },
            None => None,
        },
    }
}

/// The filters of the stages from `i` on, after `acc`.
pub open spec fn filters_from(stages: Seq<Seq<char>>, i: int, acc: Seq<Seq<char>>) -> Seq<
    Seq<char>,
>
    decreases stages.len() - i,
{
    if i < 0 || i >= stages.len() {
        acc
    } else {
        match stage_filter(trimmed(stages[i])) {
            Some(f) => filters_from(stages, i + 1, acc.push(f)),
            None => filters_from(stages, i + 1, acc),
        }
    }
}

/// The filters of a query, stage by stage.
pub open spec fn query_filters(q: Seq<char>) -> Seq<Seq<char>> {
    filters_from(pipe_stages(q), 0, Seq::empty())
}

/// Lists the filters of a query.
pub fn extract_filters(q: &str) -> (r: Vec<String>)
    ensures
        texts(r@) == query_filters(q@),
{
    let stages = split_pipe_stages(q);
    let ghost views = texts(stages@);
    let mut out: Vec<String> = Vec::new();
    let mut i: usize = 0;
    assert(texts(out@) =~= Seq::empty());
    while i < stages.len()
        invariant
            i <= stages.len(),
            views == texts(stages@),
            query_filters(q@) == filters_from(views, i as int, texts(out@)),
        decreases stages.len() - i,
    {
        assert(views[i as int] == stages@[i as int]@);
        let stage = trim(stages[i].as_str());
        if let Some(f) = filter_of_stage(stage.as_str()) {
            proof {
                crate::text::lemma_texts_push(out@, f);
            }
            out.push(f);
        }
        i += 1;
    }
    out
}

// ─── laws ───────────────────────────────────────────────────────────────────
/// A word is found where it stands between white space, in any case, and not as a
/// part of another word.
pub proof fn words_stand_apart(s: Seq<char>, w: Seq<char>, i: int)
    requires
        0 <= i,
        w.len() > 0,
        i + w.len() <= s.len(),
        lowered(s.subrange(i, i + w.len())) == lowered(w),
    ensures
        word_at(s, w, i) == ((i == 0 || s[i - 1] == ' ' || s[i - 1] == '\t' || s[i - 1] == '\n'
            || s[i - 1] == '\r' || s[i - 1] == '\u{c}') && (i + w.len() == s.len() || s[i + w.len()]
            == ' ' || s[i + w.len()] == '\t' || s[i + w.len()] == '\n' || s[i + w.len()] == '\r'
            || s[i + w.len()] == '\u{c}')),
{
    assert(lowered(s).subrange(i, i + w.len()) =~= lowered(s.subrange(i, i + w.len())));
}

proof fn lemma_first_word(s: Seq<char>, w: Seq<char>, i: int, at: int)
    requires
        0 <= i <= at < s.len(),
        word_at(s, w, at),
        forall|k: int| i <= k < at ==> !#[trigger] word_at(s, w, k),
    ensures
        word_from(s, w, i) == Some(at),
    decreases at - i,
{
    if i < at {
        assert(!word_at(s, w, i));
        lemma_first_word(s, w, i + 1, at);
    }
}

/// The filter of a stage is what stands behind its first `where`, or, where there is
/// none, behind its first `having`, and is then marked.
#[verifier::rlimit(50)]
pub proof fn filters_stand_behind_their_word(before: Seq<char>, expr: Seq<char>)
    requires
        is_tight(expr),
        before.len() > 0 ==> before[before.len() - 1] == ' ',
        forall|k: int|
            0 <= k < before.len() ==> !#[trigger] word_at(before + "where "@ + expr, "where"@, k),
        forall|k: int| !#[trigger] word_at(before + "having "@ + expr, "where"@, k),
        forall|k: int|
            0 <= k < before.len() ==> !#[trigger] word_at(before + "having "@ + expr, "having"@, k),
    ensures
        stage_filter(before + "where "@ + expr) == Some(expr),
        stage_filter(before + "having "@ + expr) == Some("(having) "@ + expr),
{
    reveal_strlit("where ");
    reveal_strlit("where");
    reveal_strlit("having ");
    reveal_strlit("having");
    let n = before.len() as int;
    let a = before + "where "@ + expr;
    let b = before + "having "@ + expr;
    let blank = seq![' '];
    assert(a.subrange(n, n + 5) =~= "where"@);
    assert(lowered(a.subrange(n, n + 5)) =~= lowered("where"@));
    if n > 0 {
        assert(a[n - 1] == before[n - 1]);
        assert(b[n - 1] == before[n - 1]);
    }
    assert(a[n + 5] == ' ');
    words_stand_apart(a, "where"@, n);
    lemma_first_word(a, "where"@, 0, n);
    assert(a.skip(n + 5) =~= blank + expr + Seq::<char>::empty());
    trimming_takes_the_space_around(blank, expr, Seq::empty());
    assert(b.subrange(n, n + 6) =~= "having"@);
    assert(lowered(b.subrange(n, n + 6)) =~= lowered("having"@));
    assert(b[n + 6] == ' ');
    words_stand_apart(b, "having"@, n);
    lemma_first_word(b, "having"@, 0, n);
    assert(b.skip(n + 6) =~= blank + expr + Seq::<char>::empty());
    lemma_no_word(b, "where"@, 0);
}

proof fn lemma_no_word(s: Seq<char>, w: Seq<char>, i: int)
    requires
        0 <= i,
        forall|k: int| !#[trigger] word_at(s, w, k),
    ensures
        word_from(s, w, i) is None,
    decreases s.len() - i,
{
    if i < s.len() {
        assert(!word_at(s, w, i));
        lemma_no_word(s, w, i + 1);
    }
}

/// The filters of a query are those of its stages, in order; a stage without one
/// adds none.
pub proof fn filters_are_those_of_the_stages(
    q: Seq<char>,
    stages: Seq<Seq<char>>,
    i: int,
    acc: Seq<Seq<char>>,
)
    requires
        0 <= i < stages.len(),
    ensures
        query_filters(q) == filters_from(pipe_stages(q), 0, Seq::empty()),
        stage_filter(trimmed(stages[i])) matches Some(f) ==> filters_from(stages, i, acc)
            == filters_from(stages, i + 1, acc.push(f)),
        stage_filter(trimmed(stages[i])) is None ==> filters_from(stages, i, acc) == filters_from(
            stages,
            i + 1,
            acc,
        ),
        filters_from(stages, stages.len() as int, acc) == acc,
{
}

} // verus!
