//! Quoted text, in which a quote is written twice: SQL string literals and the
//! cells of CSV files.
use vstd::prelude::*;

use crate::text::{occurs_at, replace, replaced, replaced_from};

verus! {

/// `s` with every single quote doubled, as it stands between the quotes of a
/// SQL string literal.
pub open spec fn quotes_doubled(s: Seq<char>) -> Seq<char> {
    replaced(s, "'"@, "''"@)
}

/// Doubles the single quotes of `s`.
pub fn sql_escape(s: &str) -> (r: String)
    ensures
        r@ == quotes_doubled(s@),
{
    proof {
        reveal_strlit("'");
    }
    replace(s, "'", "''")
}

/// The text that `s[i..]` stands for between two quotes `q`: each pair of quotes
/// is one quote, and a lone one would end the text.
pub open spec fn quoted_text_from(s: Seq<char>, q: char, i: int) -> Option<Seq<char>>
    decreases s.len() - i,
{
    if i < 0 || i >= s.len() {
        Some(Seq::empty())
    } else if s[i] != q {
        match quoted_text_from(s, q, i + 1) {
            Some(rest) => Some(seq![s[i]] + rest),
            None => None,
        }
    } else if i + 1 < s.len() && s[i + 1] == q {
        match quoted_text_from(s, q, i + 2) {
            Some(rest) => Some(seq![q] + rest),
            None => None,
        }
    } else {
        None
    }
}

/// The text that the body of a SQL string literal stands for.
pub open spec fn literal_text(s: Seq<char>) -> Option<Seq<char>> {
    quoted_text_from(s, '\'', 0)
}

proof fn lemma_quoted_text_shift(a: Seq<char>, b: Seq<char>, q: char, i: int)
    requires
        0 <= i,
    ensures
        quoted_text_from(a + b, q, a.len() + i) == quoted_text_from(b, q, i),
    decreases b.len() - i,
{
    if i < b.len() {
        lemma_quoted_text_shift(a, b, q, i + 1);
        if i + 1 < b.len() {
            lemma_quoted_text_shift(a, b, q, i + 2);
        }
    }
}

proof fn lemma_doubled_tail_reads_back(s: Seq<char>, q: char, i: int)
    requires
        0 <= i <= s.len(),
    ensures
        quoted_text_from(replaced_from(s, seq![q], seq![q, q], i), q, 0) == Some(s.skip(i)),
    decreases s.len() - i,
{
    let e = replaced_from(s, seq![q], seq![q, q], i);
    if i == s.len() {
        assert(s.skip(i) =~= Seq::empty());
    } else {
        let rest = replaced_from(s, seq![q], seq![q, q], i + 1);
        lemma_doubled_tail_reads_back(s, q, i + 1);
        assert(s.subrange(i, i + 1) =~= seq![s[i]]);
        assert(seq![s[i]] + s.skip(i + 1) =~= s.skip(i));
        if s[i] == q {
            assert(occurs_at(s, seq![q], i));
            assert(e == seq![q, q] + rest);
            lemma_quoted_text_shift(seq![q, q], rest, q, 0);
        } else {
            assert(s.subrange(i, i + 1)[0] != seq![q][0]);
            assert(e == seq![s[i]] + rest);
            lemma_quoted_text_shift(seq![s[i]], rest, q, 0);
        }
    }
}

/// A text with its quotes doubled, read between two quotes, is the text.
pub proof fn doubled_text_reads_back(s: Seq<char>, q: char)
    ensures
        quoted_text_from(replaced(s, seq![q], seq![q, q]), q, 0) == Some(s),
{
    lemma_doubled_tail_reads_back(s, q, 0);
    assert(s.skip(0) =~= s);
}

/// The escaped text, read as the body of a SQL string literal, is the text: no
/// text can end the literal that it is put in.
pub proof fn escaped_text_reads_back(s: Seq<char>)
    ensures
        literal_text(quotes_doubled(s)) == Some(s),
{
    reveal_strlit("'");
    reveal_strlit("''");
    assert("'"@ =~= seq!['\'']);
    assert("''"@ =~= seq!['\'', '\'']);
    doubled_text_reads_back(s, '\'');
}

proof fn lemma_replaced_push(s: Seq<char>, c: char, i: int)
    requires
        0 <= i <= s.len(),
    ensures
        replaced_from(s.push(c), "'"@, "''"@, i) == replaced_from(s, "'"@, "''"@, i) + (if c
            == '\'' {
            "''"@
        } else {
            seq![c]
        }),
    decreases s.len() - i,
{
    reveal_strlit("'");
    reveal_strlit("''");
    let t = s.push(c);
    assert("'"@ =~= seq!['\'']);
    let last = if c == '\'' {
        "''"@
    } else {
        seq![c]
    };
    assert(t.subrange(i, i + 1) =~= seq![t[i]]);
    assert(occurs_at(t, "'"@, i) == (t[i] == '\'')) by {
        if t[i] != '\'' {
            assert(t.subrange(i, i + 1)[0] != "'"@[0]);
        }
    }
    if i == s.len() {
        assert(replaced_from(t, "'"@, "''"@, i + 1) =~= Seq::empty());
        assert(replaced_from(s, "'"@, "''"@, i) =~= Seq::empty());
        assert(replaced_from(t, "'"@, "''"@, i) =~= last);
        assert(Seq::<char>::empty() + last =~= last);
    } else {
        lemma_replaced_push(s, c, i + 1);
        assert(s.subrange(i, i + 1) =~= t.subrange(i, i + 1));
        assert(occurs_at(s, "'"@, i) == occurs_at(t, "'"@, i));
        let head = if s[i] == '\'' {
            "''"@
        } else {
            seq![s[i]]
        };
        assert(replaced_from(t, "'"@, "''"@, i) == head + replaced_from(t, "'"@, "''"@, i + 1));
        assert(replaced_from(s, "'"@, "''"@, i) == head + replaced_from(s, "'"@, "''"@, i + 1));
        assert(head + (replaced_from(s, "'"@, "''"@, i + 1) + last) =~= (head + replaced_from(
            s,
            "'"@,
            "''"@,
            i + 1,
        )) + last);
    }
}

/// One more character adds itself, or a pair of quotes.
pub proof fn lemma_quotes_doubled_push(s: Seq<char>, c: char)
    ensures
        quotes_doubled(s.push(c)) == quotes_doubled(s) + (if c == '\'' {
            "''"@
        } else {
            seq![c]
        }),
{
    lemma_replaced_push(s, c, 0);
}

} // verus!
