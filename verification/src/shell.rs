//! Words of a shell command line.
use vstd::prelude::*;

use crate::text::{
    chars_of, contains_char, copy_of, is_space, join, joined, lemma_joined_head, push_text, space,
    texts,
};

verus! {

/// A character that the shell does not take as it stands.
pub open spec fn is_shell_special(c: char) -> bool {
    is_space(c) || "'\"\\$`|&;<>(){}[]*?#"@.contains(c)
}

/// No character is special.
pub open spec fn is_plain_word(s: Seq<char>) -> bool {
    forall|i: int| 0 <= i < s.len() ==> !is_shell_special(#[trigger] s[i])
}

/// `s[i..]` as it stands between single quotes: each quote ends the quoted text,
/// stands for itself behind a backslash, and begins quoted text anew.
pub open spec fn quote_escaped_from(s: Seq<char>, i: int) -> Seq<char>
    decreases s.len() - i,
{
    if i < 0 || i >= s.len() {
        Seq::empty()
    } else if s[i] == '\'' {
        "'\\''"@ + quote_escaped_from(s, i + 1)
    } else {
        seq![s[i]] + quote_escaped_from(s, i + 1)
    }
}

/// A text as one word of a command line: in quotes where it is empty or holds a
/// special character.
pub open spec fn shell_quoted(s: Seq<char>) -> Seq<char> {
    if s.len() == 0 {
        "''"@
    } else if is_plain_word(s) {
        s
    } else {
        "'"@ + quote_escaped_from(s, 0) + "'"@
    }
}

fn plain_word(s: &str) -> (r: bool)
    ensures
        r == is_plain_word(s@),
{
    let cs = chars_of(s);
    let mut i: usize = 0;
    while i < cs.len()
        invariant
            i <= cs.len(),
            cs@ == s@,
            forall|k: int| 0 <= k < i ==> !is_shell_special(#[trigger] s@[k]),
        decreases cs.len() - i,
    {
        if space(cs[i]) || contains_char("'\"\\$`|&;<>(){}[]*?#", cs[i]) {
            assert(is_shell_special(s@[i as int]));
            return false;
        }
        i += 1;
    }
    true
}

/// Quotes a text as one word of a command line.
pub fn shell_quote(s: &str) -> (r: String)
    ensures
        r@ == shell_quoted(s@),
{
    if s.is_empty() {
        return copy_of("''");
    }
    if plain_word(s) {
        return copy_of(s);
    }
    let cs = chars_of(s);
    let mut out = copy_of("'");
    let mut i: usize = 0;
    while i < cs.len()
        invariant
            i <= cs.len(),
            cs@ == s@,
            out@ + quote_escaped_from(s@, i as int) == "'"@ + quote_escaped_from(s@, 0),
        decreases cs.len() - i,
    {
        let ghost before = out@;
        if cs[i] == '\'' {
            push_text(&mut out, "'\\''");
        } else {
            out.push(cs[i]);
        }
        assert(before + quote_escaped_from(s@, i as int) =~= out@ + quote_escaped_from(s@, i + 1));
        i += 1;
    }
    assert(out@ =~= out@ + quote_escaped_from(s@, i as int));
    push_text(&mut out, "'");
    out
}

/// The words of a command line, each quoted.
pub open spec fn quoted_words(words: Seq<Seq<char>>) -> Seq<Seq<char>> {
    Seq::new(words.len(), |i: int| shell_quoted(words[i]))
}

/// The command line of the words.
pub open spec fn command_line(words: Seq<Seq<char>>) -> Seq<char> {
    joined(quoted_words(words), " "@)
}

/// Writes the command line of the words.
pub fn write_command(words: &Vec<String>) -> (r: String)
    ensures
        r@ == command_line(texts(words@)),
{
    let ghost want = quoted_words(texts(words@));
    let mut out: Vec<String> = Vec::new();
    let mut i: usize = 0;
    assert(texts(out@) =~= want.take(0));
    while i < words.len()
        invariant
            i <= words.len(),
            want == quoted_words(texts(words@)),
            texts(out@) == want.take(i as int),
        decreases words.len() - i,
    {
        let word = shell_quote(words[i].as_str());
        proof {
            crate::text::lemma_texts_push(out@, word);
            assert(want.take(i + 1) =~= want.take(i as int).push(word@));
        }
        out.push(word);
        i += 1;
    }
    assert(want.take(want.len() as int) =~= want);
    join(&out, " ")
}

// ─── laws ───────────────────────────────────────────────────────────────────
/// The word that is being read, with one more character.
pub open spec fn grown(word: Option<Seq<char>>, c: char) -> Option<Seq<char>> {
    match word {
        Some(w) => Some(w.push(c)),
        None => Some(seq![c]),
    }
}

/// The words that the shell reads in a command line from `i` on, after `words`:
/// inside single quotes or not, and inside a word or between two. None where the
/// line ends inside quotes, or a special character stands outside them.
pub open spec fn line_words(
    line: Seq<char>,
    i: int,
    quoted: bool,
    word: Option<Seq<char>>,
    words: Seq<Seq<char>>,
) -> Option<Seq<Seq<char>>>
    decreases line.len() - i,
{
    let done = match word {
        Some(w) => words.push(w),
        None => words,
    };
    if i < 0 || i >= line.len() {
        if quoted {
            None
        } else {
            Some(done)
        }
    } else if line[i] == '\'' {
        let begun = match word {
            Some(w) => w,
            None => Seq::empty(),
        };
        line_words(line, i + 1, !quoted, Some(begun), words)
    } else if quoted {
        line_words(line, i + 1, quoted, grown(word, line[i]), words)
    } else if line[i] == ' ' {
        line_words(line, i + 1, quoted, None, done)
    } else if line[i] == '\\' && i + 1 < line.len() {
        line_words(line, i + 2, quoted, grown(word, line[i + 1]), words)
    } else if is_shell_special(line[i]) {
        None
    } else {
        line_words(line, i + 1, quoted, grown(word, line[i]), words)
    }
}

proof fn lemma_plain_run(
    line: Seq<char>,
    from: int,
    i: int,
    end: int,
    words: Seq<Seq<char>>,
)
    requires
        0 <= from <= i <= end <= line.len(),
        from < end,
        forall|k: int| from <= k < end ==> !is_shell_special(#[trigger] line[k]),
    ensures
        line_words(
            line,
            i,
            false,
            if i == from {
                None
            } else {
                Some(line.subrange(from, i))
            },
            words,
        ) == line_words(line, end, false, Some(line.subrange(from, end)), words),
    decreases end - i,
{
    if i < end {
        reveal_strlit("'\"\\$`|&;<>(){}[]*?#");
        let specials = "'\"\\$`|&;<>(){}[]*?#"@;
        assert(specials[0] == '\'' && specials[2] == '\\');
        assert(specials.contains('\'') && specials.contains('\\'));
        assert(!is_shell_special(line[i]));
        assert(line.subrange(from, i).push(line[i]) =~= line.subrange(from, i + 1));
        assert(i == from ==> seq![line[i]] =~= line.subrange(from, i + 1));
        lemma_plain_run(line, from, i + 1, end, words);
    }
}

proof fn lemma_quoted_run(
    line: Seq<char>,
    i: int,
    s: Seq<char>,
    k: int,
    words: Seq<Seq<char>>,
)
    requires
        0 <= k <= s.len(),
        0 <= i,
        i + quote_escaped_from(s, k).len() + 1 <= line.len(),
        line.subrange(i, i + quote_escaped_from(s, k).len() + 1) == quote_escaped_from(s, k)
            + "'"@,
    ensures
        line_words(line, i, true, Some(s.take(k)), words) == line_words(
            line,
            i + quote_escaped_from(s, k).len() + 1,
            false,
            Some(s),
            words,
        ),
    decreases s.len() - k,
{
    reveal_strlit("'");
    reveal_strlit("'\\''");
    let body = quote_escaped_from(s, k) + "'"@;
    let here = line.subrange(i, i + body.len());
    assert(here == body);
    if k == s.len() {
        assert(s.take(k) =~= s);
        assert(line[i] == here[0]);
    } else {
        let rest = quote_escaped_from(s, k + 1);
        let n = body.len() - rest.len() - 1;
        assert(s.take(k).push(s[k]) =~= s.take(k + 1));
        assert(line.subrange(i + n, i + body.len()) =~= here.skip(n));
        assert(body.skip(n) =~= rest + "'"@);
        lemma_quoted_run(line, i + n, s, k + 1, words);
        assert(line[i] == here[0]);
        if s[k] == '\'' {
            assert(line[i + 1] == here[1] && line[i + 2] == here[2] && line[i + 3] == here[3]);
            let w = Some(s.take(k));
            let more = Some(s.take(k + 1));
            assert(line_words(line, i, true, w, words) == line_words(line, i + 1, false, w, words));
            assert(line_words(line, i + 1, false, w, words) == line_words(
                line,
                i + 3,
                false,
                more,
                words,
            ));
            assert(line_words(line, i + 3, false, more, words) == line_words(
                line,
                i + 4,
                true,
                more,
                words,
            ));
        }
    }
}

proof fn lemma_word_is_read(line: Seq<char>, i: int, s: Seq<char>, words: Seq<Seq<char>>)
    requires
        0 <= i,
        i + shell_quoted(s).len() <= line.len(),
        line.subrange(i, i + shell_quoted(s).len()) == shell_quoted(s),
    ensures
        line_words(line, i, false, None, words) == line_words(
            line,
            i + shell_quoted(s).len(),
            false,
            Some(s),
            words,
        ),
{
    reveal_strlit("''");
    reveal_strlit("'");
    let q = shell_quoted(s);
    let here = line.subrange(i, i + q.len());
    let none = Seq::<char>::empty();
    if s.len() == 0 {
        assert(line[i] == here[0] && line[i + 1] == here[1]);
        assert(line_words(line, i, false, None, words) == line_words(
            line,
            i + 1,
            true,
            Some(none),
            words,
        ));
        assert(s =~= none);
    } else if is_plain_word(s) {
        assert forall|k: int| i <= k < i + s.len() implies !is_shell_special(#[trigger] line[k]) by {
            assert(line[k] == here[k - i]);
        }
        lemma_plain_run(line, i, i, i + s.len(), words);
    } else {
        let body = quote_escaped_from(s, 0);
        assert(q =~= "'"@ + (body + "'"@));
        assert(line[i] == here[0]);
        assert(line.subrange(i + 1, i + 1 + body.len() + 1) =~= here.skip(1));
        assert(here.skip(1) =~= body + "'"@);
        assert(s.take(0) =~= none);
        lemma_quoted_run(line, i + 1, s, 0, words);
    }
}

proof fn lemma_line_is_read(line: Seq<char>, i: int, args: Seq<Seq<char>>, words: Seq<Seq<char>>)
    requires
        0 <= i <= line.len(),
        args.len() > 0,
        line.skip(i) == command_line(args),
    ensures
        line_words(line, i, false, None, words) == Some(words + args),
    decreases args.len(),
{
    reveal_strlit(" ");
    let first = shell_quoted(args[0]);
    let n = first.len() as int;
    let tail = line.skip(i);
    if args.len() == 1 {
        assert(quoted_words(args) =~= seq![first]);
        assert(line.subrange(i, i + n) =~= tail);
        lemma_word_is_read(line, i, args[0], words);
        assert(words.push(args[0]) =~= words + args);
    } else {
        let rest = args.skip(1);
        assert(quoted_words(args) =~= seq![first] + quoted_words(rest));
        lemma_joined_head(first, quoted_words(rest), " "@);
        assert(tail == first + " "@ + command_line(rest));
        assert(line.subrange(i, i + n) =~= tail.subrange(0, n));
        assert(tail.subrange(0, n) =~= first);
        lemma_word_is_read(line, i, args[0], words);
        assert(line[i + n] == tail[n]);
        assert(line.skip(i + n + 1) =~= tail.skip(n + 1));
        assert(tail.skip(n + 1) =~= command_line(rest));
        lemma_line_is_read(line, i + n + 1, rest, words.push(args[0]));
        assert(words.push(args[0]) + rest =~= words + args);
    }
}

/// The shell reads a command line as the words that it was written of.
pub proof fn command_line_reads_back(words: Seq<Seq<char>>)
    requires
        words.len() > 0,
    ensures
        line_words(command_line(words), 0, false, None, Seq::empty()) == Some(words),
{
    let line = command_line(words);
    assert(line.skip(0) =~= line);
    lemma_line_is_read(line, 0, words, Seq::empty());
    assert(Seq::<Seq<char>>::empty() + words =~= words);
}

/// The shell reads a quoted text as one word, which is the text.
pub proof fn quoted_word_reads_back(s: Seq<char>)
    ensures
        line_words(shell_quoted(s), 0, false, None, Seq::empty()) == Some(seq![s]),
{
    command_line_reads_back(seq![s]);
    assert(quoted_words(seq![s]) =~= seq![shell_quoted(s)]);
}

/// The characters that a shell treats otherwise are quoted; letters, digits and the
/// signs of paths and options are not.
pub proof fn special_characters_are_quoted(c: char)
    ensures
        is_shell_special(' ') && is_shell_special('\t') && is_shell_special('\n'),
        is_shell_special('\'') && is_shell_special('"') && is_shell_special('\\')
            && is_shell_special('$') && is_shell_special('`') && is_shell_special('|')
            && is_shell_special('&') && is_shell_special(';') && is_shell_special('<')
            && is_shell_special('>') && is_shell_special('(') && is_shell_special(')')
            && is_shell_special('{') && is_shell_special('}') && is_shell_special('[')
            && is_shell_special(']') && is_shell_special('*') && is_shell_special('?')
            && is_shell_special('#'),
        'a' <= c && c <= 'z' || 'A' <= c && c <= 'Z' || '0' <= c && c <= '9' || c == '_' || c == '-'
            || c == '.' || c == '/' ==> !is_shell_special(c),
{
    reveal_strlit("'\"\\$`|&;<>(){}[]*?#");
    let s = "'\"\\$`|&;<>(){}[]*?#"@;
    assert(s[0] == '\'' && s[1] == '"' && s[2] == '\\' && s[3] == '$' && s[4] == '`' && s[5] == '|'
        && s[6] == '&' && s[7] == ';' && s[8] == '<' && s[9] == '>' && s[10] == '(' && s[11] == ')'
        && s[12] == '{' && s[13] == '}' && s[14] == '[' && s[15] == ']' && s[16] == '*' && s[17]
        == '?' && s[18] == '#');
    if s.contains(c) {
        let k = choose|k: int| 0 <= k < s.len() && s[k] == c;
        assert(k == 0 || k == 1 || k == 2 || k == 3 || k == 4 || k == 5 || k == 6 || k == 7 || k
            == 8 || k == 9 || k == 10 || k == 11 || k == 12 || k == 13 || k == 14 || k == 15 || k
            == 16 || k == 17 || k == 18);
    }
}

/// A word without special characters is written as it is.
pub proof fn plain_words_stay(s: Seq<char>)
    requires
        s.len() > 0,
        forall|k: int| 0 <= k < s.len() ==> !is_shell_special(#[trigger] s[k]),
    ensures
        shell_quoted(s) == s,
{
}

} // verus!
