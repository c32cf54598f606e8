//! Input sources: file formats and the table functions that read them.
use vstd::prelude::*;

use crate::sql::{escaped_text_reads_back, literal_text, quotes_doubled, sql_escape};
use crate::text::{
    cat3, chars_of, contains_char, copy_of, find_back, first_separator_splits, is_space, is_word,
    lemma_find_back_range, lower, lowered, occurs_at, pieces_are_split_off_in_turn, rfind, same,
    split, split_first, split_on, split_once, substring, texts, texts_without_separator_stay_whole,
    trim, trimmed, word,
};

verus! {

/// The encoding of an input.
#[derive(Copy, Clone, Debug, PartialEq, Eq, Structural)]
pub enum InputFormat {
    Parquet,
    /// One JSON value per line.
    Ndjson,
    Csv,
}

/// What follows the last `sep` of `s`, or all of `s` where it has none.
pub open spec fn after_last(s: Seq<char>, sep: Seq<char>) -> Seq<char> {
    match find_back(s, sep, s.len() as int) {
        Some(i) => s.skip(i + sep.len()),
        None => s,
    }
}

/// What follows the last `sep` of `s`.
pub fn last_piece(s: &str, sep: &str) -> (r: String)
    ensures
        r@ == after_last(s@, sep@),
{
    let cs = chars_of(s);
    match rfind(s, sep) {
        Some(i) => {
            let n: usize = chars_of(sep).len();
            assert(i + n <= cs.len());
            substring(&cs, i + n, cs.len())
        },
        None => copy_of(s),
    }
}

/// The format that a value of the input option names. The outer `None` stands
/// for a value that is no format, the inner one for `auto`.
pub open spec fn format_of_flag(name: Seq<char>) -> Option<Option<InputFormat>> {
    if name == "auto"@ {
        Some(None)
    } else if name == "parquet"@ {
        Some(Some(InputFormat::Parquet))
    } else if name == "ndjson"@ || name == "jsonl"@ || name == "json"@ {
        Some(Some(InputFormat::Ndjson))
    } else if name == "csv"@ || name == "tsv"@ {
        Some(Some(InputFormat::Csv))
    } else {
        None
    }
}

/// The format that a file name's extension tells, parquet where it has none.
pub open spec fn format_of_extension(path: Seq<char>) -> InputFormat {
    let ext = lowered(after_last(path, "."@));
    if !path.contains('.') {
        InputFormat::Parquet
    } else if ext == "ndjson"@ || ext == "jsonl"@ || ext == "json"@ {
        InputFormat::Ndjson
    } else if ext == "csv"@ || ext == "tsv"@ {
        InputFormat::Csv
    } else {
        InputFormat::Parquet
    }
}

impl InputFormat {
    /// Reads the value of the input option. `auto` names no format: the caller
    /// goes by the file name.
    pub fn from_flag(name: &str) -> (r: Result<Option<Self>, String>)
        ensures
            match r {
                Ok(fmt) => format_of_flag(name@) == Some(fmt),
                Err(why) => format_of_flag(name@) is None && why@ == "unknown --input format '"@
                    + name@ + "': expected auto|parquet|ndjson|csv"@,
            },
    {
        if same(name, "auto") {
            Ok(None)
        } else if same(name, "parquet") {
            Ok(Some(InputFormat::Parquet))
        } else if same(name, "ndjson") || same(name, "jsonl") || same(name, "json") {
            Ok(Some(InputFormat::Ndjson))
        } else if same(name, "csv") || same(name, "tsv") {
            Ok(Some(InputFormat::Csv))
        } else {
            Err(cat3("unknown --input format '", name, "': expected auto|parquet|ndjson|csv"))
        }
    }

    /// Goes by a file name's extension.
    pub fn from_extension(path: &str) -> (r: Self)
        ensures
            r == format_of_extension(path@),
    {
        if !contains_char(path, '.') {
            return InputFormat::Parquet;
        }
        let ext = lower(last_piece(path, ".").as_str());
        let ext = ext.as_str();
        if same(ext, "ndjson") || same(ext, "jsonl") || same(ext, "json") {
            InputFormat::Ndjson
        } else if same(ext, "csv") || same(ext, "tsv") {
            InputFormat::Csv
        } else {
            InputFormat::Parquet
        }
    }
}

/// The format of an input: the one that the flag names, else that of the file
/// name; standard input has no name and counts as parquet.
pub open spec fn input_format(flag: Seq<char>, file: Seq<char>) -> Option<InputFormat> {
    match format_of_flag(flag) {
        Some(Some(fmt)) => Some(fmt),
        Some(None) => Some(
            if file == "-"@ {
                InputFormat::Parquet
            } else {
                format_of_extension(file)
            },
        ),
        None => None,
    }
}

// ─── table functions ────────────────────────────────────────────────────────
/// A character of a partition key.
pub open spec fn is_key_char(c: char) -> bool {
    is_word(c) || c == '-'
}

/// A path segment of the form `key=value`.
pub open spec fn is_hive_segment(segment: Seq<char>) -> bool {
    match split_first(segment, "="@) {
        Some((key, value)) => {
            &&& key.len() > 0
            &&& forall|i: int| 0 <= i < key.len() ==> is_key_char(#[trigger] key[i])
            &&& value.len() > 0
        },
        None => false,
    }
}

/// Some segment of the path has the form `key=value`.
pub open spec fn is_hive_path(path: Seq<char>) -> bool {
    exists|i: int|
        0 <= i < split_on(path, "/"@).len() && is_hive_segment(#[trigger] split_on(path, "/"@)[i])
}

fn key_chars_only(key: &str) -> (r: bool)
    ensures
        r == forall|i: int| 0 <= i < key@.len() ==> is_key_char(#[trigger] key@[i]),
{
    let cs = chars_of(key);
    let mut i: usize = 0;
    while i < cs.len()
        invariant
            i <= cs.len(),
            cs@ == key@,
            forall|k: int| 0 <= k < i ==> is_key_char(#[trigger] key@[k]),
        decreases cs.len() - i,
    {
        if !(word(cs[i]) || cs[i] == '-') {
            assert(!is_key_char(key@[i as int]));
            return false;
        }
        i += 1;
    }
    true
}

/// Does the segment have the form `key=value`?
pub fn hive_segment(segment: &str) -> (r: bool)
    ensures
        r == is_hive_segment(segment@),
{
    match split_once(segment, "=") {
        Some((key, value)) => !key.as_str().is_empty() && key_chars_only(key.as_str())
            && !value.as_str().is_empty(),
        None => false,
    }
}

/// Does the path hold a `key=value` segment?
pub fn looks_like_hive_partition(path: &str) -> (r: bool)
    ensures
        r == is_hive_path(path@),
{
    proof {
        reveal_strlit("/");
    }
    let segments = split(path, "/");
    let mut i: usize = 0;
    while i < segments.len()
        invariant
            i <= segments.len(),
            texts(segments@) == split_on(path@, "/"@),
            forall|k: int| 0 <= k < i ==> !is_hive_segment(#[trigger] split_on(path@, "/"@)[k]),
        decreases segments.len() - i,
    {
        assert(texts(segments@)[i as int] == segments@[i as int]@);
        if hive_segment(segments[i].as_str()) {
            return true;
        }
        i += 1;
    }
    false
}

/// The table function that reads a parquet source.
pub open spec fn source_sql(file: Seq<char>) -> Seq<char> {
    source_sql_fmt(file, InputFormat::Parquet)
}

/// The table function that reads a source of the given format.
pub open spec fn source_sql_fmt(file: Seq<char>, fmt: InputFormat) -> Seq<char> {
    let f = trimmed(file);
    let escaped = quotes_doubled(f);
    match fmt {
        InputFormat::Parquet => if f == "/dev/stdin"@ || f == "-"@ {
            "read_parquet('/dev/stdin')"@
        } else if is_hive_path(f) {
            "read_parquet('"@ + escaped + "', hive_partitioning=true)"@
        } else {
            "read_parquet('"@ + escaped + "')"@
        },
        InputFormat::Ndjson => "read_json('"@ + escaped
            + "', format='newline_delimited', auto_detect=true)"@,
        InputFormat::Csv => "read_csv_auto('"@ + escaped + "')"@,
    }
}

/// The table function that reads a parquet source.
pub fn source_clause(file: &str) -> (r: String)
    ensures
        r@ == source_sql(file@),
{
    source_clause_fmt(file, InputFormat::Parquet)
}

/// The table function that reads a source of the given format. A parquet path
/// with a `key=value` segment makes its keys readable as columns.
pub fn source_clause_fmt(file: &str, fmt: InputFormat) -> (r: String)
    ensures
        r@ == source_sql_fmt(file@, fmt),
{
    let f = trim(file);
    let escaped = sql_escape(f.as_str());
    match fmt {
        InputFormat::Parquet => {
            if same(f.as_str(), "/dev/stdin") || same(f.as_str(), "-") {
                return copy_of("read_parquet('/dev/stdin')");
            }
            if looks_like_hive_partition(f.as_str()) {
                cat3("read_parquet('", escaped.as_str(), "', hive_partitioning=true)")
            } else {
                cat3("read_parquet('", escaped.as_str(), "')")
            }
        },
        InputFormat::Ndjson => cat3(
            "read_json('",
            escaped.as_str(),
            "', format='newline_delimited', auto_detect=true)",
        ),
        InputFormat::Csv => cat3("read_csv_auto('", escaped.as_str(), "')"),
    }
}

// ─── choosing an input ──────────────────────────────────────────────────────
/// Picks the format of an input from the input option and the file's name.
pub fn resolve_input_format(flag: &str, file: &str) -> (r: Result<InputFormat, String>)
    ensures
        match r {
            Ok(fmt) => input_format(flag@, file@) == Some(fmt),
            Err(why) => input_format(flag@, file@) is None && why@ == "unknown --input format '"@
                + flag@ + "': expected auto|parquet|ndjson|csv"@,
        },
{
    match InputFormat::from_flag(flag) {
        Ok(Some(fmt)) => Ok(fmt),
        Ok(None) => {
            if same(file, "-") {
                Ok(InputFormat::Parquet)
            } else {
                Ok(InputFormat::from_extension(file))
            }
        },
        Err(why) => Err(why),
    }
}

/// Where the rows of an input are read from.
#[derive(Debug, PartialEq, Eq)]
pub enum SpoolStep {
    /// From this path.
    Read(String),
    /// From standard input, copied first to a file with this suffix.
    Spool(String),
}

/// The mathematical value of a `SpoolStep`.
pub enum SpoolView {
    Read(Seq<char>),
    Spool(Seq<char>),
}

impl View for SpoolStep {
    type V = SpoolView;

    open spec fn view(&self) -> SpoolView {
        match self {
            SpoolStep::Read(path) => SpoolView::Read(path@),
            SpoolStep::Spool(suffix) => SpoolView::Spool(suffix@),
        }
    }
}

/// The suffix of a file that holds a copy of standard input.
pub open spec fn spool_suffix(fmt: InputFormat) -> Seq<char> {
    match fmt {
        InputFormat::Parquet => ".parquet"@,
        InputFormat::Ndjson => ".ndjson"@,
        InputFormat::Csv => ".csv"@,
    }
}

/// A named file is read as it is. Standard input is read in place where it is
/// parquet and can be sought in, and else copied first: the readers go over
/// their input more than once.
pub open spec fn spool_view(file: Seq<char>, fmt: InputFormat, seekable: bool) -> SpoolView {
    if file != "-"@ {
        SpoolView::Read(file)
    } else if seekable && fmt == InputFormat::Parquet {
        SpoolView::Read("/dev/stdin"@)
    } else {
        SpoolView::Spool(spool_suffix(fmt))
    }
}

/// Decides where the rows of an input are read from.
pub fn spool_step(file: &str, fmt: InputFormat, seekable: bool) -> (r: SpoolStep)
    ensures
        r@ == spool_view(file@, fmt, seekable),
{
    if !same(file, "-") {
        SpoolStep::Read(copy_of(file))
    } else if seekable && fmt == InputFormat::Parquet {
        SpoolStep::Read(copy_of("/dev/stdin"))
    } else {
        SpoolStep::Spool(
            copy_of(
                match fmt {
                    InputFormat::Parquet => ".parquet",
                    InputFormat::Ndjson => ".ndjson",
                    InputFormat::Csv => ".csv",
                },
            ),
        )
    }
}

// ─── laws ───────────────────────────────────────────────────────────────────
/// The extension of a file name, in any case, tells its format.
#[verifier::rlimit(50)]
pub proof fn extensions_tell_the_format(stem: Seq<char>, ext: Seq<char>)
    requires
        !ext.contains('.'),
    ensures
        ({
            let low = lowered(ext);
            let fmt = format_of_extension(stem + "."@ + ext);
            &&& low == "csv"@ || low == "tsv"@ ==> fmt == InputFormat::Csv
            &&& low == "json"@ || low == "jsonl"@ || low == "ndjson"@ ==> fmt
                == InputFormat::Ndjson
            &&& low != "csv"@ && low != "tsv"@ && low != "json"@ && low != "jsonl"@ && low
                != "ndjson"@ ==> fmt == InputFormat::Parquet
        }),
        format_of_extension(ext) == InputFormat::Parquet,
{
    lemma_last_piece(stem, ext);
    lemma_format_words_differ();
}

proof fn lemma_format_words_differ()
    ensures
        "csv"@ != "json"@ && "csv"@ != "jsonl"@ && "csv"@ != "ndjson"@,
        "tsv"@ != "json"@ && "tsv"@ != "jsonl"@ && "tsv"@ != "ndjson"@,
{
    reveal_strlit("csv");
    reveal_strlit("tsv");
    reveal_strlit("json");
    reveal_strlit("jsonl");
    reveal_strlit("ndjson");
    assert("csv"@.len() == 3 && "tsv"@.len() == 3 && "json"@.len() == 4 && "jsonl"@.len() == 5
        && "ndjson"@.len() == 6);
}

proof fn lemma_last_piece(stem: Seq<char>, ext: Seq<char>)
    requires
        !ext.contains('.'),
    ensures
        (stem + "."@ + ext).contains('.'),
        after_last(stem + "."@ + ext, "."@) == ext,
{
    reveal_strlit(".");
    let s = stem + "."@ + ext;
    let n = stem.len() as int;
    assert(s[n] == '.');
    assert(s.subrange(n, n + 1) =~= "."@);
    assert(occurs_at(s, "."@, n));
    lemma_find_back_range(s, "."@, s.len() as int);
    assert("."@.len() == 1);
    let found = find_back(s, "."@, s.len() as int);
    assert(found is Some);
    let k = found->0;
    assert(k >= n);
    if k > n {
        assert(s.subrange(k, k + 1)[0] == '.');
        assert(s[k] == ext[k - n - 1]);
        assert(ext.contains('.'));
    }
    assert(s.skip(n + 1) =~= ext);
}

/// The input option names a format; `auto` leaves it to the file name, and standard
/// input, which has none, is parquet. An unknown name is refused.
#[verifier::rlimit(50)]
pub proof fn options_name_the_format(flag: Seq<char>, file: Seq<char>)
    ensures
        flag == "parquet"@ ==> input_format(flag, file) == Some(InputFormat::Parquet),
        flag == "ndjson"@ || flag == "jsonl"@ || flag == "json"@ ==> input_format(flag, file)
            == Some(InputFormat::Ndjson),
        flag == "csv"@ || flag == "tsv"@ ==> input_format(flag, file) == Some(InputFormat::Csv),
        flag == "auto"@ && file == "-"@ ==> input_format(flag, file) == Some(InputFormat::Parquet),
        flag == "auto"@ && file != "-"@ ==> input_format(flag, file) == Some(
            format_of_extension(file),
        ),
        flag != "parquet"@ && flag != "ndjson"@ && flag != "jsonl"@ && flag != "json"@ && flag
            != "csv"@ && flag != "tsv"@ && flag != "auto"@ ==> input_format(flag, file) is None,
{
    reveal_strlit("auto");
    reveal_strlit("parquet");
    reveal_strlit("ndjson");
    reveal_strlit("jsonl");
    reveal_strlit("json");
    reveal_strlit("csv");
    reveal_strlit("tsv");
    assert("auto"@[0] == 'a' && "parquet"@[0] == 'p' && "ndjson"@[0] == 'n' && "jsonl"@[0] == 'j'
        && "json"@[0] == 'j' && "csv"@[0] == 'c' && "tsv"@[0] == 't');
}

/// A source is read by the table function of its format, from a literal of its
/// path. Parquet paths with partition keys are read with these as columns, and
/// standard input from its device.
#[verifier::rlimit(50)]
pub proof fn sources_are_read_by_their_format(file: Seq<char>)
    requires
        file.len() > 0,
        !is_space(file[0]),
        !is_space(file[file.len() - 1]),
    ensures
        ({
            let literal = "'"@ + quotes_doubled(file) + "'"@;
            &&& literal_text(quotes_doubled(file)) == Some(file)
            &&& source_sql_fmt(file, InputFormat::Csv) == "read_csv_auto("@ + literal + ")"@
            &&& source_sql_fmt(file, InputFormat::Ndjson) == "read_json("@ + literal
                + ", format='newline_delimited', auto_detect=true)"@
            &&& file != "-"@ && file != "/dev/stdin"@ && !is_hive_path(file) ==> source_sql_fmt(
                file,
                InputFormat::Parquet,
            ) == "read_parquet("@ + literal + ")"@
            &&& file != "-"@ && file != "/dev/stdin"@ && is_hive_path(file) ==> source_sql_fmt(
                file,
                InputFormat::Parquet,
            ) == "read_parquet("@ + literal + ", hive_partitioning=true)"@
            &&& file == "-"@ || file == "/dev/stdin"@ ==> source_sql_fmt(
                file,
                InputFormat::Parquet,
            ) == "read_parquet('/dev/stdin')"@
            &&& source_sql(file) == source_sql_fmt(file, InputFormat::Parquet)
        }),
{
    escaped_text_reads_back(file);
    assert(trimmed(file) == file);
    let e = quotes_doubled(file);
    reveal_strlit("'");
    reveal_strlit(")");
    reveal_strlit("')");
    reveal_strlit("read_csv_auto(");
    reveal_strlit("read_csv_auto('");
    reveal_strlit("read_json(");
    reveal_strlit("read_json('");
    reveal_strlit("', format='newline_delimited', auto_detect=true)");
    reveal_strlit(", format='newline_delimited', auto_detect=true)");
    reveal_strlit("read_parquet(");
    reveal_strlit("read_parquet('");
    reveal_strlit("', hive_partitioning=true)");
    reveal_strlit(", hive_partitioning=true)");
    let literal = "'"@ + e + "'"@;
    assert("read_csv_auto('"@ + e + "')"@ =~= "read_csv_auto("@ + literal + ")"@);
    assert("read_json('"@ + e + "', format='newline_delimited', auto_detect=true)"@
        =~= "read_json("@ + literal + ", format='newline_delimited', auto_detect=true)"@);
    assert("read_parquet('"@ + e + "')"@ =~= "read_parquet("@ + literal + ")"@);
    assert("read_parquet('"@ + e + "', hive_partitioning=true)"@ =~= "read_parquet("@ + literal
        + ", hive_partitioning=true)"@);
}

/// A directory `key=value` partitions a path, wherever in the path it stands; a
/// segment without a key, a value or the sign does not.
#[verifier::rlimit(50)]
pub proof fn key_value_segments_partition(
    key: Seq<char>,
    value: Seq<char>,
    a: Seq<char>,
    b: Seq<char>,
)
    requires
        forall|k: int| 0 <= k < key.len() ==> is_word(#[trigger] key[k]) || key[k] == '-',
        !a.contains('/'),
        !a.contains('='),
    ensures
        is_hive_segment(key + "="@ + value) == (key.len() > 0 && value.len() > 0),
        !is_hive_segment(a),
        is_hive_path(a + "/"@ + b) == is_hive_path(b),
        !is_hive_path(a),
        key.len() > 0 && value.len() > 0 && !value.contains('/') ==> is_hive_path(
            key + "="@ + value + "/"@ + b,
        ) && is_hive_path(key + "="@ + value),
{
    reveal_strlit("=");
    reveal_strlit("/");
    let segment = key + "="@ + value;
    assert forall|k: int| 0 <= k < key.len() implies !#[trigger] occurs_at(segment, "="@, k) by {
        if occurs_at(segment, "="@, k) {
            assert(segment.subrange(k, k + 1)[0] == '=');
            assert(segment[k] == key[k]);
            assert(is_word(key[k]) || key[k] == '-');
        }
    }
    first_separator_splits(key, "="@, value);
    assert forall|k: int| !#[trigger] occurs_at(a, "="@, k) by {
        if occurs_at(a, "="@, k) {
            assert(a.subrange(k, k + 1)[0] == '=');
            assert(a.contains('='));
        }
    }
    texts_without_separator_stay_whole(a, "="@, a);
    lemma_path_splits(a, b);
    if key.len() > 0 && value.len() > 0 && !value.contains('/') {
        assert forall|k: int| 0 <= k < segment.len() implies segment[k] != '/' by {
            if k < key.len() {
                assert(is_word(key[k]) || key[k] == '-');
            } else if k > key.len() {
                assert(segment[k] == value[k - key.len() - 1]);
                assert(value.contains(value[k - key.len() - 1]));
            }
        }
        assert(!segment.contains('/'));
        lemma_path_splits(segment, b);
        assert(key + "="@ + value + "/"@ + b == segment + "/"@ + b);
    }
}

proof fn lemma_path_splits(a: Seq<char>, b: Seq<char>)
    requires
        !a.contains('/'),
    ensures
        is_hive_path(a + "/"@ + b) == (is_hive_segment(a) || is_hive_path(b)),
        is_hive_path(a) == is_hive_segment(a),
{
    reveal_strlit("/");
    let s = a + "/"@ + b;
    assert forall|k: int| 0 <= k < a.len() implies !#[trigger] occurs_at(s, "/"@, k) by {
        if occurs_at(s, "/"@, k) {
            assert(s.subrange(k, k + 1)[0] == '/');
            assert(s[k] == a[k]);
            assert(a.contains('/'));
        }
    }
    pieces_are_split_off_in_turn(a, "/"@, b);
    assert forall|k: int| !#[trigger] occurs_at(a, "/"@, k) by {
        if occurs_at(a, "/"@, k) {
            assert(a.subrange(k, k + 1)[0] == '/');
            assert(a.contains('/'));
        }
    }
    texts_without_separator_stay_whole(a, "/"@, a);
    let all = split_on(s, "/"@);
    let rest = split_on(b, "/"@);
    assert(all == seq![a] + rest);
    if is_hive_segment(a) {
        assert(all[0] == a);
        assert(split_on(a, "/"@)[0] == a);
    }
    if is_hive_path(b) {
        let i = choose|i: int| 0 <= i < rest.len() && is_hive_segment(#[trigger] rest[i]);
        assert(all[i + 1] == rest[i]);
    }
    if is_hive_path(s) {
        let i = choose|i: int| 0 <= i < all.len() && is_hive_segment(#[trigger] all[i]);
        if i > 0 {
            assert(all[i] == rest[i - 1]);
        }
    }
}

/// A file is read where it is. Standard input is copied first, to a file of its
/// format, unless it is parquet and can be sought in.
pub proof fn standard_input_is_copied_where_needed(file: Seq<char>, fmt: InputFormat)
    ensures
        file != "-"@ ==> spool_view(file, fmt, true) == SpoolView::Read(file) && spool_view(
            file,
            fmt,
            false,
        ) == SpoolView::Read(file),
        spool_view("-"@, InputFormat::Parquet, true) == SpoolView::Read("/dev/stdin"@),
        spool_view("-"@, InputFormat::Parquet, false) == SpoolView::Spool(".parquet"@),
        spool_view("-"@, InputFormat::Ndjson, true) == SpoolView::Spool(".ndjson"@),
        spool_view("-"@, InputFormat::Ndjson, false) == SpoolView::Spool(".ndjson"@),
        spool_view("-"@, InputFormat::Csv, true) == SpoolView::Spool(".csv"@),
        spool_view("-"@, InputFormat::Csv, false) == SpoolView::Spool(".csv"@),
{
}

} // verus!
