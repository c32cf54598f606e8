//! From a query to SQL.
use vstd::prelude::*;

use crate::number::{decimal, show};
use crate::path::is_tight;
use crate::plan::{
    aggregate_sqls, core_sql, empty_plan, groups, joins_name_their_sides, lifted_clauses,
    lines_are_made_of_the_columns, order_exprs, plain_clauses_stay, plan_sql, sql_has_every_clause,
    PlanView, QueryPlan,
};
use crate::source::{source_clause_fmt, source_sql_fmt, InputFormat};
use crate::stage::{
    after_keyword, keeps, keywords_are_split_off, parse_stage, pipe_stages, split_pipe_stages,
    stage_effect, stages_only_add, strip_keyword,
};
use crate::text::{
    cat2, cat3, chars_of, has_prefix, has_text, is_letter, lemma_find_from_range, letter, lower,
    lower_char, lowered, occurrences_are_replaced_in_turn, occurs_at, replace, replaced,
    starts_with, texts, texts_without_separator_stay_whole, trim, trimmed,
};

verus! {

/// The SQL of a query.
#[derive(Debug, PartialEq, Eq)]
pub struct CompileOutput {
    pub sql: String,
    /// The rows are single texts, to be printed as they are.
    pub raw_lines: bool,
}

/// The mathematical value of a `CompileOutput`.
pub struct OutputView {
    pub sql: Seq<char>,
    pub raw_lines: bool,
}

impl View for CompileOutput {
    type V = OutputView;

    open spec fn view(&self) -> OutputView {
        OutputView { sql: self.sql@, raw_lines: self.raw_lines }
    }
}

/// The query is a projection: `select` with a dotted path, or `.*`, behind it.
pub open spec fn selects_paths(q: Seq<char>) -> bool {
    match after_keyword(q, "select"@) {
        Some(rest) => rest.len() > 1 && rest[0] == '.' && (is_letter(rest[1]) || rest[1] == '_'
            || rest[1] == '*'),
        None => false,
    }
}

/// The query is SQL already.
pub open spec fn is_raw_sql(q: Seq<char>) -> bool {
    let low = lowered(q);
    ||| has_prefix(low, "select "@) && !selects_paths(q)
    ||| has_prefix(low, "with "@)
    ||| has_prefix(low, "explain "@)
    ||| has_prefix(low, "pragma "@)
}

/// What the stages from `i` on make of a plan. The first refused stage decides.
pub open spec fn stages_effect(stages: Seq<Seq<char>>, i: int, plan: PlanView) -> Result<
    PlanView,
    Seq<char>,
>
    decreases stages.len() - i,
{
    if i < 0 || i >= stages.len() {
        Ok(plan)
    } else {
        match stage_effect(stages[i], plan) {
            Ok(next) => stages_effect(stages, i + 1, next),
            Err(why) => Err(why),
        }
    }
}

/// A query on one line: a backslash at the end of a line stands for a blank.
pub open spec fn on_one_line(query: Seq<char>) -> Seq<char> {
    replaced(query, "\\\n"@, " "@)
}

/// The plan of a query over a source.
pub open spec fn query_plan(source: Seq<char>, query: Seq<char>) -> Result<PlanView, Seq<char>> {
    stages_effect(pipe_stages(trimmed(on_one_line(query))), 0, empty_plan(source))
}

/// The SQL of a query over a file: the first rows for an empty query, the query
/// itself for SQL, with `FILE` standing for the source, and else the SQL of the
/// query's plan.
pub open spec fn compiled(
    file: Seq<char>,
    query: Seq<char>,
    default_limit: int,
    fmt: InputFormat,
) -> Result<OutputView, Seq<char>> {
    let src = source_sql_fmt(file, fmt);
    let q = trimmed(query);
    if q.len() == 0 {
        Ok(
            OutputView {
                sql: "SELECT * FROM "@ + src + if default_limit == 0 {
                    Seq::empty()
                } else {
                    " LIMIT "@ + decimal(default_limit as nat)
                },
                raw_lines: false,
            },
        )
    } else if is_raw_sql(q) {
        Ok(OutputView { sql: replaced(q, "FILE"@, src), raw_lines: false })
    } else {
        match query_plan(src, query) {
            Ok(plan) => Ok(
                OutputView { sql: plan_sql(plan), raw_lines: plan.line_format is Some },
            ),
            Err(why) => Err(why),
        }
    }
}

/// The result is what `compiled` says.
pub open spec fn compiles_to(
    r: Result<CompileOutput, String>,
    want: Result<OutputView, Seq<char>>,
) -> bool {
    match want {
        Ok(out) => r is Ok && r->Ok_0@ == out,
        Err(why) => r is Err && r->Err_0@ == why,
    }
}

/// Compiles a query over a parquet file.
pub fn compile_plan(file: &str, query: &str, default_limit: usize) -> (r: Result<
    CompileOutput,
    String,
>)
    ensures
        compiles_to(r, compiled(file@, query@, default_limit as int, InputFormat::Parquet)),
{
    compile_plan_fmt(file, query, default_limit, InputFormat::Parquet)
}

fn path_selection(q: &str) -> (r: bool)
    ensures
        r == selects_paths(q@),
{
    match strip_keyword(q, "select") {
        Some(rest) => {
            let cs = chars_of(rest.as_str());
            cs.len() > 1 && cs[0] == '.' && (letter(cs[1]) || cs[1] == '_' || cs[1] == '*')
        },
        None => false,
    }
}

fn raw_sql(q: &str) -> (r: bool)
    ensures
        r == is_raw_sql(q@),
{
    let low = lower(q);
    let low = low.as_str();
    (starts_with(low, "select ") && !path_selection(q)) || starts_with(low, "with ")
        || starts_with(low, "explain ") || starts_with(low, "pragma ")
}

/// Compiles a query over a file of the given format.
pub fn compile_plan_fmt(
    file: &str,
    query: &str,
    default_limit: usize,
    fmt: InputFormat,
) -> (r: Result<CompileOutput, String>)
    ensures
        compiles_to(r, compiled(file@, query@, default_limit as int, fmt)),
{
    let src = source_clause_fmt(file, fmt);
    let q = trim(query);
    if q.as_str().is_empty() {
        let limit = if default_limit == 0 {
            let none = String::new();
            assert(none@ =~= Seq::empty());
            none
        } else {
            cat2(" LIMIT ", show(default_limit as u128).as_str())
        };
        return Ok(
            CompileOutput {
                sql: cat3("SELECT * FROM ", src.as_str(), limit.as_str()),
                raw_lines: false,
            },
        );
    }
    if raw_sql(q.as_str()) {
        proof {
            reveal_strlit("FILE");
        }
        return Ok(
            CompileOutput { sql: replace(q.as_str(), "FILE", src.as_str()), raw_lines: false },
        );
    }
    proof {
        reveal_strlit("\\\n");
    }
    let line = trim(replace(query, "\\\n", " ").as_str());
    let stages = split_pipe_stages(line.as_str());
    let mut plan = QueryPlan::new(src);
    let mut i: usize = 0;
    while i < stages.len()
        invariant
            i <= stages.len(),
            q@ == trimmed(query@),
            q@.len() > 0,
            !is_raw_sql(q@),
            texts(stages@) == pipe_stages(trimmed(on_one_line(query@))),
            query_plan(source_sql_fmt(file@, fmt), query@) == stages_effect(
                texts(stages@),
                i as int,
                plan@,
            ),
        decreases stages.len() - i,
    {
        match parse_stage(stages[i].as_str(), &mut plan) {
            Ok(_) => {},
            Err(why) => {
                return Err(why);
            },
        }
        i += 1;
    }
    let raw_lines = plan.line_format.is_some();
    Ok(CompileOutput { sql: plan.to_sql(), raw_lines })
}

// ─── laws ───────────────────────────────────────────────────────────────────
proof fn lemma_stages_keep(stages: Seq<Seq<char>>, i: int, plan: PlanView)
    requires
        stages_effect(stages, i, plan) is Ok,
    ensures
        keeps(plan, stages_effect(stages, i, plan)->Ok_0),
        groups(plan) ==> groups(stages_effect(stages, i, plan)->Ok_0),
    decreases stages.len() - i,
{
    if 0 <= i < stages.len() {
        let next = stage_effect(stages[i], plan)->Ok_0;
        let end = stages_effect(stages, i, plan)->Ok_0;
        stages_only_add(stages[i], plan);
        lemma_stages_keep(stages, i + 1, next);
        lemma_prefix_chain(plan.projections, next.projections, end.projections);
        lemma_prefix_chain(plan.aggregates, next.aggregates, end.aggregates);
        lemma_prefix_chain(plan.filters, next.filters, end.filters);
        lemma_prefix_chain(plan.group_by, next.group_by, end.group_by);
        lemma_prefix_chain(plan.havings, next.havings, end.havings);
        lemma_prefix_chain(plan.order_by, next.order_by, end.order_by);
    } else {
        let p = plan;
        assert(p.projections =~= p.projections.subrange(0, p.projections.len() as int));
        assert(p.aggregates =~= p.aggregates.subrange(0, p.aggregates.len() as int));
        assert(p.filters =~= p.filters.subrange(0, p.filters.len() as int));
        assert(p.group_by =~= p.group_by.subrange(0, p.group_by.len() as int));
        assert(p.havings =~= p.havings.subrange(0, p.havings.len() as int));
        assert(p.order_by =~= p.order_by.subrange(0, p.order_by.len() as int));
    }
}

proof fn lemma_prefix_chain<A>(a: Seq<A>, b: Seq<A>, c: Seq<A>)
    requires
        a.is_prefix_of(b),
        b.is_prefix_of(c),
    ensures
        a.is_prefix_of(c),
{
    assert(a =~= c.subrange(0, a.len() as int)) by {
        assert forall|i: int| 0 <= i < a.len() implies a[i] == c[i] by {
            assert(a[i] == b.subrange(0, a.len() as int)[i]);
            assert(b[i] == c.subrange(0, b.len() as int)[i]);
        }
    }
}

/// Later stages undo nothing: what the first stages of a query make of a plan
/// is kept by the whole query.
pub proof fn later_stages_keep_earlier_ones(
    stages: Seq<Seq<char>>,
    n: int,
    plan: PlanView,
)
    requires
        0 <= n <= stages.len(),
        stages_effect(stages, 0, plan) is Ok,
    ensures
        stages_effect(stages.take(n), 0, plan) is Ok,
        keeps(
            stages_effect(stages.take(n), 0, plan)->Ok_0,
            stages_effect(stages, 0, plan)->Ok_0,
        ),
{
    lemma_stages_split(stages, n, 0, plan);
    lemma_stages_keep(stages, n, stages_effect(stages.take(n), 0, plan)->Ok_0);
}

proof fn lemma_stages_split(stages: Seq<Seq<char>>, n: int, i: int, plan: PlanView)
    requires
        0 <= i <= n <= stages.len(),
        stages_effect(stages, i, plan) is Ok,
    ensures
        stages_effect(stages.take(n), i, plan) is Ok,
        stages_effect(stages, i, plan) == stages_effect(
            stages,
            n,
            stages_effect(stages.take(n), i, plan)->Ok_0,
        ),
    decreases n - i,
{
    if i < n {
        lemma_stages_split(stages, n, i + 1, stage_effect(stages[i], plan)->Ok_0);
    }
}

/// A query reads the source that it is given.
pub proof fn queries_read_their_source(source: Seq<char>, query: Seq<char>)
    requires
        query_plan(source, query) is Ok,
    ensures
        (query_plan(source, query)->Ok_0).source == source,
{
    lemma_stages_keep(pipe_stages(trimmed(on_one_line(query))), 0, empty_plan(source));
}

/// Stages are applied one after the other: a query with one more stage is the
/// query without it, and that stage on top.
pub proof fn stages_are_applied_in_order(stages: Seq<Seq<char>>, stage: Seq<char>, plan: PlanView)
    ensures
        stages_effect(Seq::empty(), 0, plan) == Ok::<PlanView, Seq<char>>(plan),
        match stages_effect(stages, 0, plan) {
            Ok(done) => stages_effect(stages.push(stage), 0, plan) == stage_effect(stage, done),
            Err(why) => stages_effect(stages.push(stage), 0, plan) == Err::<PlanView, Seq<char>>(
                why,
            ),
        },
{
    lemma_one_more_stage(stages, stage, 0, plan);
}

proof fn lemma_one_more_stage(stages: Seq<Seq<char>>, stage: Seq<char>, i: int, plan: PlanView)
    requires
        0 <= i <= stages.len(),
    ensures
        match stages_effect(stages, i, plan) {
            Ok(done) => stages_effect(stages.push(stage), i, plan) == stage_effect(stage, done),
            Err(why) => stages_effect(stages.push(stage), i, plan) == Err::<PlanView, Seq<char>>(
                why,
            ),
        },
    decreases stages.len() - i,
{
    let all = stages.push(stage);
    if i < stages.len() {
        assert(all[i] == stages[i]);
        if let Ok(next) = stage_effect(stages[i], plan) {
            lemma_one_more_stage(stages, stage, i + 1, next);
        }
    } else {
        assert(all[i] == stage);
        match stage_effect(stage, plan) {
            Ok(next) => {
                assert(stages_effect(all, i + 1, next) == Ok::<PlanView, Seq<char>>(next));
            },
            Err(_) => {},
        }
    }
}

/// An empty query shows the first rows of the source, all of them for a limit of 0.
pub proof fn empty_queries_show_the_first_rows(
    file: Seq<char>,
    query: Seq<char>,
    n: nat,
    fmt: InputFormat,
)
    requires
        trimmed(query).len() == 0,
        n > 0,
    ensures
        compiled(file, query, 0, fmt) == Ok::<OutputView, Seq<char>>(
            OutputView { sql: "SELECT * FROM "@ + source_sql_fmt(file, fmt), raw_lines: false },
        ),
        compiled(file, query, n as int, fmt) == Ok::<OutputView, Seq<char>>(
            OutputView {
                sql: "SELECT * FROM "@ + source_sql_fmt(file, fmt) + " LIMIT "@ + decimal(n),
                raw_lines: false,
            },
        ),
{
    let src = source_sql_fmt(file, fmt);
    assert("SELECT * FROM "@ + src + Seq::<char>::empty() =~= "SELECT * FROM "@ + src);
    assert("SELECT * FROM "@ + src + (" LIMIT "@ + decimal(n)) =~= "SELECT * FROM "@ + src
        + " LIMIT "@ + decimal(n));
}

/// A query that starts with one of SQL's words is passed on, with the source in
/// place of `FILE`; one that selects dotted paths is not SQL.
#[verifier::rlimit(50)]
pub proof fn sql_is_passed_on(
    file: Seq<char>,
    head: Seq<char>,
    rest: Seq<char>,
    limit: int,
    fmt: InputFormat,
)
    requires
        ({
            let low = lowered(head);
            low == "select "@ || low == "with "@ || low == "explain "@ || low == "pragma "@
        }),
        is_tight(rest),
        lowered(head) == "select "@ ==> rest[0] != '.',
    ensures
        compiled(file, head + rest, limit, fmt) == Ok::<OutputView, Seq<char>>(
            OutputView {
                sql: replaced(head + rest, "FILE"@, source_sql_fmt(file, fmt)),
                raw_lines: false,
            },
        ),
{
    let q = head + rest;
    let low = lowered(head);
    reveal_strlit("select ");
    reveal_strlit("select");
    reveal_strlit("with ");
    reveal_strlit("explain ");
    reveal_strlit("pragma ");
    assert(low.len() == head.len());
    assert(low[0] == lower_char(head[0]));
    assert(q[0] == head[0] && q[q.len() - 1] == rest[rest.len() - 1]);
    assert(trimmed(q) == q);
    assert(lowered(q).subrange(0, head.len() as int) =~= low);
    if low == "select "@ {
        let word = q.take(6);
        assert(lowered(word) =~= lowered("select"@)) by {
            assert forall|k: int| 0 <= k < 6 implies lowered(word)[k] == lowered("select"@)[k] by {
                assert(low[k] == lower_char(head[k]));
            }
        }
        assert(low[6] == lower_char(head[6]));
        assert(head[6] == ' ');
        assert(q =~= word + seq![' '] + rest);
        keywords_are_split_off(word, ' ', rest, "select"@);
        assert(after_keyword(q, "select"@) == Some(rest));
    }
}

/// Any other query is compiled stage by stage, and prints lines where a stage asks
/// for them. A refused stage refuses the query.
pub proof fn other_queries_are_compiled(
    file: Seq<char>,
    query: Seq<char>,
    limit: int,
    fmt: InputFormat,
)
    requires
        trimmed(query).len() > 0,
        !has_prefix(lowered(trimmed(query)), "select "@),
        !has_prefix(lowered(trimmed(query)), "with "@),
        !has_prefix(lowered(trimmed(query)), "explain "@),
        !has_prefix(lowered(trimmed(query)), "pragma "@),
        !has_text(query, "\\\n"@),
    ensures
        ({
            let start = empty_plan(source_sql_fmt(file, fmt));
            match stages_effect(pipe_stages(trimmed(query)), 0, start) {
                Ok(plan) => compiled(file, query, limit, fmt) == Ok::<OutputView, Seq<char>>(
                    OutputView { sql: plan_sql(plan), raw_lines: plan.line_format is Some },
                ),
                Err(why) => compiled(file, query, limit, fmt) == Err::<OutputView, Seq<char>>(why),
            }
        }),
{
    reveal_strlit("\\\n");
    lemma_find_from_range(query, "\\\n"@, 0);
    texts_without_separator_stay_whole(query, "\\\n"@, " "@);
}

/// A new plan reads all rows and columns of its source, in no order, and prints no
/// lines.
#[verifier::rlimit(50)]
pub proof fn new_plans_take_everything(source: Seq<char>)
    ensures
        plan_sql(empty_plan(source)) == "SELECT * FROM "@ + source,
{
    let plan = empty_plan(source);
    lines_are_made_of_the_columns(plan);
    assert(aggregate_sqls(plan.aggregates) =~= Seq::empty());
    assert(order_exprs(plan.order_by) =~= Seq::empty());
    plain_clauses_stay(plan);
    sql_has_every_clause(plan);
    joins_name_their_sides(plan);
    reveal_strlit("");
    reveal_strlit("SELECT ");
    reveal_strlit("*");
    reveal_strlit(" FROM ");
    reveal_strlit("SELECT * FROM ");
    let c = lifted_clauses(plan);
    assert((c.group_by + c.aggregates).len() == 0);
    assert(core_sql(plan) =~= "SELECT "@ + "*"@ + " FROM "@ + source);
    assert("SELECT "@ + "*"@ + " FROM "@ =~= "SELECT * FROM "@);
}

/// A backslash at the end of a line joins it with the next one, by a blank.
pub proof fn lines_are_joined_at_backslashes(a: Seq<char>, b: Seq<char>)
    requires
        forall|k: int| 0 <= k < a.len() ==> !#[trigger] occurs_at(a + "\\\n"@ + b, "\\\n"@, k),
    ensures
        on_one_line(a + "\\\n"@ + b) == a + " "@ + on_one_line(b),
{
    reveal_strlit("\\\n");
    occurrences_are_replaced_in_turn(a, "\\\n"@, b, " "@);
}

/// A query selects paths where a dot and a name, or a star, follow the word `select`.
#[verifier::rlimit(50)]
pub proof fn selections_start_with_a_path(word: Seq<char>, rest: Seq<char>)
    requires
        lowered(word) == "select"@,
        is_tight(rest),
    ensures
        selects_paths(word + " "@ + rest) == (rest.len() > 1 && rest[0] == '.' && (is_letter(rest[1])
            || rest[1] == '_' || rest[1] == '*')),
        rest.len() > 1 && rest[0] == '.' && is_letter(rest[1]) ==> !is_raw_sql(word + " "@ + rest),
{
    reveal_strlit("select");
    reveal_strlit(" ");
    reveal_strlit("with ");
    reveal_strlit("explain ");
    reveal_strlit("pragma ");
    assert(lowered("select"@) =~= "select"@);
    assert(" "@ =~= seq![' ']);
    keywords_are_split_off(word, ' ', rest, "select"@);
    let q = word + " "@ + rest;
    assert(q == word + seq![' '] + rest);
    let low = lowered(q);
    assert(lowered(word).len() == word.len());
    assert(low.len() == q.len());
    assert(low[0] == lowered(word)[0]);
    if has_prefix(low, "with "@) {
        assert(low.subrange(0, 5)[0] == 'w');
    }
    if has_prefix(low, "explain "@) {
        assert(low.subrange(0, 8)[0] == 'e');
    }
    if has_prefix(low, "pragma "@) {
        assert(low.subrange(0, 7)[0] == 'p');
    }
}

} // verus!
