//! Query plans and their SQL.
use vstd::prelude::*;

use crate::number::{decimal, show};
use crate::source::{after_last, last_piece};
use crate::text::{
    cat2, cat3, cat4, chars_of, contains_char, copy_of, find_back, has_prefix, is_space, is_word,
    join, joined, lemma_find_back_range, lower, lower_char, lowered, occurs_at, push_text, rfind,
    same, starts_with, substring, texts, trim, trimmed,
};
use crate::unnest::{
    alias_safe, all_word, lift_unnest, liftable, lifted, lifting_explodes_each_list_once,
    lifting_leaves_other_fragments_alone, lifting_removes_calls, safe_alias, safe_alias_is_a_name,
    source_alias, stays, unnest_starts,
};

verus! {

// ─── plans ──────────────────────────────────────────────────────────────────
/// An aggregate over the rows of a group.
#[derive(Debug, PartialEq, Eq)]
pub enum Aggregate {
    Count,
    CountDistinct(String),
    Sum(String),
    Avg(String),
    Min(String),
    Max(String),
}

/// The mathematical value of an `Aggregate`.
pub enum AggregateView {
    Count,
    CountDistinct(Seq<char>),
    Sum(Seq<char>),
    Avg(Seq<char>),
    Min(Seq<char>),
    Max(Seq<char>),
}

impl View for Aggregate {
    type V = AggregateView;

    open spec fn view(&self) -> AggregateView {
        match self {
            Aggregate::Count => AggregateView::Count,
            Aggregate::CountDistinct(c) => AggregateView::CountDistinct(c@),
            Aggregate::Sum(c) => AggregateView::Sum(c@),
            Aggregate::Avg(c) => AggregateView::Avg(c@),
            Aggregate::Min(c) => AggregateView::Min(c@),
            Aggregate::Max(c) => AggregateView::Max(c@),
        }
    }
}

/// Which unmatched rows a join keeps.
#[derive(Debug, Clone, Copy, PartialEq, Eq, Structural)]
pub enum JoinKind {
    Inner,
    Left,
    Right,
    Full,
}

/// A join of the source, named `a`, with a second one, named `b`.
#[derive(Debug)]
pub struct Join {
    pub kind: JoinKind,
    pub right_source: String,
    pub on_expr: String,
}

/// The mathematical value of a `Join`.
pub struct JoinView {
    pub kind: JoinKind,
    pub right_source: Seq<char>,
    pub on_expr: Seq<char>,
}

impl View for Join {
    type V = JoinView;

    open spec fn view(&self) -> JoinView {
        JoinView {
            kind: self.kind,
            right_source: self.right_source@,
            on_expr: self.on_expr@,
        }
    }
}

/// Row output as one text column, to be printed as it is.
#[derive(Debug, Clone, Copy, PartialEq, Eq, Structural)]
pub enum LineFormat {
    /// The columns as text with commas between them.
    Csv,
    /// A JSON object per row.
    Json,
}

/// What a query asks for, clause by clause.
#[derive(Debug)]
pub struct QueryPlan {
    pub source: String,
    pub join: Option<Join>,
    pub projections: Vec<String>,
    pub aggregates: Vec<Aggregate>,
    pub filters: Vec<String>,
    pub group_by: Vec<String>,
    /// Filters on groups.
    pub havings: Vec<String>,
    /// Sort expressions, each with `true` for ascending.
    pub order_by: Vec<(String, bool)>,
    pub limit: Option<usize>,
    pub distinct: bool,
    pub line_format: Option<LineFormat>,
}

/// The mathematical value of a `QueryPlan`.
#[verifier::ext_equal]
pub struct PlanView {
    pub source: Seq<char>,
    pub join: Option<JoinView>,
    pub projections: Seq<Seq<char>>,
    pub aggregates: Seq<AggregateView>,
    pub filters: Seq<Seq<char>>,
    pub group_by: Seq<Seq<char>>,
    pub havings: Seq<Seq<char>>,
    pub order_by: Seq<(Seq<char>, bool)>,
    pub limit: Option<int>,
    pub distinct: bool,
    pub line_format: Option<LineFormat>,
}

/// The views of a list of aggregates.
pub open spec fn aggregate_views(v: Seq<Aggregate>) -> Seq<AggregateView> {
    Seq::new(v.len(), |i: int| v[i]@)
}

/// The views of a list of sort expressions.
pub open spec fn order_views(v: Seq<(String, bool)>) -> Seq<(Seq<char>, bool)> {
    Seq::new(v.len(), |i: int| (v[i].0@, v[i].1))
}

impl View for QueryPlan {
    type V = PlanView;

    open spec fn view(&self) -> PlanView {
        PlanView {
            source: self.source@,
            join: match self.join {
                Some(j) => Some(j@),
                None => None,
            },
            projections: texts(self.projections@),
            aggregates: aggregate_views(self.aggregates@),
            filters: texts(self.filters@),
            group_by: texts(self.group_by@),
            havings: texts(self.havings@),
            order_by: order_views(self.order_by@),
            limit: match self.limit {
                Some(n) => Some(n as int),
                None => None,
            },
            distinct: self.distinct,
            line_format: self.line_format,
        }
    }
}

/// The plan that reads every row and column of a source.
pub open spec fn empty_plan(source: Seq<char>) -> PlanView {
    PlanView {
        source,
        join: None,
        projections: Seq::empty(),
        aggregates: Seq::empty(),
        filters: Seq::empty(),
        group_by: Seq::empty(),
        havings: Seq::empty(),
        order_by: Seq::empty(),
        limit: None,
        distinct: false,
        line_format: None,
    }
}

/// The plan has grouping columns or aggregates.
pub open spec fn groups(plan: PlanView) -> bool {
    plan.aggregates.len() > 0 || plan.group_by.len() > 0
}

// ─── names and aliases ──────────────────────────────────────────────────────
/// The text may be an alias: it is in double quotes, or closes no parenthesis.
pub open spec fn may_be_alias(name: Seq<char>) -> bool {
    has_prefix(name, "\""@) || !name.contains(')')
}

/// Where the ` as ` before an expression's alias stands. One inside a call, as in
/// a cast, has no alias behind it.
pub open spec fn alias_at(expr: Seq<char>) -> Option<int> {
    match find_back(lowered(expr), " as "@, expr.len() as int) {
        Some(i) => if may_be_alias(expr.skip(i + 4)) {
            Some(i)
        } else {
            None
        },
        None => None,
    }
}

fn find_alias(expr: &str) -> (r: Option<usize>)
    ensures
        match r {
            Some(i) => alias_at(expr@) == Some(i as int) && i + 4 <= expr@.len(),
            None => alias_at(expr@) is None,
        },
{
    let low = lower(expr);
    let cs = chars_of(expr);
    proof {
        reveal_strlit(" as ");
    }
    match rfind(low.as_str(), " as ") {
        Some(i) => {
            assert(i + 4 <= cs.len());
            let name = substring(&cs, i + 4, cs.len());
            if starts_with(name.as_str(), "\"") || !contains_char(name.as_str(), ')') {
                Some(i)
            } else {
                None
            }
        },
        None => None,
    }
}

/// The expression of `expr AS name`, or all of the text where it has no alias.
pub open spec fn bare_expr(expr: Seq<char>) -> Seq<char> {
    match alias_at(expr) {
        Some(i) => trimmed(expr.take(i)),
        None => trimmed(expr),
    }
}

/// The name of the column that an expression gives: its alias, else what
/// follows its last dot.
pub open spec fn column_name(expr: Seq<char>) -> Seq<char> {
    match alias_at(expr) {
        Some(i) => trimmed(expr.skip(i + 4)),
        None => trimmed(after_last(expr, "."@)),
    }
}

/// Finds the column name that an expression gives.
pub fn final_col_name(expr: &str) -> (r: String)
    ensures
        r@ == column_name(expr@),
{
    let cs = chars_of(expr);
    match find_alias(expr) {
        Some(i) => {
            assert(i + 4 <= cs.len());
            trim(substring(&cs, i + 4, cs.len()).as_str())
        },
        None => trim(last_piece(expr, ".").as_str()),
    }
}

/// Removes the alias of an expression.
pub fn strip_as_alias(expr: &str) -> (r: String)
    ensures
        r@ == bare_expr(expr@),
{
    let cs = chars_of(expr);
    match find_alias(expr) {
        Some(i) => {
            assert(cs@.subrange(0, i as int) =~= expr@.take(i as int));
            trim(substring(&cs, 0, i).as_str())
        },
        None => trim(expr),
    }
}

/// The column name of an aggregate.
pub open spec fn aggregate_alias(a: AggregateView) -> Seq<char> {
    match a {
        AggregateView::Count => "count"@,
        AggregateView::CountDistinct(c) => "count_distinct_"@ + safe_alias(c),
        AggregateView::Sum(c) => "sum_"@ + safe_alias(c),
        AggregateView::Avg(c) => "avg_"@ + safe_alias(c),
        AggregateView::Min(c) => "min_"@ + safe_alias(c),
        AggregateView::Max(c) => "max_"@ + safe_alias(c),
    }
}

/// The call of an aggregate.
pub open spec fn aggregate_call(a: AggregateView) -> Seq<char> {
    match a {
        AggregateView::Count => "count(*)"@,
        AggregateView::CountDistinct(c) => "count(DISTINCT "@ + c + ")"@,
        AggregateView::Sum(c) => "sum("@ + c + ")"@,
        AggregateView::Avg(c) => "avg("@ + c + ")"@,
        AggregateView::Min(c) => "min("@ + c + ")"@,
        AggregateView::Max(c) => "max("@ + c + ")"@,
    }
}

/// The call of an aggregate with its column name.
pub open spec fn aggregate_sql(a: AggregateView) -> Seq<char> {
    aggregate_call(a) + " AS "@ + aggregate_alias(a)
}

impl Aggregate {
    /// The aggregate as a column of a SELECT list.
    pub fn sql(&self) -> (r: String)
        ensures
            r@ == aggregate_sql(self@),
    {
        let call = match self {
            Aggregate::Count => copy_of("count(*)"),
            Aggregate::CountDistinct(c) => cat3("count(DISTINCT ", c.as_str(), ")"),
            Aggregate::Sum(c) => cat3("sum(", c.as_str(), ")"),
            Aggregate::Avg(c) => cat3("avg(", c.as_str(), ")"),
            Aggregate::Min(c) => cat3("min(", c.as_str(), ")"),
            Aggregate::Max(c) => cat3("max(", c.as_str(), ")"),
        };
        cat3(call.as_str(), " AS ", self.alias().as_str())
    }

    /// The column name of the aggregate.
    pub fn alias(&self) -> (r: String)
        ensures
            r@ == aggregate_alias(self@),
    {
        match self {
            Aggregate::Count => copy_of("count"),
            Aggregate::CountDistinct(c) => cat2(
                "count_distinct_",
                alias_safe(c.as_str()).as_str(),
            ),
            Aggregate::Sum(c) => cat2("sum_", alias_safe(c.as_str()).as_str()),
            Aggregate::Avg(c) => cat2("avg_", alias_safe(c.as_str()).as_str()),
            Aggregate::Min(c) => cat2("min_", alias_safe(c.as_str()).as_str()),
            Aggregate::Max(c) => cat2("max_", alias_safe(c.as_str()).as_str()),
        }
    }
}

/// The SQL keywords of a join.
pub open spec fn join_keywords(kind: JoinKind) -> Seq<char> {
    match kind {
        JoinKind::Inner => "INNER JOIN"@,
        JoinKind::Left => "LEFT OUTER JOIN"@,
        JoinKind::Right => "RIGHT OUTER JOIN"@,
        JoinKind::Full => "FULL OUTER JOIN"@,
    }
}

impl JoinKind {
    /// The SQL keywords of the join.
    pub fn sql(self) -> (r: &'static str)
        ensures
            r@ == join_keywords(self),
    {
        match self {
            JoinKind::Inner => "INNER JOIN",
            JoinKind::Left => "LEFT OUTER JOIN",
            JoinKind::Right => "RIGHT OUTER JOIN",
            JoinKind::Full => "FULL OUTER JOIN",
        }
    }
}

// ─── lists of fragments ─────────────────────────────────────────────────────
/// Each fragment lifted in turn, and the sources known after the last one.
pub open spec fn lift_all(frags: Seq<Seq<char>>, sources: Seq<Seq<char>>, force: bool) -> (
    Seq<Seq<char>>,
    Seq<Seq<char>>,
)
    decreases frags.len(),
{
    if frags.len() == 0 {
        (frags, sources)
    } else {
        let (done, known) = lift_all(frags.drop_last(), sources, force);
        let (last, after) = lifted(frags.last(), known, force);
        (done.push(last), after)
    }
}

fn lift_list(frags: &Vec<String>, sources: &mut Vec<String>, force: bool) -> (r: Vec<String>)
    ensures
        (texts(r@), texts(final(sources)@)) == lift_all(
            texts(frags@),
            texts(old(sources)@),
            force,
        ),
{
    let mut out: Vec<String> = Vec::new();
    let mut i: usize = 0;
    assert(texts(out@) =~= texts(frags@).take(0));
    while i < frags.len()
        invariant
            i <= frags.len(),
            (texts(out@), texts(sources@)) == lift_all(
                texts(frags@).take(i as int),
                texts(old(sources)@),
                force,
            ),
        decreases frags.len() - i,
    {
        let ghost t = texts(frags@).take(i + 1);
        assert(t.drop_last() =~= texts(frags@).take(i as int));
        let f = lift_unnest(frags[i].as_str(), sources, force);
        proof {
            crate::text::lemma_texts_push(out@, f);
        }
        out.push(f);
        i += 1;
    }
    assert(texts(frags@).take(frags@.len() as int) =~= texts(frags@));
    out
}

/// The SQL of each aggregate.
pub open spec fn aggregate_sqls(v: Seq<AggregateView>) -> Seq<Seq<char>> {
    Seq::new(v.len(), |i: int| aggregate_sql(v[i]))
}

/// The sort expressions without their directions.
pub open spec fn order_exprs(v: Seq<(Seq<char>, bool)>) -> Seq<Seq<char>> {
    Seq::new(v.len(), |i: int| v[i].0)
}

/// The expressions without their aliases.
pub open spec fn bare_exprs(v: Seq<Seq<char>>) -> Seq<Seq<char>> {
    Seq::new(v.len(), |i: int| bare_expr(v[i]))
}

/// The column names that the expressions give.
pub open spec fn column_names(v: Seq<Seq<char>>) -> Seq<Seq<char>> {
    Seq::new(v.len(), |i: int| column_name(v[i]))
}

/// Each sort expression with the word for its direction.
pub open spec fn order_items(exprs: Seq<Seq<char>>, order: Seq<(Seq<char>, bool)>) -> Seq<
    Seq<char>,
> {
    Seq::new(
        order.len(),
        |i: int|
            exprs[i] + " "@ + if order[i].1 {
                "ASC"@
            } else {
                "DESC"@
            },
    )
}

/// Each exploded list under its name.
pub open spec fn source_columns(sources: Seq<Seq<char>>) -> Seq<Seq<char>> {
    Seq::new(sources.len(), |i: int| "UNNEST("@ + sources[i] + ") AS "@ + source_alias(i))
}

// ─── the SQL of a plan ──────────────────────────────────────────────────────
/// The source of the rows, with its join.
pub open spec fn from_sql(plan: PlanView) -> Seq<char> {
    match plan.join {
        Some(j) => plan.source + " AS a "@ + join_keywords(j.kind) + " "@ + j.right_source
            + " AS b ON "@ + j.on_expr,
        None => plan.source,
    }
}

/// The clauses of a plan with their `UNNEST(...)` calls lifted, and the lists
/// that the calls explode.
pub struct LiftedClauses {
    pub projections: Seq<Seq<char>>,
    pub aggregates: Seq<Seq<char>>,
    pub group_by: Seq<Seq<char>>,
    pub filters: Seq<Seq<char>>,
    pub havings: Seq<Seq<char>>,
    pub order_by: Seq<Seq<char>>,
    pub sources: Seq<Seq<char>>,
}

/// The lifted clauses of a plan. In a SELECT list a call may stand alone; in
/// the other clauses every call is lifted.
pub open spec fn lifted_clauses(plan: PlanView) -> LiftedClauses {
    let (projections, known) = lift_all(plan.projections, Seq::empty(), false);
    let (aggregates, known) = lift_all(aggregate_sqls(plan.aggregates), known, false);
    let (group_by, known) = lift_all(plan.group_by, known, true);
    let (filters, known) = lift_all(plan.filters, known, true);
    let (havings, known) = lift_all(plan.havings, known, true);
    let (order_by, sources) = lift_all(order_exprs(plan.order_by), known, true);
    LiftedClauses { projections, aggregates, group_by, filters, havings, order_by, sources }
}

/// The FROM clause: the source of the rows, inside a derived table where lists
/// have to be exploded.
pub open spec fn from_clause(plan: PlanView, sources: Seq<Seq<char>>) -> Seq<char> {
    if sources.len() == 0 {
        from_sql(plan)
    } else {
        "(SELECT *, "@ + joined(source_columns(sources), ", "@) + " FROM "@ + from_sql(plan)
            + ") AS _pq_src"@
    }
}

/// The columns of the SELECT list.
pub open spec fn select_columns(plan: PlanView, clauses: LiftedClauses) -> Seq<Seq<char>> {
    if groups(plan) {
        clauses.group_by + clauses.aggregates
    } else {
        clauses.projections
    }
}

/// `text`, or nothing where the list is empty.
pub open spec fn clause(list: Seq<Seq<char>>, keyword: Seq<char>, sep: Seq<char>) -> Seq<char> {
    if list.len() == 0 {
        Seq::empty()
    } else {
        keyword + joined(list, sep)
    }
}

/// The SQL of a plan before rows are folded into lines.
pub open spec fn core_sql(plan: PlanView) -> Seq<char> {
    let clauses = lifted_clauses(plan);
    let columns = select_columns(plan, clauses);
    "SELECT "@ + (if plan.distinct {
        "DISTINCT "@
    } else {
        Seq::empty()
    }) + (if columns.len() == 0 {
        "*"@
    } else {
        joined(columns, ", "@)
    }) + " FROM "@ + from_clause(plan, clauses.sources) + clause(
        clauses.filters,
        " WHERE "@,
        " AND "@,
    ) + clause(bare_exprs(clauses.group_by), " GROUP BY "@, ", "@) + clause(
        clauses.havings,
        " HAVING "@,
        " AND "@,
    ) + clause(order_items(clauses.order_by, plan.order_by), " ORDER BY "@, ", "@) + (
    match plan.limit {
        Some(n) => " LIMIT "@ + decimal(n as nat),
        None => Seq::empty(),
    })
}

/// The names of the columns that the rows have, none where all columns of the
/// source are taken.
pub open spec fn row_columns(plan: PlanView) -> Seq<Seq<char>> {
    if groups(plan) {
        column_names(plan.group_by) + aggregate_aliases(plan.aggregates)
    } else if takes_all(column_names(plan.projections)) {
        Seq::empty()
    } else {
        column_names(plan.projections)
    }
}

/// One of the columns stands for all of them.
pub open spec fn takes_all(names: Seq<Seq<char>>) -> bool {
    exists|i: int| 0 <= i < names.len() && #[trigger] names[i] == "*"@
}

fn holds_star(names: &Vec<String>) -> (r: bool)
    ensures
        r == takes_all(texts(names@)),
{
    let ghost views = texts(names@);
    let mut i: usize = 0;
    while i < names.len()
        invariant
            i <= names.len(),
            views == texts(names@),
            forall|k: int| 0 <= k < i ==> #[trigger] views[k] != "*"@,
        decreases names.len() - i,
    {
        assert(views[i as int] == names@[i as int]@);
        if same(names[i].as_str(), "*") {
            return true;
        }
        i += 1;
    }
    false
}

/// The column name of each aggregate.
pub open spec fn aggregate_aliases(v: Seq<AggregateView>) -> Seq<Seq<char>> {
    Seq::new(v.len(), |i: int| aggregate_alias(v[i]))
}

/// Each column as text.
pub open spec fn text_casts(columns: Seq<Seq<char>>) -> Seq<Seq<char>> {
    Seq::new(columns.len(), |i: int| columns[i] + "::TEXT"@)
}

/// Each column as the member of a struct.
pub open spec fn struct_members(columns: Seq<Seq<char>>) -> Seq<Seq<char>> {
    Seq::new(columns.len(), |i: int| "\""@ + columns[i] + "\": "@ + columns[i])
}

/// The expression that folds a row into a line.
pub open spec fn line_expr(columns: Seq<Seq<char>>, fmt: LineFormat) -> Seq<char> {
    match fmt {
        LineFormat::Json => if columns.len() == 0 {
            "to_json(__pq_inner) AS line"@
        } else {
            "to_json({"@ + joined(struct_members(columns), ", "@) + "}) AS line"@
        },
        LineFormat::Csv => if columns.len() == 0 {
            "/* to_csv requires an explicit projection (e.g. .col1, .col2 | to_csv) */ NULL AS line"@
        } else {
            "concat_ws(',', "@ + joined(text_casts(columns), ", "@) + ") AS line"@
        },
    }
}

/// The SQL of a plan.
pub open spec fn plan_sql(plan: PlanView) -> Seq<char> {
    match plan.line_format {
        None => core_sql(plan),
        Some(fmt) => "SELECT "@ + line_expr(row_columns(plan), fmt) + " FROM ("@ + core_sql(plan)
            + ") AS __pq_inner"@,
    }
}

// ─── executable lists ───────────────────────────────────────────────────────
/// The expressions without their aliases.
fn list_bare(v: &Vec<String>) -> (r: Vec<String>)
    ensures
        texts(r@) == bare_exprs(texts(v@)),
{
    let mut out: Vec<String> = Vec::new();
    let mut i: usize = 0;
    let ghost want = bare_exprs(texts(v@));
    while i < v.len()
        invariant
            i <= v.len(),
            want == bare_exprs(texts(v@)),
            want.len() == v.len(),
            texts(out@) == want.take(i as int),
        decreases v.len() - i,
    {
        let item = strip_as_alias(v[i].as_str());
        proof {
            crate::text::lemma_texts_push(out@, item);
            assert(want.take(i + 1) =~= want.take(i as int).push(item@));
        }
        out.push(item);
        i += 1;
    }
    assert(want.take(want.len() as int) =~= want);
    out
}

/// The column names that the expressions give.
fn list_names(v: &Vec<String>) -> (r: Vec<String>)
    ensures
        texts(r@) == column_names(texts(v@)),
{
    let mut out: Vec<String> = Vec::new();
    let mut i: usize = 0;
    let ghost want = column_names(texts(v@));
    while i < v.len()
        invariant
            i <= v.len(),
            want == column_names(texts(v@)),
            want.len() == v.len(),
            texts(out@) == want.take(i as int),
        decreases v.len() - i,
    {
        let item = final_col_name(v[i].as_str());
        proof {
            crate::text::lemma_texts_push(out@, item);
            assert(want.take(i + 1) =~= want.take(i as int).push(item@));
        }
        out.push(item);
        i += 1;
    }
    assert(want.take(want.len() as int) =~= want);
    out
}

/// Each column as text.
fn list_casts(v: &Vec<String>) -> (r: Vec<String>)
    ensures
        texts(r@) == text_casts(texts(v@)),
{
    let mut out: Vec<String> = Vec::new();
    let mut i: usize = 0;
    let ghost want = text_casts(texts(v@));
    while i < v.len()
        invariant
            i <= v.len(),
            want == text_casts(texts(v@)),
            want.len() == v.len(),
            texts(out@) == want.take(i as int),
        decreases v.len() - i,
    {
        let item = cat2(v[i].as_str(), "::TEXT");
        proof {
            crate::text::lemma_texts_push(out@, item);
            assert(want.take(i + 1) =~= want.take(i as int).push(item@));
        }
        out.push(item);
        i += 1;
    }
    assert(want.take(want.len() as int) =~= want);
    out
}

/// Each column as the member of a struct.
fn list_members(v: &Vec<String>) -> (r: Vec<String>)
    ensures
        texts(r@) == struct_members(texts(v@)),
{
    let mut out: Vec<String> = Vec::new();
    let mut i: usize = 0;
    let ghost want = struct_members(texts(v@));
    while i < v.len()
        invariant
            i <= v.len(),
            want == struct_members(texts(v@)),
            want.len() == v.len(),
            texts(out@) == want.take(i as int),
        decreases v.len() - i,
    {
        let item = cat4("\"", v[i].as_str(), "\": ", v[i].as_str());
        proof {
            crate::text::lemma_texts_push(out@, item);
            assert(want.take(i + 1) =~= want.take(i as int).push(item@));
        }
        out.push(item);
        i += 1;
    }
    assert(want.take(want.len() as int) =~= want);
    out
}

/// Each exploded list under its name.
fn list_sources(v: &Vec<String>) -> (r: Vec<String>)
    ensures
        texts(r@) == source_columns(texts(v@)),
{
    let mut out: Vec<String> = Vec::new();
    let mut i: usize = 0;
    let ghost want = source_columns(texts(v@));
    while i < v.len()
        invariant
            i <= v.len(),
            want == source_columns(texts(v@)),
            want.len() == v.len(),
            texts(out@) == want.take(i as int),
        decreases v.len() - i,
    {
        let item = cat4("UNNEST(", v[i].as_str(), ") AS ", cat2("_pq_u", show(i as u128).as_str()).as_str());
        proof {
            crate::text::lemma_texts_push(out@, item);
            assert(want.take(i + 1) =~= want.take(i as int).push(item@));
        }
        out.push(item);
        i += 1;
    }
    assert(want.take(want.len() as int) =~= want);
    out
}

/// The SQL of each aggregate.
fn list_aggregates(v: &Vec<Aggregate>) -> (r: Vec<String>)
    ensures
        texts(r@) == aggregate_sqls(aggregate_views(v@)),
{
    let mut out: Vec<String> = Vec::new();
    let mut i: usize = 0;
    let ghost want = aggregate_sqls(aggregate_views(v@));
    while i < v.len()
        invariant
            i <= v.len(),
            want == aggregate_sqls(aggregate_views(v@)),
            want.len() == v.len(),
            texts(out@) == want.take(i as int),
        decreases v.len() - i,
    {
        let item = v[i].sql();
        proof {
            crate::text::lemma_texts_push(out@, item);
            assert(want.take(i + 1) =~= want.take(i as int).push(item@));
        }
        out.push(item);
        i += 1;
    }
    assert(want.take(want.len() as int) =~= want);
    out
}

/// The column name of each aggregate.
fn list_aggregate_aliases(v: &Vec<Aggregate>) -> (r: Vec<String>)
    ensures
        texts(r@) == aggregate_aliases(aggregate_views(v@)),
{
    let mut out: Vec<String> = Vec::new();
    let mut i: usize = 0;
    let ghost want = aggregate_aliases(aggregate_views(v@));
    while i < v.len()
        invariant
            i <= v.len(),
            want == aggregate_aliases(aggregate_views(v@)),
            want.len() == v.len(),
            texts(out@) == want.take(i as int),
        decreases v.len() - i,
    {
        let item = v[i].alias();
        proof {
            crate::text::lemma_texts_push(out@, item);
            assert(want.take(i + 1) =~= want.take(i as int).push(item@));
        }
        out.push(item);
        i += 1;
    }
    assert(want.take(want.len() as int) =~= want);
    out
}

/// The sort expressions without their directions.
fn list_order_exprs(v: &Vec<(String, bool)>) -> (r: Vec<String>)
    ensures
        texts(r@) == order_exprs(order_views(v@)),
{
    let mut out: Vec<String> = Vec::new();
    let mut i: usize = 0;
    let ghost want = order_exprs(order_views(v@));
    while i < v.len()
        invariant
            i <= v.len(),
            want == order_exprs(order_views(v@)),
            want.len() == v.len(),
            texts(out@) == want.take(i as int),
        decreases v.len() - i,
    {
        let item = v[i].0.clone();
        proof {
            crate::text::lemma_texts_push(out@, item);
            assert(want.take(i + 1) =~= want.take(i as int).push(item@));
        }
        out.push(item);
        i += 1;
    }
    assert(want.take(want.len() as int) =~= want);
    out
}

/// Each sort expression with the word for its direction.
fn list_order_items(exprs: &Vec<String>, order: &Vec<(String, bool)>) -> (r: Vec<String>)
    requires
        exprs@.len() == order@.len(),
    ensures
        texts(r@) == order_items(texts(exprs@), order_views(order@)),
{
    let mut out: Vec<String> = Vec::new();
    let mut i: usize = 0;
    let ghost want = order_items(texts(exprs@), order_views(order@));
    while i < order.len()
        invariant
            i <= order.len(),
            exprs@.len() == order@.len(),
            want == order_items(texts(exprs@), order_views(order@)),
            want.len() == order.len(),
            texts(out@) == want.take(i as int),
        decreases order.len() - i,
    {
        let item = cat3(exprs[i].as_str(), " ", if order[i].1 { "ASC" } else { "DESC" });
        proof {
            crate::text::lemma_texts_push(out@, item);
            assert(want.take(i + 1) =~= want.take(i as int).push(item@));
        }
        out.push(item);
        i += 1;
    }
    assert(want.take(want.len() as int) =~= want);
    out
}

/// `a` followed by `b`.
fn concat_lists(a: Vec<String>, b: &Vec<String>) -> (r: Vec<String>)
    ensures
        texts(r@) == texts(a@) + texts(b@),
{
    let mut out = a;
    let mut i: usize = 0;
    assert(texts(out@) =~= texts(a@) + texts(b@).take(0));
    while i < b.len()
        invariant
            i <= b.len(),
            texts(out@) == texts(a@) + texts(b@).take(i as int),
        decreases b.len() - i,
    {
        let item = b[i].clone();
        proof {
            crate::text::lemma_texts_push(out@, item);
            assert(texts(a@) + texts(b@).take(i + 1) =~= (texts(a@) + texts(b@).take(
                i as int,
            )).push(item@));
        }
        out.push(item);
        i += 1;
    }
    assert(texts(b@).take(b@.len() as int) =~= texts(b@));
    out
}

/// A keyword and the list, or nothing where the list is empty.
fn write_clause(list: &Vec<String>, keyword: &str, sep: &str) -> (r: String)
    ensures
        r@ == clause(texts(list@), keyword@, sep@),
{
    if list.len() == 0 {
        let r = String::new();
        assert(r@ =~= Seq::empty());
        r
    } else {
        cat2(keyword, join(list, sep).as_str())
    }
}

proof fn lemma_lift_all_length(frags: Seq<Seq<char>>, sources: Seq<Seq<char>>, force: bool)
    ensures
        lift_all(frags, sources, force).0.len() == frags.len(),
    decreases frags.len(),
{
    if frags.len() > 0 {
        lemma_lift_all_length(frags.drop_last(), sources, force);
    }
}

impl QueryPlan {
    /// The plan that reads every row and column of a source.
    pub fn new(source: String) -> (r: Self)
        ensures
            r@ == empty_plan(source@),
    {
        let r = QueryPlan {
            source,
            join: None,
            projections: Vec::new(),
            aggregates: Vec::new(),
            filters: Vec::new(),
            group_by: Vec::new(),
            havings: Vec::new(),
            order_by: Vec::new(),
            limit: None,
            distinct: false,
            line_format: None,
        };
        assert(r@ =~= empty_plan(source@));
        r
    }

    /// Does the plan have grouping columns or aggregates?
    pub fn has_grouping(&self) -> (r: bool)
        ensures
            r == groups(self@),
    {
        self.aggregates.len() > 0 || self.group_by.len() > 0
    }

    /// The names of the columns that the rows have.
    pub fn final_column_names(&self) -> (r: Vec<String>)
        ensures
            texts(r@) == row_columns(self@),
    {
        if self.has_grouping() {
            concat_lists(
                list_names(&self.group_by),
                &list_aggregate_aliases(&self.aggregates),
            )
        } else {
            let names = list_names(&self.projections);
            if holds_star(&names) {
                let none: Vec<String> = Vec::new();
                assert(texts(none@) =~= Seq::empty());
                none
            } else {
                names
            }
        }
    }

    /// The source of the rows, with its join.
    pub fn build_from_clause(&self) -> (r: String)
        ensures
            r@ == from_sql(self@),
    {
        match &self.join {
            Some(j) => {
                let mut s = cat4(self.source.as_str(), " AS a ", j.kind.sql(), " ");
                push_text(&mut s, j.right_source.as_str());
                push_text(&mut s, " AS b ON ");
                push_text(&mut s, j.on_expr.as_str());
                s
            },
            None => self.source.clone(),
        }
    }

    /// The SQL of the plan before rows are folded into lines.
    pub fn to_sql_core(&self) -> (r: String)
        ensures
            r@ == core_sql(self@),
    {
        let mut sources: Vec<String> = Vec::new();
        assert(texts(sources@) =~= Seq::empty());
        let projections = lift_list(&self.projections, &mut sources, false);
        let aggregates = lift_list(&list_aggregates(&self.aggregates), &mut sources, false);
        let group_by = lift_list(&self.group_by, &mut sources, true);
        let filters = lift_list(&self.filters, &mut sources, true);
        let havings = lift_list(&self.havings, &mut sources, true);
        let ghost known = texts(sources@);
        let order_exprs = list_order_exprs(&self.order_by);
        let order_by = lift_list(&order_exprs, &mut sources, true);
        proof {
            lemma_lift_all_length(texts(order_exprs@), known, true);
            assert(texts(order_by@).len() == order_by@.len());
            assert(texts(order_exprs@).len() == order_exprs@.len());
        }
        let ghost clauses = lifted_clauses(self@);
        assert(clauses.projections == texts(projections@));
        assert(clauses.aggregates == texts(aggregates@));
        assert(clauses.group_by == texts(group_by@));
        assert(clauses.filters == texts(filters@));
        assert(clauses.havings == texts(havings@));
        assert(clauses.order_by == texts(order_by@));
        assert(clauses.sources == texts(sources@));

        let from = self.build_from_clause();
        let from = if sources.len() == 0 {
            from
        } else {
            let mut s = cat4(
                "(SELECT *, ",
                join(&list_sources(&sources), ", ").as_str(),
                " FROM ",
                from.as_str(),
            );
            push_text(&mut s, ") AS _pq_src");
            s
        };
        assert(from@ == from_clause(self@, clauses.sources));

        let grouped = list_bare(&group_by);
        let columns = if self.has_grouping() {
            concat_lists(group_by, &aggregates)
        } else {
            projections
        };
        assert(texts(columns@) == select_columns(self@, clauses));
        let mut sql = copy_of("SELECT ");
        if self.distinct {
            push_text(&mut sql, "DISTINCT ");
        } else {
            assert(sql@ =~= sql@ + Seq::<char>::empty());
        }
        if columns.len() == 0 {
            push_text(&mut sql, "*");
        } else {
            push_text(&mut sql, join(&columns, ", ").as_str());
        }
        push_text(&mut sql, " FROM ");
        push_text(&mut sql, from.as_str());
        push_text(&mut sql, write_clause(&filters, " WHERE ", " AND ").as_str());
        push_text(&mut sql, write_clause(&grouped, " GROUP BY ", ", ").as_str());
        push_text(&mut sql, write_clause(&havings, " HAVING ", " AND ").as_str());
        let order = list_order_items(&order_by, &self.order_by);
        push_text(&mut sql, write_clause(&order, " ORDER BY ", ", ").as_str());
        match self.limit {
            Some(n) => {
                push_text(&mut sql, cat2(" LIMIT ", show(n as u128).as_str()).as_str());
            },
            None => {
                assert(sql@ =~= sql@ + Seq::<char>::empty());
            },
        }
        sql
    }

    /// Folds the rows of the plan's SQL into lines.
    pub fn wrap_for_line_output(&self, inner_sql: String, fmt: LineFormat) -> (r: String)
        ensures
            r@ == "SELECT "@ + line_expr(row_columns(self@), fmt) + " FROM ("@ + inner_sql@
                + ") AS __pq_inner"@,
    {
        let columns = self.final_column_names();
        let fold = match fmt {
            LineFormat::Json => {
                if columns.len() == 0 {
                    copy_of("to_json(__pq_inner) AS line")
                } else {
                    cat3("to_json({", join(&list_members(&columns), ", ").as_str(), "}) AS line")
                }
            },
            LineFormat::Csv => {
                if columns.len() == 0 {
                    copy_of(
                        "/* to_csv requires an explicit projection (e.g. .col1, .col2 | to_csv) */ NULL AS line",
                    )
                } else {
                    cat3(
                        "concat_ws(',', ",
                        join(&list_casts(&columns), ", ").as_str(),
                        ") AS line",
                    )
                }
            },
        };
        assert(texts(columns@).len() == columns@.len());
        let mut s = cat4("SELECT ", fold.as_str(), " FROM (", inner_sql.as_str());
        push_text(&mut s, ") AS __pq_inner");
        s
    }

    /// The SQL of the plan.
    pub fn to_sql(&self) -> (r: String)
        ensures
            r@ == plan_sql(self@),
    {
        let core = self.to_sql_core();
        match self.line_format {
            None => core,
            Some(fmt) => self.wrap_for_line_output(core, fmt),
        }
    }
}

// ─── laws ───────────────────────────────────────────────────────────────────
proof fn lemma_lift_all_sources(frags: Seq<Seq<char>>, sources: Seq<Seq<char>>, force: bool)
    requires
        sources.no_duplicates(),
    ensures
        lift_all(frags, sources, force).1.no_duplicates(),
    decreases frags.len(),
{
    if frags.len() > 0 {
        lemma_lift_all_sources(frags.drop_last(), sources, force);
        let known = lift_all(frags.drop_last(), sources, force).1;
        lifting_explodes_each_list_once(frags.last(), known, force);
    }
}

/// However often a plan refers to the elements of a list, its SQL explodes the
/// list once.
pub proof fn each_list_is_exploded_once(plan: PlanView)
    ensures
        lifted_clauses(plan).sources.no_duplicates(),
{
    let (projections, known) = lift_all(plan.projections, Seq::empty(), false);
    lemma_lift_all_sources(plan.projections, Seq::empty(), false);
    lemma_lift_all_sources(aggregate_sqls(plan.aggregates), known, false);
    let (aggregates, known) = lift_all(aggregate_sqls(plan.aggregates), known, false);
    lemma_lift_all_sources(plan.group_by, known, true);
    let (group_by, known) = lift_all(plan.group_by, known, true);
    lemma_lift_all_sources(plan.filters, known, true);
    let (filters, known) = lift_all(plan.filters, known, true);
    lemma_lift_all_sources(plan.havings, known, true);
    let (havings, known) = lift_all(plan.havings, known, true);
    lemma_lift_all_sources(order_exprs(plan.order_by), known, true);
}

/// Every `UNNEST(` that starts in one of the fragments comes from one that does
/// not close.
pub open spec fn free_of_calls(before: Seq<Seq<char>>, after: Seq<Seq<char>>) -> bool {
    &&& before.len() == after.len()
    &&& forall|i: int, j: int|
        0 <= i < after.len() && #[trigger] unnest_starts(after[i], j) ==> exists|k: int| #[trigger]
            stays(before[i], k, true)
}

proof fn lemma_lift_all_removes_calls(frags: Seq<Seq<char>>, sources: Seq<Seq<char>>)
    ensures
        free_of_calls(frags, lift_all(frags, sources, true).0),
    decreases frags.len(),
{
    lemma_lift_all_length(frags, sources, true);
    if frags.len() > 0 {
        lemma_lift_all_removes_calls(frags.drop_last(), sources);
        let (done, known) = lift_all(frags.drop_last(), sources, true);
        let all = lift_all(frags, sources, true).0;
        assert forall|i: int, j: int|
            0 <= i < all.len() && #[trigger] unnest_starts(all[i], j) implies exists|k: int| #[trigger]
            stays(frags[i], k, true) by {
            if i < done.len() {
                assert(all[i] == done[i]);
                assert(frags.drop_last()[i] == frags[i]);
            } else {
                lifting_removes_calls(frags.last(), known, true, j);
            }
        }
    }
}

/// Outside the SELECT list DuckDB rejects `UNNEST`. The WHERE, GROUP BY, HAVING
/// and ORDER BY clauses of the SQL hold no such call, unless one of the plan's
/// own fragments has a call that does not close or stands in a literal.
pub proof fn clauses_hold_no_unnest(plan: PlanView)
    ensures
        free_of_calls(plan.group_by, lifted_clauses(plan).group_by),
        free_of_calls(plan.filters, lifted_clauses(plan).filters),
        free_of_calls(plan.havings, lifted_clauses(plan).havings),
        free_of_calls(order_exprs(plan.order_by), lifted_clauses(plan).order_by),
{
    let (projections, known) = lift_all(plan.projections, Seq::empty(), false);
    let (aggregates, known) = lift_all(aggregate_sqls(plan.aggregates), known, false);
    lemma_lift_all_removes_calls(plan.group_by, known);
    let (group_by, known) = lift_all(plan.group_by, known, true);
    lemma_lift_all_removes_calls(plan.filters, known);
    let (filters, known) = lift_all(plan.filters, known, true);
    lemma_lift_all_removes_calls(plan.havings, known);
    let (havings, known) = lift_all(plan.havings, known, true);
    lemma_lift_all_removes_calls(order_exprs(plan.order_by), known);
}

/// An expression with an alias comes apart into the two, where no further
/// ` as ` follows.
#[verifier::rlimit(50)]
pub proof fn alias_splits_off(expr: Seq<char>, name: Seq<char>)
    requires
        may_be_alias(name),
        forall|k: int|
            expr.len() < k ==> !#[trigger] occurs_at(
                lowered(expr + " AS "@ + name),
                " as "@,
                k,
            ),
    ensures
        column_name(expr + " AS "@ + name) == trimmed(name),
        bare_expr(expr + " AS "@ + name) == trimmed(expr),
{
    let whole = expr + " AS "@ + name;
    let low = lowered(whole);
    let n = expr.len() as int;
    reveal_strlit(" AS ");
    reveal_strlit(" as ");
    assert(low.subrange(n, n + 4) =~= " as "@);
    assert(occurs_at(low, " as "@, n));
    lemma_find_back_range(low, " as "@, whole.len() as int);
    assert(find_back(low, " as "@, whole.len() as int) == Some(n));
    assert(whole.skip(n + 4) =~= name);
    assert(whole.take(n) =~= expr);
}

/// The column of an expression with a plain alias has the alias for a name, and
/// the expression comes back without it.
#[verifier::rlimit(50)]
pub proof fn plain_alias_names_the_column(expr: Seq<char>, name: Seq<char>)
    requires
        all_word(name),
    ensures
        column_name(expr + " AS "@ + name) == name,
        bare_expr(expr + " AS "@ + name) == trimmed(expr),
{
    let low = lowered(expr + " AS "@ + name);
    reveal_strlit(" AS ");
    reveal_strlit(" as ");
    assert forall|k: int| expr.len() < k implies !#[trigger] occurs_at(low, " as "@, k) by {
        if occurs_at(low, " as "@, k) {
            let w = low.subrange(k, k + 4);
            assert(w[0] == ' ' && w[3] == ' ');
            let whole = expr + " AS "@ + name;
            let p = k + 3 - expr.len() - 4;
            assert(w[3] == lower_char(whole[k + 3]));
            assert(w[0] == lower_char(whole[k]));
            if k + 3 < expr.len() + 4 {
                assert(false);
            } else {
                assert(whole[k + 3] == name[p]);
                assert(is_word(name[p]));
                assert(false);
            }
        }
    }
    assert(!name.contains(')')) by {
        assert forall|k: int| 0 <= k < name.len() implies name[k] != ')' by {
            assert(is_word(name[k]));
        }
    }
    alias_splits_off(expr, name);
    assert(name.len() > 0 ==> is_word(name[0]) && is_word(name[name.len() - 1]));
    assert(trimmed(name) == name);
}

/// The column that an aggregate gives has the aggregate's own alias for a name.
pub proof fn aggregate_column_has_its_alias(a: AggregateView)
    ensures
        column_name(aggregate_sql(a)) == aggregate_alias(a),
        all_word(aggregate_alias(a)),
{
    lemma_aggregate_alias_is_a_name(a);
    plain_alias_names_the_column(aggregate_call(a), aggregate_alias(a));
}

proof fn lemma_aggregate_alias_is_a_name(a: AggregateView)
    ensures
        all_word(aggregate_alias(a)),
{
    reveal_strlit("count");
    reveal_strlit("count_distinct_");
    reveal_strlit("sum_");
    reveal_strlit("avg_");
    reveal_strlit("min_");
    reveal_strlit("max_");
    match a {
        AggregateView::Count => {},
        AggregateView::CountDistinct(c) => {
            safe_alias_is_a_name(c);
        },
        AggregateView::Sum(c) => {
            safe_alias_is_a_name(c);
        },
        AggregateView::Avg(c) => {
            safe_alias_is_a_name(c);
        },
        AggregateView::Min(c) => {
            safe_alias_is_a_name(c);
        },
        AggregateView::Max(c) => {
            safe_alias_is_a_name(c);
        },
    }
}

// ─── what the SQL says ──────────────────────────────────────────────────────
/// Conditions that all have to hold.
pub open spec fn all_of(conditions: Seq<Seq<char>>) -> Seq<char>
    recommends
        conditions.len() > 0,
    decreases conditions.len(),
{
    if conditions.len() <= 1 {
        conditions[0]
    } else {
        all_of(conditions.drop_last()) + " AND "@ + conditions.last()
    }
}

/// Items with commas between them.
pub open spec fn listed(items: Seq<Seq<char>>) -> Seq<char>
    recommends
        items.len() > 0,
    decreases items.len(),
{
    if items.len() <= 1 {
        items[0]
    } else {
        listed(items.drop_last()) + ", "@ + items.last()
    }
}

proof fn lemma_joined_is_all_of(conditions: Seq<Seq<char>>)
    requires
        conditions.len() > 0,
    ensures
        joined(conditions, " AND "@) == all_of(conditions),
    decreases conditions.len(),
{
    if conditions.len() > 1 {
        lemma_joined_is_all_of(conditions.drop_last());
    }
}

proof fn lemma_joined_is_listed(items: Seq<Seq<char>>)
    requires
        items.len() > 0,
    ensures
        joined(items, ", "@) == listed(items),
    decreases items.len(),
{
    if items.len() > 1 {
        lemma_joined_is_listed(items.drop_last());
    }
}

/// A sort expression with its direction.
pub open spec fn directed(expr: Seq<char>, ascending: bool) -> Seq<char> {
    if ascending {
        expr + " ASC"@
    } else {
        expr + " DESC"@
    }
}

/// The SQL of a plan is one SELECT with its clauses in SQL's order. All filters
/// on rows have to hold, and all filters on groups; grouping columns are given
/// without their names; every sort expression has its direction.
#[verifier::rlimit(50)]
pub proof fn sql_has_every_clause(plan: PlanView)
    ensures
        ({
            let c = lifted_clauses(plan);
            let columns = if plan.aggregates.len() > 0 || plan.group_by.len() > 0 {
                c.group_by + c.aggregates
            } else {
                c.projections
            };
            let what = if columns.len() == 0 {
                "*"@
            } else {
                listed(columns)
            };
            let from = if c.sources.len() == 0 {
                from_sql(plan)
            } else {
                "(SELECT *, "@ + listed(
                    Seq::new(
                        c.sources.len(),
                        |i: int|
                            "UNNEST("@ + c.sources[i] + ") AS _pq_u"@ + decimal(i as nat),
                    ),
                ) + " FROM "@ + from_sql(plan) + ") AS _pq_src"@
            };
            let rows = if c.filters.len() == 0 {
                ""@
            } else {
                " WHERE "@ + all_of(c.filters)
            };
            let grouping = if c.group_by.len() == 0 {
                ""@
            } else {
                " GROUP BY "@ + listed(Seq::new(c.group_by.len(), |i: int| bare_expr(c.group_by[i])))
            };
            let groups_kept = if c.havings.len() == 0 {
                ""@
            } else {
                " HAVING "@ + all_of(c.havings)
            };
            let order = if plan.order_by.len() == 0 {
                ""@
            } else {
                " ORDER BY "@ + listed(
                    Seq::new(
                        plan.order_by.len(),
                        |i: int| directed(c.order_by[i], plan.order_by[i].1),
                    ),
                )
            };
            let limit = match plan.limit {
                Some(n) => " LIMIT "@ + decimal(n as nat),
                None => ""@,
            };
            core_sql(plan) == (if plan.distinct {
                "SELECT DISTINCT "@
            } else {
                "SELECT "@
            }) + what + " FROM "@ + from + rows + grouping + groups_kept + order + limit
        }),
{
    let c = lifted_clauses(plan);
    let columns = select_columns(plan, c);
    reveal_strlit("");
    reveal_strlit("SELECT ");
    reveal_strlit("DISTINCT ");
    reveal_strlit("SELECT DISTINCT ");
    assert(""@ =~= Seq::<char>::empty());
    assert("SELECT "@ + "DISTINCT "@ =~= "SELECT DISTINCT "@);
    assert("SELECT "@ + Seq::<char>::empty() =~= "SELECT "@);
    if columns.len() > 0 {
        lemma_joined_is_listed(columns);
    }
    if c.sources.len() > 0 {
        let named = Seq::new(
            c.sources.len(),
            |i: int| "UNNEST("@ + c.sources[i] + ") AS _pq_u"@ + decimal(i as nat),
        );
        reveal_strlit("UNNEST(");
        reveal_strlit(") AS ");
        reveal_strlit(") AS _pq_u");
        reveal_strlit("_pq_u");
        assert forall|i: int| 0 <= i < named.len() implies #[trigger] source_columns(c.sources)[i]
            == named[i] by {
            assert("UNNEST("@ + c.sources[i] + ") AS "@ + ("_pq_u"@ + decimal(i as nat))
                =~= "UNNEST("@ + c.sources[i] + ") AS _pq_u"@ + decimal(i as nat));
        }
        assert(source_columns(c.sources) =~= named);
        lemma_joined_is_listed(named);
    }
    if c.filters.len() > 0 {
        lemma_joined_is_all_of(c.filters);
    }
    if c.havings.len() > 0 {
        lemma_joined_is_all_of(c.havings);
    }
    if c.group_by.len() > 0 {
        let bare = Seq::new(c.group_by.len(), |i: int| bare_expr(c.group_by[i]));
        assert(bare_exprs(c.group_by) =~= bare);
        lemma_joined_is_listed(bare);
    }
    if plan.order_by.len() > 0 {
        let items = Seq::new(
            plan.order_by.len(),
            |i: int| directed(c.order_by[i], plan.order_by[i].1),
        );
        reveal_strlit(" ");
        reveal_strlit("ASC");
        reveal_strlit("DESC");
        reveal_strlit(" ASC");
        reveal_strlit(" DESC");
        assert forall|i: int| 0 <= i < items.len() implies #[trigger] order_items(
            c.order_by,
            plan.order_by,
        )[i] == items[i] by {
            assert(c.order_by[i] + " "@ + "ASC"@ =~= c.order_by[i] + " ASC"@);
            assert(c.order_by[i] + " "@ + "DESC"@ =~= c.order_by[i] + " DESC"@);
        }
        assert(order_items(c.order_by, plan.order_by) =~= items);
        lemma_joined_is_listed(items);
    }
}

/// No fragment of the plan has a call to lift.
pub open spec fn explodes_nothing(plan: PlanView) -> bool {
    &&& nothing_to_lift(plan.projections, false)
    &&& nothing_to_lift(aggregate_sqls(plan.aggregates), false)
    &&& nothing_to_lift(plan.group_by, true)
    &&& nothing_to_lift(plan.filters, true)
    &&& nothing_to_lift(plan.havings, true)
    &&& nothing_to_lift(order_exprs(plan.order_by), true)
}

/// No fragment has a call to lift.
pub open spec fn nothing_to_lift(frags: Seq<Seq<char>>, force: bool) -> bool {
    forall|i: int, k: int|
        0 <= i < frags.len() && 0 <= k < frags[i].len() ==> #[trigger] liftable(frags[i], k, force)
            is None
}

proof fn lemma_nothing_lifted(frags: Seq<Seq<char>>, sources: Seq<Seq<char>>, force: bool)
    requires
        nothing_to_lift(frags, force),
    ensures
        lift_all(frags, sources, force) == (frags, sources),
    decreases frags.len(),
{
    if frags.len() > 0 {
        let front = frags.drop_last();
        assert forall|i: int, k: int|
            0 <= i < front.len() && 0 <= k < front[i].len() implies #[trigger] liftable(
            front[i],
            k,
            force,
        ) is None by {
            assert(front[i] == frags[i]);
        }
        lemma_nothing_lifted(front, sources, force);
        let last = frags[frags.len() - 1];
        assert forall|k: int| 0 <= k < last.len() implies liftable(last, k, force) is None by {
            assert(liftable(frags[frags.len() - 1], k, force) is None);
        }
        lifting_leaves_other_fragments_alone(last, sources, force);
        assert(front.push(last) =~= frags);
    }
}

/// Where nothing has to be exploded, the clauses of the SQL are the plan's own, and
/// the rows come from the plan's source as it is.
pub proof fn plain_clauses_stay(plan: PlanView)
    requires
        explodes_nothing(plan),
    ensures
        ({
            let c = lifted_clauses(plan);
            &&& c.projections == plan.projections
            &&& c.group_by == plan.group_by
            &&& c.filters == plan.filters
            &&& c.havings == plan.havings
            &&& c.sources.len() == 0
            &&& c.aggregates.len() == plan.aggregates.len()
            &&& c.order_by.len() == plan.order_by.len()
            &&& forall|i: int|
                0 <= i < plan.aggregates.len() ==> #[trigger] c.aggregates[i] == aggregate_sql(
                    plan.aggregates[i],
                )
            &&& forall|i: int|
                0 <= i < plan.order_by.len() ==> #[trigger] c.order_by[i] == plan.order_by[i].0
        }),
{
    let none = Seq::<Seq<char>>::empty();
    lemma_nothing_lifted(plan.projections, none, false);
    lemma_nothing_lifted(aggregate_sqls(plan.aggregates), none, false);
    lemma_nothing_lifted(plan.group_by, none, true);
    lemma_nothing_lifted(plan.filters, none, true);
    lemma_nothing_lifted(plan.havings, none, true);
    lemma_nothing_lifted(order_exprs(plan.order_by), none, true);
}

/// One more filter restricts the rows further: it joins the filters before it by
/// AND, and nothing else of the SQL changes.
#[verifier::rlimit(50)]
pub proof fn filters_add_up(plan: PlanView, filter: Seq<char>)
    requires
        explodes_nothing(plan),
        plan.filters.len() > 0,
        nothing_to_lift(seq![filter], true),
    ensures
        ({
            let more = PlanView { filters: plan.filters.push(filter), ..plan };
            exists|head: Seq<char>, tail: Seq<char>|
                core_sql(plan) == #[trigger] (head + " WHERE "@ + all_of(plan.filters) + tail)
                    && core_sql(more) == head + " WHERE "@ + all_of(plan.filters) + " AND "@
                    + filter + tail
        }),
{
    let more = PlanView { filters: plan.filters.push(filter), ..plan };
    let fs = more.filters;
    assert forall|i: int, k: int| 0 <= i < fs.len() && 0 <= k < fs[i].len() implies #[trigger] liftable(
        fs[i],
        k,
        true,
    ) is None by {
        if i < plan.filters.len() {
            assert(fs[i] == plan.filters[i]);
            assert(liftable(plan.filters[i], k, true) is None);
        } else {
            assert(liftable(seq![filter][0], k, true) is None);
        }
    }
    plain_clauses_stay(plan);
    plain_clauses_stay(more);
    let c = lifted_clauses(plan);
    let d = lifted_clauses(more);
    assert(c.aggregates =~= d.aggregates);
    assert(c.order_by =~= d.order_by);
    lemma_joined_is_all_of(plan.filters);
    lemma_joined_is_all_of(fs);
    assert(fs.drop_last() =~= plan.filters);
    let columns = select_columns(plan, c);
    let head = "SELECT "@ + (if plan.distinct {
        "DISTINCT "@
    } else {
        Seq::empty()
    }) + (if columns.len() == 0 {
        "*"@
    } else {
        joined(columns, ", "@)
    }) + " FROM "@ + from_clause(plan, c.sources);
    let grouping = clause(bare_exprs(c.group_by), " GROUP BY "@, ", "@);
    let having = clause(c.havings, " HAVING "@, " AND "@);
    let order = clause(order_items(c.order_by, plan.order_by), " ORDER BY "@, ", "@);
    let limit = match plan.limit {
        Some(n) => " LIMIT "@ + decimal(n as nat),
        None => Seq::empty(),
    };
    let tail = grouping + having + order + limit;
    let old_rows = " WHERE "@ + all_of(plan.filters);
    let new_rows = " WHERE "@ + all_of(fs);
    lemma_four_at_the_end(head, old_rows, grouping, having, order, limit);
    lemma_four_at_the_end(head, new_rows, grouping, having, order, limit);
    assert(core_sql(plan) == head + old_rows + grouping + having + order + limit);
    assert(core_sql(more) == head + new_rows + grouping + having + order + limit);
    assert(head + old_rows =~= head + " WHERE "@ + all_of(plan.filters));
    assert(head + new_rows =~= head + " WHERE "@ + all_of(plan.filters) + " AND "@ + filter);
    assert(core_sql(plan) == head + " WHERE "@ + all_of(plan.filters) + tail);
}

proof fn lemma_four_at_the_end(
    head: Seq<char>,
    rows: Seq<char>,
    a: Seq<char>,
    b: Seq<char>,
    c: Seq<char>,
    d: Seq<char>,
)
    ensures
        head + rows + a + b + c + d == head + rows + (a + b + c + d),
{
    assert(head + rows + a + b + c + d =~= head + rows + (a + b + c + d));
}

/// For every kind of join the plan's own source is `a` and the joined one `b`, in
/// that order; the kinds differ in one word. Without a join the source stands alone.
#[verifier::rlimit(50)]
pub proof fn joins_name_their_sides(plan: PlanView)
    ensures
        match plan.join {
            None => from_sql(plan) == plan.source,
            Some(j) => from_sql(plan) == plan.source + (match j.kind {
                JoinKind::Inner => " AS a INNER JOIN "@,
                JoinKind::Left => " AS a LEFT OUTER JOIN "@,
                JoinKind::Right => " AS a RIGHT OUTER JOIN "@,
                JoinKind::Full => " AS a FULL OUTER JOIN "@,
            }) + j.right_source + " AS b ON "@ + j.on_expr,
        },
{
    reveal_strlit(" AS a ");
    reveal_strlit(" ");
    reveal_strlit("INNER JOIN");
    reveal_strlit("LEFT OUTER JOIN");
    reveal_strlit("RIGHT OUTER JOIN");
    reveal_strlit("FULL OUTER JOIN");
    reveal_strlit(" AS a INNER JOIN ");
    reveal_strlit(" AS a LEFT OUTER JOIN ");
    reveal_strlit(" AS a RIGHT OUTER JOIN ");
    reveal_strlit(" AS a FULL OUTER JOIN ");
    if let Some(j) = plan.join {
        assert(" AS a "@ + "INNER JOIN"@ + " "@ =~= " AS a INNER JOIN "@);
        assert(" AS a "@ + "LEFT OUTER JOIN"@ + " "@ =~= " AS a LEFT OUTER JOIN "@);
        assert(" AS a "@ + "RIGHT OUTER JOIN"@ + " "@ =~= " AS a RIGHT OUTER JOIN "@);
        assert(" AS a "@ + "FULL OUTER JOIN"@ + " "@ =~= " AS a FULL OUTER JOIN "@);
        let words = " AS a "@ + join_keywords(j.kind) + " "@;
        assert(from_sql(plan) =~= plan.source + words + j.right_source + " AS b ON "@ + j.on_expr);
    }
}

/// An aggregate is the SQL function of its name, over its column, under a name
/// made of the two.
#[verifier::rlimit(50)]
pub proof fn aggregates_call_their_function(col: Seq<char>)
    ensures
        aggregate_sql(AggregateView::Count) == "count(*) AS count"@,
        aggregate_sql(AggregateView::CountDistinct(col)) == "count(DISTINCT "@ + col
            + ") AS count_distinct_"@ + safe_alias(col),
        aggregate_sql(AggregateView::Sum(col)) == "sum("@ + col + ") AS sum_"@ + safe_alias(col),
        aggregate_sql(AggregateView::Avg(col)) == "avg("@ + col + ") AS avg_"@ + safe_alias(col),
        aggregate_sql(AggregateView::Min(col)) == "min("@ + col + ") AS min_"@ + safe_alias(col),
        aggregate_sql(AggregateView::Max(col)) == "max("@ + col + ") AS max_"@ + safe_alias(col),
{
    reveal_strlit("count(*)");
    reveal_strlit(" AS ");
    reveal_strlit("count");
    reveal_strlit("count(*) AS count");
    assert("count(*)"@ + " AS "@ + "count"@ =~= "count(*) AS count"@);
    reveal_strlit(")");
    reveal_strlit("count_distinct_");
    reveal_strlit(") AS count_distinct_");
    reveal_strlit("sum_");
    reveal_strlit(") AS sum_");
    reveal_strlit("avg_");
    reveal_strlit(") AS avg_");
    reveal_strlit("min_");
    reveal_strlit(") AS min_");
    reveal_strlit("max_");
    reveal_strlit(") AS max_");
    let alias = safe_alias(col);
    assert("count(DISTINCT "@ + col + ")"@ + " AS "@ + ("count_distinct_"@ + alias)
        =~= "count(DISTINCT "@ + col + ") AS count_distinct_"@ + alias);
    assert("sum("@ + col + ")"@ + " AS "@ + ("sum_"@ + alias) =~= "sum("@ + col + ") AS sum_"@
        + alias);
    assert("avg("@ + col + ")"@ + " AS "@ + ("avg_"@ + alias) =~= "avg("@ + col + ") AS avg_"@
        + alias);
    assert("min("@ + col + ")"@ + " AS "@ + ("min_"@ + alias) =~= "min("@ + col + ") AS min_"@
        + alias);
    assert("max("@ + col + ")"@ + " AS "@ + ("max_"@ + alias) =~= "max("@ + col + ") AS max_"@
        + alias);
}

/// The member of a JSON line for a column: its name and its value.
pub open spec fn json_member(column: Seq<char>) -> Seq<char> {
    "\""@ + column + "\": "@ + column
}

/// Rows are folded into lines of their own columns, in order, and only where the
/// plan asks for it: `to_json` of all members, or the values as text with commas.
#[verifier::rlimit(50)]
pub proof fn lines_are_made_of_the_columns(plan: PlanView)
    ensures
        ({
            let columns = row_columns(plan);
            let inner = " FROM ("@ + core_sql(plan) + ") AS __pq_inner"@;
            match plan.line_format {
                None => plan_sql(plan) == core_sql(plan),
                Some(LineFormat::Json) => plan_sql(plan) == (if columns.len() == 0 {
                    "SELECT to_json(__pq_inner) AS line"@
                } else {
                    "SELECT to_json({"@ + listed(
                        Seq::new(columns.len(), |i: int| json_member(columns[i])),
                    ) + "}) AS line"@
                }) + inner,
                Some(LineFormat::Csv) => columns.len() > 0 ==> plan_sql(plan)
                    == "SELECT concat_ws(',', "@ + listed(
                    Seq::new(columns.len(), |i: int| columns[i] + "::TEXT"@),
                ) + ") AS line"@ + inner,
            }
        }),
{
    let columns = row_columns(plan);
    reveal_strlit("SELECT ");
    reveal_strlit("to_json(__pq_inner) AS line");
    reveal_strlit("SELECT to_json(__pq_inner) AS line");
    reveal_strlit("to_json({");
    reveal_strlit("SELECT to_json({");
    reveal_strlit("concat_ws(',', ");
    reveal_strlit("SELECT concat_ws(',', ");
    assert("SELECT "@ + "to_json(__pq_inner) AS line"@ =~= "SELECT to_json(__pq_inner) AS line"@);
    assert("SELECT "@ + "to_json({"@ =~= "SELECT to_json({"@);
    assert("SELECT "@ + "concat_ws(',', "@ =~= "SELECT concat_ws(',', "@);
    if let Some(fmt) = plan.line_format {
        let inner = " FROM ("@ + core_sql(plan) + ") AS __pq_inner"@;
        assert(plan_sql(plan) =~= "SELECT "@ + line_expr(columns, fmt) + inner);
        if columns.len() > 0 {
            let members = Seq::new(columns.len(), |i: int| json_member(columns[i]));
            let casts = Seq::new(columns.len(), |i: int| columns[i] + "::TEXT"@);
            assert(struct_members(columns) =~= members);
            assert(text_casts(columns) =~= casts);
            lemma_joined_is_listed(members);
            lemma_joined_is_listed(casts);
            if fmt == LineFormat::Json {
                assert("SELECT "@ + ("to_json({"@ + listed(members) + "}) AS line"@)
                    =~= "SELECT to_json({"@ + listed(members) + "}) AS line"@);
            } else {
                assert("SELECT "@ + ("concat_ws(',', "@ + listed(casts) + ") AS line"@)
                    =~= "SELECT concat_ws(',', "@ + listed(casts) + ") AS line"@);
            }
        }
    }
}

/// The rows of a grouped result have the names of the grouping columns and then
/// those of the aggregates; other rows have those of the selected columns, unless
/// these stand for all columns.
#[verifier::rlimit(50)]
pub proof fn rows_have_the_columns_asked_for(plan: PlanView)
    ensures
        plan.aggregates.len() > 0 || plan.group_by.len() > 0 ==> {
            &&& row_columns(plan).len() == plan.group_by.len() + plan.aggregates.len()
            &&& forall|i: int|
                0 <= i < plan.group_by.len() ==> #[trigger] row_columns(plan)[i] == column_name(
                    plan.group_by[i],
                )
            &&& forall|i: int|
                0 <= i < plan.aggregates.len() ==> row_columns(plan)[plan.group_by.len() + i]
                    == column_name(aggregate_sql(#[trigger] plan.aggregates[i]))
        },
        plan.aggregates.len() == 0 && plan.group_by.len() == 0 ==> {
            if exists|i: int|
                0 <= i < plan.projections.len() && column_name(#[trigger] plan.projections[i])
                    == "*"@ {
                row_columns(plan).len() == 0
            } else {
                &&& row_columns(plan).len() == plan.projections.len()
                &&& forall|i: int|
                    0 <= i < plan.projections.len() ==> row_columns(plan)[i] == column_name(
                        #[trigger] plan.projections[i],
                    )
            }
        },
{
    assert forall|i: int| 0 <= i < plan.aggregates.len() implies #[trigger] aggregate_aliases(
        plan.aggregates,
    )[i] == column_name(aggregate_sql(plan.aggregates[i])) by {
        aggregate_column_has_its_alias(plan.aggregates[i]);
    }
    let names = column_names(plan.projections);
    if exists|i: int|
        0 <= i < plan.projections.len() && column_name(#[trigger] plan.projections[i]) == "*"@ {
        let i = choose|i: int|
            0 <= i < plan.projections.len() && column_name(#[trigger] plan.projections[i]) == "*"@;
        assert(names[i] == "*"@);
        assert(takes_all(names));
    } else if takes_all(names) {
        let i = choose|i: int| 0 <= i < names.len() && #[trigger] names[i] == "*"@;
        assert(column_name(plan.projections[i]) == "*"@);
    }
    if plan.aggregates.len() > 0 || plan.group_by.len() > 0 {
        let all = row_columns(plan);
        assert forall|i: int| 0 <= i < plan.aggregates.len() implies all[plan.group_by.len() + i]
            == column_name(aggregate_sql(#[trigger] plan.aggregates[i])) by {
            assert(all[plan.group_by.len() + i] == aggregate_aliases(plan.aggregates)[i]);
        }
        assert forall|i: int| 0 <= i < plan.group_by.len() implies #[trigger] all[i]
            == column_name(plan.group_by[i]) by {
            assert(all[i] == column_names(plan.group_by)[i]);
        }
    }
}

/// A name without an alias or a dot is the column's own name, and of a name with
/// a table or struct before it the last part.
#[verifier::rlimit(50)]
pub proof fn plain_columns_have_their_own_name(before: Seq<char>, name: Seq<char>)
    requires
        all_word(before),
        all_word(name),
    ensures
        column_name(name) == name,
        bare_expr(name) == name,
        column_name(before + "."@ + name) == name,
        bare_expr(before + "."@ + name) == before + "."@ + name,
{
    reveal_strlit(".");
    reveal_strlit(" as ");
    let whole = before + "."@ + name;
    assert forall|k: int| 0 <= k < whole.len() implies is_word(#[trigger] whole[k]) || whole[k]
        == '.' by {
        if k < before.len() {
            assert(whole[k] == before[k]);
        } else if k > before.len() {
            assert(whole[k] == name[k - before.len() - 1]);
        }
    }
    lemma_no_alias(name);
    lemma_no_alias(whole);
    lemma_find_back_range(name, "."@, name.len() as int);
    if let Some(k) = find_back(name, "."@, name.len() as int) {
        assert(name.subrange(k, k + 1)[0] == '.');
        assert(is_word(name[k]));
    }
    lemma_find_back_range(whole, "."@, whole.len() as int);
    let n = before.len() as int;
    assert(whole.subrange(n, n + 1) =~= "."@);
    assert(occurs_at(whole, "."@, n));
    assert forall|k: int| n < k implies !#[trigger] occurs_at(whole, "."@, k) by {
        if occurs_at(whole, "."@, k) {
            assert(whole.subrange(k, k + 1)[0] == '.');
            assert(whole[k] == name[k - n - 1]);
            assert(is_word(name[k - n - 1]));
        }
    }
    assert(find_back(whole, "."@, whole.len() as int) == Some(n));
    assert(whole.skip(n + 1) =~= name);
    assert(name.len() > 0 ==> is_word(name[0]) && is_word(name[name.len() - 1]));
    assert(trimmed(name) == name);
    assert(whole.len() > 0);
    assert(is_word(whole[0]) || whole[0] == '.');
    assert(is_word(whole[whole.len() - 1]) || whole[whole.len() - 1] == '.');
    assert(trimmed(whole) == whole);
}

proof fn lemma_no_alias(s: Seq<char>)
    requires
        forall|k: int| 0 <= k < s.len() ==> is_word(#[trigger] s[k]) || s[k] == '.',
    ensures
        alias_at(s) is None,
{
    reveal_strlit(" as ");
    let low = lowered(s);
    lemma_find_back_range(low, " as "@, s.len() as int);
    if let Some(k) = find_back(low, " as "@, s.len() as int) {
        assert(low.subrange(k, k + 4)[0] == ' ');
        assert(low[k] == lower_char(s[k]));
        assert(is_word(s[k]) || s[k] == '.');
    }
}

/// An ` as ` inside a call, as in a cast, names no column: the expression stays whole.
pub proof fn casts_are_no_aliases(expr: Seq<char>, kind: Seq<char>)
    requires
        all_word(kind),
        kind.len() > 0,
        expr.len() > 0,
        !is_space(expr[0]),
    ensures
        bare_expr(expr + " as "@ + kind + ")"@) == expr + " as "@ + kind + ")"@,
{
    let rest = kind + ")"@;
    lemma_call_end(kind);
    lemma_last_as(expr, rest);
    let whole = expr + " as "@ + rest;
    assert(whole =~= expr + " as "@ + kind + ")"@);
    assert(alias_at(whole) is None);
    assert(whole[0] == expr[0]);
    assert(whole[whole.len() - 1] == rest[rest.len() - 1]);
    assert(trimmed(whole) == whole);
}

proof fn lemma_call_end(kind: Seq<char>)
    requires
        all_word(kind),
        kind.len() > 0,
    ensures
        !(kind + ")"@).contains(' '),
        !may_be_alias(kind + ")"@),
        (kind + ")"@).len() > 0,
        (kind + ")"@)[(kind + ")"@).len() - 1] == ')',
{
    reveal_strlit(")");
    reveal_strlit("\"");
    let rest = kind + ")"@;
    assert forall|k: int| 0 <= k < rest.len() implies rest[k] != ' ' by {
        if k < kind.len() {
            assert(is_word(kind[k]));
        }
    }
    assert(rest[rest.len() - 1] == ')');
    if has_prefix(rest, "\""@) {
        assert(rest.subrange(0, 1)[0] == '"');
        assert(rest[0] == kind[0]);
        assert(is_word(kind[0]));
    }
}

#[verifier::rlimit(50)]
proof fn lemma_last_as(expr: Seq<char>, rest: Seq<char>)
    requires
        !rest.contains(' '),
    ensures
        find_back(
            lowered(expr + " as "@ + rest),
            " as "@,
            (expr + " as "@ + rest).len() as int,
        ) == Some(expr.len() as int),
        (expr + " as "@ + rest).skip(expr.len() as int + 4) == rest,
{
    reveal_strlit(" as ");
    let whole = expr + " as "@ + rest;
    let low = lowered(whole);
    let n = expr.len() as int;
    assert(low.subrange(n, n + 4) =~= " as "@);
    assert(occurs_at(low, " as "@, n));
    lemma_find_back_range(low, " as "@, whole.len() as int);
    let found = find_back(low, " as "@, whole.len() as int);
    assert(found is Some && found->0 >= n);
    let k = found->0;
    if k > n {
        assert(low.subrange(k, k + 4)[3] == ' ');
        assert(low[k + 3] == lower_char(whole[k + 3]));
        assert(whole[k + 3] == ' ');
        assert(whole[k + 3] == rest[k - n - 1]);
        assert(rest.contains(' '));
    }
    assert(whole.skip(n + 4) =~= rest);
}

/// One more filter on groups joins those before it by AND, and nothing else of the
/// SQL changes.
#[verifier::rlimit(50)]
pub proof fn group_filters_add_up(plan: PlanView, filter: Seq<char>)
    requires
        explodes_nothing(plan),
        plan.havings.len() > 0,
        nothing_to_lift(seq![filter], true),
    ensures
        ({
            let more = PlanView { havings: plan.havings.push(filter), ..plan };
            exists|head: Seq<char>, tail: Seq<char>|
                core_sql(plan) == #[trigger] (head + " HAVING "@ + all_of(plan.havings) + tail)
                    && core_sql(more) == head + " HAVING "@ + all_of(plan.havings) + " AND "@
                    + filter + tail
        }),
{
    let more = PlanView { havings: plan.havings.push(filter), ..plan };
    let hs = more.havings;
    assert forall|i: int, k: int| 0 <= i < hs.len() && 0 <= k < hs[i].len() implies #[trigger] liftable(
        hs[i],
        k,
        true,
    ) is None by {
        if i < plan.havings.len() {
            assert(hs[i] == plan.havings[i]);
            assert(liftable(plan.havings[i], k, true) is None);
        } else {
            assert(liftable(seq![filter][0], k, true) is None);
        }
    }
    plain_clauses_stay(plan);
    plain_clauses_stay(more);
    let c = lifted_clauses(plan);
    let d = lifted_clauses(more);
    assert(c.aggregates =~= d.aggregates);
    assert(c.order_by =~= d.order_by);
    lemma_joined_is_all_of(plan.havings);
    lemma_joined_is_all_of(hs);
    assert(hs.drop_last() =~= plan.havings);
    let columns = select_columns(plan, c);
    let head = "SELECT "@ + (if plan.distinct {
        "DISTINCT "@
    } else {
        Seq::empty()
    }) + (if columns.len() == 0 {
        "*"@
    } else {
        joined(columns, ", "@)
    }) + " FROM "@ + from_clause(plan, c.sources) + clause(c.filters, " WHERE "@, " AND "@)
        + clause(bare_exprs(c.group_by), " GROUP BY "@, ", "@);
    let order = clause(order_items(c.order_by, plan.order_by), " ORDER BY "@, ", "@);
    let limit = match plan.limit {
        Some(n) => " LIMIT "@ + decimal(n as nat),
        None => Seq::empty(),
    };
    let tail = order + limit;
    let old_groups = " HAVING "@ + all_of(plan.havings);
    let new_groups = " HAVING "@ + all_of(hs);
    lemma_two_at_the_end(head, old_groups, order, limit);
    lemma_two_at_the_end(head, new_groups, order, limit);
    assert(core_sql(plan) == head + old_groups + order + limit);
    assert(core_sql(more) == head + new_groups + order + limit);
    assert(head + old_groups =~= head + " HAVING "@ + all_of(plan.havings));
    assert(head + new_groups =~= head + " HAVING "@ + all_of(plan.havings) + " AND "@ + filter);
    assert(core_sql(plan) == head + " HAVING "@ + all_of(plan.havings) + tail);
}

proof fn lemma_two_at_the_end(head: Seq<char>, groups: Seq<char>, a: Seq<char>, b: Seq<char>)
    ensures
        head + groups + a + b == head + groups + (a + b),
{
    assert(head + groups + a + b =~= head + groups + (a + b));
}

} // verus!
