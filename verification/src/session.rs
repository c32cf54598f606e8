//! A browsing session: what keys and results do to it.
//!
//! The session holds everything that the browser shows. A key changes it and
//! may ask for work that only the surrounding program can do: to run a query,
//! to interrupt one, to set the text of the editor widget or to hand a key to
//! it, to save the history. These requests come back as a list of actions, in
//! order.
use vstd::prelude::*;
use vstd::utf8::encode_utf8;

use crate::completion::{
    column_views, complete, completed, completion_for, compute_completion, ColumnInfo, ColumnView,
    Completion, CompletionView,
};
use crate::drill::{build_drill_query, drill_query};
use crate::editor::{
    before_cursor, cursor_byte_offset, editor_keeps_the_text, editor_of, editor_text,
    ends_lines_plainly, Editor, EditorView,
};
use crate::history::{record_history, recorded, recording_keeps_order};
use crate::lineage::{
    extract, first_covering, lineage_of, source_named, DerivedView, Lineage, LineageView,
};
use crate::number::{decimal, show};
use crate::panel::{panel_after, panel_before, Panel};
use crate::profile::ExplainSummary;
use crate::shell::{command_line, command_line_reads_back, line_words, write_command};
use crate::source::{format_of_extension, InputFormat};
use crate::text::{
    cat2, cat3, contains, copy_of, has_prefix, has_suffix, has_text, is_space, lower, lowered,
    occurrences_are_replaced_in_turn, occurs_at, opt_text, replace, replaced, same, starts_with,
    strip_trailing_text, texts, texts_without_separator_stay_whole, trim, trim_left, trim_start,
    trimmed, without_trailing_text,
};

verus! {

// ─── keys and actions ───────────────────────────────────────────────────────
/// A key of the keyboard.
#[derive(Copy, Clone, Debug, PartialEq, Eq, Structural)]
pub enum Key {
    Char(char),
    Enter,
    Esc,
    Tab,
    BackTab,
    Up,
    Down,
    Left,
    Right,
    Backspace,
    Other,
}

/// Work that the surrounding program has to do.
#[derive(Debug, PartialEq, Eq)]
pub enum Action {
    /// Interrupt the query that computes the preview.
    InterruptPreview,
    /// Interrupt the query that is measured.
    InterruptAnalyze,
    /// Measure the query of the current preview.
    StartAnalyze,
    /// Compute the preview of this query.
    StartPreview(String),
    /// Put this text into the editor widget, with the cursor at its end.
    SetText(String),
    /// Hand the key to the editor widget, and report what became of the text.
    Forward,
    /// Have the query compiled after a short delay.
    Schedule,
    /// Save the history.
    SaveHistory,
}

/// The mathematical value of an `Action`.
pub enum ActionView {
    InterruptPreview,
    InterruptAnalyze,
    StartAnalyze,
    StartPreview(Seq<char>),
    SetText(Seq<char>),
    Forward,
    Schedule,
    SaveHistory,
}

impl View for Action {
    type V = ActionView;

    open spec fn view(&self) -> ActionView {
        match self {
            Action::InterruptPreview => ActionView::InterruptPreview,
            Action::InterruptAnalyze => ActionView::InterruptAnalyze,
            Action::StartAnalyze => ActionView::StartAnalyze,
            Action::StartPreview(q) => ActionView::StartPreview(q@),
            Action::SetText(t) => ActionView::SetText(t@),
            Action::Forward => ActionView::Forward,
            Action::Schedule => ActionView::Schedule,
            Action::SaveHistory => ActionView::SaveHistory,
        }
    }
}

/// The views of a list of actions.
pub open spec fn action_views(v: Seq<Action>) -> Seq<ActionView> {
    Seq::new(v.len(), |i: int| v[i]@)
}

// ─── the session ────────────────────────────────────────────────────────────
/// The result of a query, as far as it is shown.
#[derive(Debug)]
pub struct Preview {
    pub headers: Vec<String>,
    pub rows: Vec<Vec<String>>,
    pub sql: String,
    /// How long the query took, in milliseconds.
    pub last_ms: u128,
    pub error: Option<String>,
    pub explain: Option<ExplainSummary>,
}

impl Preview {
    /// The preview of a query that failed: at a step of its way, for a reason.
    pub fn failed(sql: String, step: &str, why: &str) -> (r: Self)
        ensures
            r.headers@.len() == 0,
            r.rows@.len() == 0,
            r.sql == sql,
            r.last_ms == 0,
            opt_text(r.error) == Some(step@ + ": "@ + why@),
            r.explain is None,
    {
        Preview {
            headers: Vec::new(),
            rows: Vec::new(),
            sql,
            last_ms: 0,
            error: Some(cat3(step, ": ", why)),
            explain: None,
        }
    }
}

/// A message in the status bar.
#[derive(Debug, PartialEq, Eq)]
pub enum Flash {
    Text(String),
    /// A running preview was interrupted.
    Interrupted,
}

/// The mathematical value of a `Flash`.
pub enum FlashView {
    Text(Seq<char>),
    Interrupted,
}

impl View for Flash {
    type V = FlashView;

    open spec fn view(&self) -> FlashView {
        match self {
            Flash::Text(t) => FlashView::Text(t@),
            Flash::Interrupted => FlashView::Interrupted,
        }
    }
}

/// The number of preview rows unless another one is asked for.
pub const PREVIEW_LIMIT_DEFAULT: usize = 50;

/// The state of the browser.
#[derive(Debug)]
pub struct Session {
    pub file: String,
    pub input_fmt: InputFormat,
    pub preview_limit: usize,
    /// The macros that the session was started with.
    pub udfs: Vec<String>,
    pub columns: Vec<ColumnInfo>,
    /// The selected row of the Columns panel.
    pub column_cursor: Option<usize>,
    pub editor: Editor,
    pub preview: Preview,
    pub focus: Panel,
    pub show_sql: bool,
    pub show_explain: bool,
    pub show_help: bool,
    /// The query of the current preview.
    pub last_compiled: String,
    /// A compilation is scheduled.
    pub pending: bool,
    pub flash: Option<Flash>,
    pub should_quit: bool,
    pub print_cli_on_exit: bool,
    /// Earlier queries, the newest first.
    pub history: Vec<String>,
    /// The entry of the history that is shown.
    pub history_idx: Option<usize>,
    /// What was typed before the history was looked at.
    pub history_draft: Option<String>,
    pub lineage: Lineage,
    /// The column cursor of the Data panel.
    pub data_col: Option<usize>,
    /// The row cursor of the Data panel.
    pub data_row: Option<usize>,
    /// The query before the last drill-down.
    pub drill_back: Option<String>,
    pub completion: Option<Completion>,
    /// A query is being measured.
    pub analyzing: bool,
    /// The query whose preview is being computed.
    pub previewing: Option<String>,
}

/// The mathematical value of a `Session`.
#[verifier::ext_equal]
pub struct SessionView {
    pub file: Seq<char>,
    pub input_fmt: InputFormat,
    pub preview_limit: usize,
    pub udfs: Seq<Seq<char>>,
    pub columns: Seq<ColumnView>,
    pub column_cursor: Option<usize>,
    pub editor: EditorView,
    pub preview: Preview,
    pub focus: Panel,
    pub show_sql: bool,
    pub show_explain: bool,
    pub show_help: bool,
    pub last_compiled: Seq<char>,
    pub pending: bool,
    pub flash: Option<FlashView>,
    pub should_quit: bool,
    pub print_cli_on_exit: bool,
    pub history: Seq<Seq<char>>,
    pub history_idx: Option<usize>,
    pub history_draft: Option<Seq<char>>,
    pub lineage: LineageView,
    pub data_col: Option<usize>,
    pub data_row: Option<usize>,
    pub drill_back: Option<Seq<char>>,
    pub completion: Option<CompletionView>,
    pub analyzing: bool,
    pub previewing: Option<Seq<char>>,
}

impl View for Session {
    type V = SessionView;

    open spec fn view(&self) -> SessionView {
        SessionView {
            file: self.file@,
            input_fmt: self.input_fmt,
            preview_limit: self.preview_limit,
            udfs: texts(self.udfs@),
            columns: column_views(self.columns@),
            column_cursor: self.column_cursor,
            editor: self.editor@,
            preview: self.preview,
            focus: self.focus,
            show_sql: self.show_sql,
            show_explain: self.show_explain,
            show_help: self.show_help,
            last_compiled: self.last_compiled@,
            pending: self.pending,
            flash: match self.flash {
                Some(f) => Some(f@),
                None => None,
            },
            should_quit: self.should_quit,
            print_cli_on_exit: self.print_cli_on_exit,
            history: texts(self.history@),
            history_idx: self.history_idx,
            history_draft: opt_text(self.history_draft),
            lineage: self.lineage@,
            data_col: self.data_col,
            data_row: self.data_row,
            drill_back: opt_text(self.drill_back),
            completion: match self.completion {
                Some(c) => Some(c@),
                None => None,
            },
            analyzing: self.analyzing,
            previewing: opt_text(self.previewing),
        }
    }
}

/// A session and the actions asked for so far.
pub type Step = (SessionView, Seq<ActionView>);

/// The text of the query.
pub open spec fn query_text(s: SessionView) -> Seq<char> {
    editor_text(s.editor)
}

/// The message is shown.
pub open spec fn flashing(s: SessionView, msg: Seq<char>) -> SessionView {
    SessionView { flash: Some(FlashView::Text(msg)), ..s }
}

/// The preview that is being computed is given up.
pub open spec fn preview_cancelled(st: Step) -> Step {
    let (s, acts) = st;
    if s.previewing is Some {
        (
            SessionView { previewing: None, flash: Some(FlashView::Interrupted), ..s },
            acts.push(ActionView::InterruptPreview),
        )
    } else {
        st
    }
}

/// The measuring that runs is given up.
pub open spec fn analyze_cancelled(st: Step) -> Step {
    let (s, acts) = st;
    if s.analyzing {
        (SessionView { analyzing: false, ..s }, acts.push(ActionView::InterruptAnalyze))
    } else {
        st
    }
}

/// A compilation is scheduled, and whatever runs for the old query is given up.
pub open spec fn scheduled(st: Step) -> Step {
    let (s, acts) = st;
    preview_cancelled(
        analyze_cancelled((SessionView { pending: true, ..s }, acts.push(ActionView::Schedule))),
    )
}

/// The query is another text.
pub open spec fn with_query(st: Step, text: Seq<char>) -> Step {
    let (s, acts) = st;
    (SessionView { editor: editor_of(text), ..s }, acts.push(ActionView::SetText(text)))
}

/// The lineage is that of the current text.
pub open spec fn lineage_fresh(s: SessionView) -> SessionView {
    SessionView { lineage: lineage_of(encode_utf8(query_text(s))), ..s }
}

/// The completion is that of the current text and cursor.
pub open spec fn completion_fresh(s: SessionView) -> SessionView {
    SessionView { completion: completion_for(s.editor, s.columns), ..s }
}

/// The lineage and the completion are those of the current text.
pub open spec fn refreshed(st: Step) -> Step {
    (completion_fresh(lineage_fresh(st.0)), st.1)
}

fn push_action(acts: &mut Vec<Action>, a: Action)
    ensures
        action_views(final(acts)@) == action_views(old(acts)@).push(a@),
{
    let ghost before = acts@;
    acts.push(a);
    assert(action_views(before.push(a)) =~= action_views(before).push(a@));
}

impl Session {
    /// The text of the query.
    pub fn current_query_text(&self) -> (r: String)
        ensures
            r@ == query_text(self@),
    {
        self.editor.text()
    }

    /// Shows a message in the status bar.
    pub fn flash_msg(&mut self, msg: &str)
        ensures
            final(self)@ == flashing(old(self)@, msg@),
    {
        self.flash = Some(Flash::Text(copy_of(msg)));
    }

    fn cancel_preview(&mut self, acts: &mut Vec<Action>) -> (r: bool)
        ensures
            (final(self)@, action_views(final(acts)@)) == preview_cancelled(
                (old(self)@, action_views(old(acts)@)),
            ),
            r == old(self)@.previewing is Some,
    {
        if self.previewing.is_some() {
            self.previewing = None;
            self.flash = Some(Flash::Interrupted);
            push_action(acts, Action::InterruptPreview);
            true
        } else {
            false
        }
    }

    fn cancel_analyze(&mut self, acts: &mut Vec<Action>) -> (r: bool)
        ensures
            (final(self)@, action_views(final(acts)@)) == analyze_cancelled(
                (old(self)@, action_views(old(acts)@)),
            ),
            r == old(self)@.analyzing,
    {
        if self.analyzing {
            self.analyzing = false;
            push_action(acts, Action::InterruptAnalyze);
            true
        } else {
            false
        }
    }

    fn schedule_compile(&mut self, acts: &mut Vec<Action>)
        ensures
            (final(self)@, action_views(final(acts)@)) == scheduled(
                (old(self)@, action_views(old(acts)@)),
            ),
    {
        self.pending = true;
        push_action(acts, Action::Schedule);
        self.cancel_analyze(acts);
        self.cancel_preview(acts);
    }

    fn replace_query(&mut self, text: &str, acts: &mut Vec<Action>)
        ensures
            (final(self)@, action_views(final(acts)@)) == with_query(
                (old(self)@, action_views(old(acts)@)),
                text@,
            ),
    {
        self.editor = Editor::of(text);
        push_action(acts, Action::SetText(copy_of(text)));
    }

    fn refresh_lineage(&mut self)
        ensures
            final(self)@ == lineage_fresh(old(self)@),
    {
        let text = self.current_query_text();
        self.lineage = extract(text.as_str());
    }

    fn refresh_completion(&mut self)
        ensures
            final(self)@ == completion_fresh(old(self)@),
    {
        self.completion = compute_completion(&self.editor, &self.columns);
    }
}

// ─── columns ────────────────────────────────────────────────────────────────
/// The query with a column added to its projection: behind the columns that it
/// begins with, or as a stage of its own before the others.
pub open spec fn query_with_column(cur: Seq<char>, name: Seq<char>) -> Seq<char> {
    let token = "."@ + name;
    if trimmed(cur).len() == 0 {
        token
    } else if has_prefix(trim_start(cur), "."@) {
        cur + ", "@ + token
    } else {
        token + " | "@ + cur
    }
}

/// The query with every mention of a column taken out of its lists.
pub open spec fn query_without_column(cur: Seq<char>, name: Seq<char>) -> Seq<char> {
    let token = "."@ + name;
    let a = replaced(cur, ", "@ + token, ""@);
    let b = replaced(a, token + ", "@, ""@);
    without_trailing_text(replaced(b, token, ""@), ", "@)
}

/// The query with a column switched on or off.
pub open spec fn toggled_query(cur: Seq<char>, column: ColumnView) -> Seq<char> {
    if column.selected && trimmed(cur).len() > 0 {
        query_without_column(cur, column.name)
    } else {
        query_with_column(cur, column.name)
    }
}

fn add_column(cur: &str, name: &str) -> (r: String)
    ensures
        r@ == query_with_column(cur@, name@),
{
    let token = cat2(".", name);
    if trim(cur).as_str().is_empty() {
        token
    } else if starts_with(trim_left(cur).as_str(), ".") {
        cat3(cur, ", ", token.as_str())
    } else {
        cat3(token.as_str(), " | ", cur)
    }
}

fn remove_column(cur: &str, name: &str) -> (r: String)
    ensures
        r@ == query_without_column(cur@, name@),
{
    proof {
        reveal_strlit(".");
        reveal_strlit(", ");
    }
    let token = cat2(".", name);
    let a = replace(cur, cat2(", ", token.as_str()).as_str(), "");
    let b = replace(a.as_str(), cat2(token.as_str(), ", ").as_str(), "");
    let c = replace(b.as_str(), token.as_str(), "");
    strip_trailing_text(c.as_str(), ", ")
}

/// The column under the cursor of the Columns panel.
pub open spec fn current_column(s: SessionView) -> Option<ColumnView> {
    match s.column_cursor {
        Some(i) => if i < s.columns.len() {
            Some(s.columns[i as int])
        } else {
            None
        },
        None => None,
    }
}

/// The column under the cursor is switched on or off.
pub open spec fn column_toggled(st: Step) -> Step {
    match current_column(st.0) {
        Some(column) => scheduled(with_query(st, toggled_query(query_text(st.0), column))),
        None => st,
    }
}

/// The column under the cursor is added to the projection, unless the query
/// names it already.
pub open spec fn column_appended(st: Step) -> Step {
    match current_column(st.0) {
        Some(column) => if column.selected {
            (flashing(st.0, "."@ + column.name + " already in projection"@), st.1)
        } else {
            scheduled(with_query(st, query_with_column(query_text(st.0), column.name)))
        },
        None => st,
    }
}

impl Session {
    fn toggle_current_column(&mut self, acts: &mut Vec<Action>)
        ensures
            (final(self)@, action_views(final(acts)@)) == column_toggled(
                (old(self)@, action_views(old(acts)@)),
            ),
    {
        if let Some(i) = self.column_cursor {
            if i < self.columns.len() {
                assert(self@.columns[i as int] == self.columns@[i as int]@);
                let cur = self.current_query_text();
                let column = &self.columns[i];
                let q = if column.selected && !trim(cur.as_str()).as_str().is_empty() {
                    remove_column(cur.as_str(), column.name.as_str())
                } else {
                    add_column(cur.as_str(), column.name.as_str())
                };
                self.replace_query(q.as_str(), acts);
                self.schedule_compile(acts);
            }
        }
    }

    fn append_current_column(&mut self, acts: &mut Vec<Action>)
        ensures
            (final(self)@, action_views(final(acts)@)) == column_appended(
                (old(self)@, action_views(old(acts)@)),
            ),
    {
        if let Some(i) = self.column_cursor {
            if i < self.columns.len() {
                assert(self@.columns[i as int] == self.columns@[i as int]@);
                if self.columns[i].selected {
                    let msg = cat3(".", self.columns[i].name.as_str(), " already in projection");
                    self.flash_msg(msg.as_str());
                } else {
                    let cur = self.current_query_text();
                    let q = add_column(cur.as_str(), self.columns[i].name.as_str());
                    self.replace_query(q.as_str(), acts);
                    self.schedule_compile(acts);
                }
            }
        }
    }
}

// ─── history ────────────────────────────────────────────────────────────────
/// An entry of the history is shown. What was typed before is kept aside.
pub open spec fn history_shown(st: Step, idx: int) -> Step {
    let (s, acts) = st;
    if idx >= s.history.len() {
        st
    } else {
        let kept = SessionView {
            history_draft: if s.history_idx is None {
                Some(query_text(s))
            } else {
                s.history_draft
            },
            history_idx: Some(idx as usize),
            ..s
        };
        let (t, more) = with_query((kept, acts), s.history[idx]);
        (SessionView { pending: true, ..t }, more.push(ActionView::Schedule))
    }
}

/// What was typed before the history was looked at is back.
pub open spec fn history_left(st: Step) -> Step {
    let (s, acts) = st;
    match s.history_draft {
        Some(draft) => {
            let (t, more) = with_query((SessionView { history_draft: None, ..s }, acts), draft);
            (
                SessionView { pending: true, history_idx: None, ..t },
                more.push(ActionView::Schedule),
            )
        },
        None => (SessionView { history_idx: None, ..s }, acts),
    }
}

impl Session {
    fn show_history(&mut self, idx: usize, acts: &mut Vec<Action>) -> (r: bool)
        ensures
            (final(self)@, action_views(final(acts)@)) == history_shown(
                (old(self)@, action_views(old(acts)@)),
                idx as int,
            ),
            r == (idx < old(self)@.history.len()),
    {
        if idx >= self.history.len() {
            return false;
        }
        assert(self@.history[idx as int] == self.history@[idx as int]@);
        if self.history_idx.is_none() {
            self.history_draft = Some(self.current_query_text());
        }
        self.history_idx = Some(idx);
        let entry = self.history[idx].clone();
        self.replace_query(entry.as_str(), acts);
        self.pending = true;
        push_action(acts, Action::Schedule);
        true
    }

    fn exit_history(&mut self, acts: &mut Vec<Action>)
        ensures
            (final(self)@, action_views(final(acts)@)) == history_left(
                (old(self)@, action_views(old(acts)@)),
            ),
    {
        let mut draft: Option<String> = None;
        std::mem::swap(&mut draft, &mut self.history_draft);
        if let Some(text) = draft {
            self.replace_query(text.as_str(), acts);
            self.pending = true;
            push_action(acts, Action::Schedule);
        }
        self.history_idx = None;
    }
}

// ─── drilling down ──────────────────────────────────────────────────────────
/// The row under the row cursor of the Data panel.
pub open spec fn current_row(s: SessionView) -> Option<Seq<Seq<char>>> {
    match s.data_row {
        Some(i) => if i < s.preview.rows@.len() {
            Some(texts(s.preview.rows@[i as int]@))
        } else {
            None
        },
        None => None,
    }
}

/// The query for the rows behind the row under the cursor, where the result is
/// one of groups.
pub open spec fn drill_target(s: SessionView, row: Seq<Seq<char>>) -> Option<Seq<char>> {
    if s.lineage.derived.len() == 0 {
        None
    } else {
        drill_query(texts(s.preview.headers@), row, s.lineage.derived)
    }
}

/// The query becomes that for the rows behind the row under the cursor.
pub open spec fn drilled(st: Step) -> Step {
    let (s, acts) = st;
    if s.data_row is None {
        (flashing(s, "drill-down: pick a row with ↑/↓ first"@), acts)
    } else {
        match current_row(s) {
            None => st,
            Some(row) => match drill_target(s, row) {
                None => (
                    flashing(s, "drill-down needs group_by — try `group_by .col | count`"@),
                    acts,
                ),
                Some(q) => {
                    let kept = SessionView { drill_back: Some(query_text(s)), ..s };
                    let (t, more) = scheduled(refreshed(with_query((kept, acts), q)));
                    (
                        flashing(
                            SessionView { data_col: None, data_row: None, ..t },
                            "drilled in — Backspace to undo"@,
                        ),
                        more,
                    )
                },
            },
        }
    }
}

/// The query before the last drill-down is back.
pub open spec fn drill_undone(st: Step) -> Step {
    let (s, acts) = st;
    match s.drill_back {
        None => (flashing(s, "nothing to undo"@), acts),
        Some(q) => {
            let (t, more) = scheduled(
                refreshed(with_query((SessionView { drill_back: None, ..s }, acts), q)),
            );
            (flashing(t, "drill-down undone"@), more)
        },
    }
}

impl Session {
    fn drill_down(&mut self, acts: &mut Vec<Action>)
        ensures
            (final(self)@, action_views(final(acts)@)) == drilled(
                (old(self)@, action_views(old(acts)@)),
            ),
    {
        let i: usize = match self.data_row {
            Some(i) => i,
            None => {
                self.flash_msg("drill-down: pick a row with ↑/↓ first");
                return ;
            },
        };
        if i >= self.preview.rows.len() {
            return ;
        }
        let target = if self.lineage.derived.len() == 0 {
            None
        } else {
            build_drill_query(&self.preview.headers, &self.preview.rows[i], &self.lineage)
        };
        match target {
            None => {
                self.flash_msg("drill-down needs group_by — try `group_by .col | count`");
            },
            Some(q) => {
                self.drill_back = Some(self.current_query_text());
                self.replace_query(q.as_str(), acts);
                self.refresh_lineage();
                self.refresh_completion();
                self.schedule_compile(acts);
                self.data_col = None;
                self.data_row = None;
                self.flash_msg("drilled in — Backspace to undo");
            },
        }
    }

    fn drill_undo(&mut self, acts: &mut Vec<Action>)
        ensures
            (final(self)@, action_views(final(acts)@)) == drill_undone(
                (old(self)@, action_views(old(acts)@)),
            ),
    {
        let mut back: Option<String> = None;
        std::mem::swap(&mut back, &mut self.drill_back);
        match back {
            None => {
                self.flash_msg("nothing to undo");
            },
            Some(q) => {
                self.replace_query(q.as_str(), acts);
                self.refresh_lineage();
                self.refresh_completion();
                self.schedule_compile(acts);
                self.flash_msg("drill-down undone");
            },
        }
    }
}

// ─── completion ─────────────────────────────────────────────────────────────
/// The chosen name is put in place of what was typed.
pub open spec fn completion_accepted(st: Step) -> Step {
    let (s, acts) = st;
    match s.completion {
        None => st,
        Some(c) => {
            let closed = SessionView { completion: None, ..s };
            match completed(query_text(s), c) {
                None => (closed, acts),
                Some(text) => {
                    let (t, more) = with_query((closed, acts), text);
                    scheduled((lineage_fresh(t), more))
                },
            }
        },
    }
}

/// The completion with the previous or the next name chosen.
pub open spec fn choice_moved(c: CompletionView, down: bool) -> CompletionView {
    if down {
        if c.selected + 1 < c.candidates.len() {
            CompletionView { selected: c.selected + 1, ..c }
        } else {
            c
        }
    } else if c.selected > 0 {
        CompletionView { selected: c.selected - 1, ..c }
    } else {
        c
    }
}

/// Another name is chosen.
pub open spec fn completion_moved(s: SessionView, down: bool) -> SessionView {
    match s.completion {
        Some(c) => SessionView { completion: Some(choice_moved(c, down)), ..s },
        None => s,
    }
}

impl Session {
    fn accept_completion(&mut self, acts: &mut Vec<Action>)
        ensures
            (final(self)@, action_views(final(acts)@)) == completion_accepted(
                (old(self)@, action_views(old(acts)@)),
            ),
    {
        let mut chosen: Option<Completion> = None;
        std::mem::swap(&mut chosen, &mut self.completion);
        if let Some(c) = chosen {
            let text = self.current_query_text();
            if let Some(rebuilt) = complete(text.as_str(), &c) {
                self.replace_query(rebuilt.as_str(), acts);
                self.refresh_lineage();
                self.schedule_compile(acts);
            }
        }
    }

    fn move_completion(&mut self, down: bool)
        ensures
            final(self)@ == completion_moved(old(self)@, down),
    {
        let mut taken: Option<Completion> = None;
        std::mem::swap(&mut taken, &mut self.completion);
        if let Some(c) = taken {
            let mut c = c;
            if down {
                if c.candidates.len() > 0 && c.selected < c.candidates.len() - 1 {
                    c.selected += 1;
                }
            } else if c.selected > 0 {
                c.selected -= 1;
            }
            self.completion = Some(c);
        }
    }
}

// ─── keys ───────────────────────────────────────────────────────────────────
/// The words of the command that shows what the session shows. It names the format
/// wherever that is not parquet, and wherever the file name tells another one.
pub open spec fn cli_words(s: SessionView) -> Seq<Seq<char>> {
    seq!["pq"@] + (match s.input_fmt {
        InputFormat::Parquet => if format_of_extension(s.file) == InputFormat::Parquet {
            Seq::empty()
        } else {
            seq!["-i"@, "parquet"@]
        },
        InputFormat::Ndjson => seq!["-i"@, "ndjson"@],
        InputFormat::Csv => seq!["-i"@, "csv"@],
    }) + (if s.preview_limit != PREVIEW_LIMIT_DEFAULT {
        seq!["-n"@, decimal(s.preview_limit as nat)]
    } else {
        Seq::empty()
    }) + macro_words(s.udfs) + seq![s.file] + (if trimmed(query_text(s)).len() > 0 {
        seq![query_text(s)]
    } else {
        Seq::empty()
    })
}

/// The options for the macros of a session.
pub open spec fn macro_words(udfs: Seq<Seq<char>>) -> Seq<Seq<char>>
    decreases udfs.len(),
{
    if udfs.len() == 0 {
        Seq::empty()
    } else {
        macro_words(udfs.drop_last()) + seq!["--udf"@, udfs.last()]
    }
}

/// The command line that shows what the session shows.
pub open spec fn cli_line(s: SessionView) -> Seq<char> {
    command_line(cli_words(s))
}

/// The command line is shown in the status bar.
pub open spec fn cli_flashed(s: SessionView) -> SessionView {
    flashing(s, "Y → CLI: "@ + cli_line(s) + "  (arboard wiring lands in v0.6)"@)
}

/// Measuring starts anew, unless there is nothing to measure.
pub open spec fn analyze_requested(st: Step) -> Step {
    let (s, acts) = analyze_cancelled((SessionView { show_explain: true, ..st.0 }, st.1));
    if s.preview.sql@.len() == 0 {
        (s, acts)
    } else {
        (s, acts.push(ActionView::StartAnalyze))
    }
}

/// A cursor that moves down a list of `n` entries and stops at its end.
pub open spec fn moved_down(cursor: Option<usize>, n: int) -> Option<usize> {
    if n <= 0 {
        cursor
    } else {
        match cursor {
            Some(i) => if i + 1 < n {
                Some((i + 1) as usize)
            } else {
                Some(i)
            },
            None => Some(0),
        }
    }
}

/// A cursor that moves up a list of `n` entries and stops at its start.
pub open spec fn moved_up(cursor: Option<usize>, n: int) -> Option<usize> {
    if n <= 0 {
        cursor
    } else {
        match cursor {
            Some(i) => if i > 0 {
                Some((i - 1) as usize)
            } else {
                Some(0)
            },
            None => Some(0),
        }
    }
}

/// The cursor of the Columns panel, one row down, at most on the last row.
pub open spec fn column_down(cursor: Option<usize>, n: int) -> Option<usize> {
    if n <= 0 {
        cursor
    } else {
        let i = match cursor {
            Some(i) => i as int,
            None => 0,
        };
        Some(
            if i + 1 < n {
                (i + 1) as usize
            } else {
                (n - 1) as usize
            },
        )
    }
}

/// The cursor of the Columns panel, one row up, at least on the first row.
pub open spec fn column_up(cursor: Option<usize>) -> Option<usize> {
    match cursor {
        Some(i) => if i > 0 {
            Some((i - 1) as usize)
        } else {
            Some(0)
        },
        None => Some(0),
    }
}

/// What a key does that means the same in the Columns and the Data panel.
pub open spec fn common_key(st: Step, key: Key) -> Option<Step> {
    let (s, acts) = st;
    match key {
        Key::Esc => Some((SessionView { should_quit: true, ..s }, acts)),
        Key::Char(c) => if c == 'Q' {
            Some((SessionView { should_quit: true, print_cli_on_exit: true, ..s }, acts))
        } else if c == 'Y' {
            Some((cli_flashed(s), acts))
        } else if c == ':' {
            Some((SessionView { show_sql: !s.show_sql, ..s }, acts))
        } else if c == 'e' {
            Some((SessionView { show_explain: !s.show_explain, ..s }, acts))
        } else if c == 'E' {
            Some(analyze_requested(st))
        } else if c == '?' {
            Some((SessionView { show_help: true, ..s }, acts))
        } else {
            None
        },
        _ => None,
    }
}

/// What a key does in the Columns panel.
pub open spec fn columns_key(st: Step, key: Key) -> Step {
    let (s, acts) = st;
    match common_key(st, key) {
        Some(done) => done,
        None => match key {
            Key::Char('q') => (SessionView { should_quit: true, ..s }, acts),
            Key::Enter => column_appended(st),
            Key::Down | Key::Char('j') => (
                SessionView {
                    column_cursor: column_down(s.column_cursor, s.columns.len() as int),
                    ..s
                },
                acts,
            ),
            Key::Up | Key::Char('k') => (
                SessionView { column_cursor: column_up(s.column_cursor), ..s },
                acts,
            ),
            Key::Char(' ') => column_toggled(st),
            _ => st,
        },
    }
}

/// What a key does in the Data panel. Once a row is picked, `q` no longer quits.
pub open spec fn data_key(st: Step, key: Key) -> Step {
    let (s, acts) = st;
    let cols = s.preview.headers@.len() as int;
    let rows = s.preview.rows@.len() as int;
    match common_key(st, key) {
        Some(done) => done,
        None => match key {
            Key::Char('q') => if s.data_row is None {
                (SessionView { should_quit: true, ..s }, acts)
            } else {
                st
            },
            Key::Right | Key::Char('l') => (
                SessionView { data_col: moved_down(s.data_col, cols), ..s },
                acts,
            ),
            Key::Left | Key::Char('h') => (
                SessionView { data_col: moved_up(s.data_col, cols), ..s },
                acts,
            ),
            Key::Down | Key::Char('j') => (
                SessionView { data_row: moved_down(s.data_row, rows), ..s },
                acts,
            ),
            Key::Up | Key::Char('k') => (
                SessionView { data_row: moved_up(s.data_row, rows), ..s },
                acts,
            ),
            Key::Enter => drilled(st),
            Key::Backspace => drill_undone(st),
            _ => st,
        },
    }
}

/// One entry back in the history.
pub open spec fn history_older(st: Step) -> Step {
    let next = match st.0.history_idx {
        Some(i) => i + 1,
        None => 0,
    };
    if next < st.0.history.len() {
        refreshed(history_shown(st, next))
    } else {
        st
    }
}

/// One entry forward in the history, or out of it.
pub open spec fn history_newer(st: Step) -> Step {
    match st.0.history_idx {
        Some(i) => if i == 0 {
            refreshed(history_left(st))
        } else {
            refreshed(history_shown(st, i - 1))
        },
        None => st,
    }
}

/// What a key does in the Query panel.
pub open spec fn query_key(st: Step, key: Key, ctrl: bool) -> Step {
    let (s, acts) = st;
    if s.completion is Some && key == Key::Esc {
        (SessionView { completion: None, ..s }, acts)
    } else if s.completion is Some && key == Key::Up {
        (completion_moved(s, false), acts)
    } else if s.completion is Some && key == Key::Down {
        (completion_moved(s, true), acts)
    } else if s.completion is Some && (key == Key::Tab || key == Key::Enter) {
        completion_accepted(st)
    } else if key == Key::Esc {
        (SessionView { focus: Panel::Columns, ..s }, acts)
    } else if ctrl && key == Key::Char('q') {
        (SessionView { should_quit: true, print_cli_on_exit: true, ..s }, acts)
    } else if ctrl && key == Key::Char('y') {
        (cli_flashed(s), acts)
    } else if ctrl && key == Key::Up {
        history_older(st)
    } else if ctrl && key == Key::Down {
        let (t, more) = history_newer(st);
        (t, more.push(ActionView::Forward))
    } else {
        (s, acts.push(ActionView::Forward))
    }
}

/// What a key does: an interrupt goes first, then the help overlay, then the
/// change of panels, and then the panel with the focus.
pub open spec fn key_effect(st: Step, key: Key, ctrl: bool) -> Step {
    let (s, acts) = st;
    let busy = s.previewing is Some || s.analyzing;
    let interrupted = if s.previewing is Some {
        preview_cancelled(st)
    } else {
        analyze_cancelled(st)
    };
    if ctrl && key == Key::Char('c') {
        if busy {
            interrupted
        } else {
            (SessionView { should_quit: true, ..s }, acts)
        }
    } else if s.show_help {
        (SessionView { show_help: false, ..s }, acts)
    } else if key == Key::Esc && busy {
        interrupted
    } else if key == Key::Tab && !(s.focus == Panel::Query && s.completion is Some) {
        (SessionView { focus: panel_after(s.focus), ..s }, acts)
    } else if key == Key::BackTab {
        (SessionView { focus: panel_before(s.focus), ..s }, acts)
    } else {
        match s.focus {
            Panel::Columns => columns_key(st, key),
            Panel::Query => query_key(st, key, ctrl),
            Panel::Data => data_key(st, key),
        }
    }
}

fn step_down(cursor: Option<usize>, n: usize) -> (r: Option<usize>)
    ensures
        r == moved_down(cursor, n as int),
{
    if n == 0 {
        return cursor;
    }
    match cursor {
        Some(i) => if i < n - 1 {
            Some(i + 1)
        } else {
            Some(i)
        },
        None => Some(0),
    }
}

fn step_up(cursor: Option<usize>, n: usize) -> (r: Option<usize>)
    ensures
        r == moved_up(cursor, n as int),
{
    if n == 0 {
        return cursor;
    }
    match cursor {
        Some(i) => if i > 0 {
            Some(i - 1)
        } else {
            Some(0)
        },
        None => Some(0),
    }
}

fn push_word(words: &mut Vec<String>, word: String)
    ensures
        texts(final(words)@) == texts(old(words)@).push(word@),
{
    proof {
        crate::text::lemma_texts_push(words@, word);
    }
    words.push(word);
}

impl Session {
    /// The command line that shows what the session shows.
    pub fn equivalent_cli(&self) -> (r: String)
        ensures
            r@ == cli_line(self@),
    {
        let q = self.current_query_text();
        let mut words: Vec<String> = Vec::new();
        push_word(&mut words, copy_of("pq"));
        match self.input_fmt {
            InputFormat::Parquet => {
                if InputFormat::from_extension(self.file.as_str()) != InputFormat::Parquet {
                    push_word(&mut words, copy_of("-i"));
                    push_word(&mut words, copy_of("parquet"));
                }
            },
            InputFormat::Ndjson => {
                push_word(&mut words, copy_of("-i"));
                push_word(&mut words, copy_of("ndjson"));
            },
            InputFormat::Csv => {
                push_word(&mut words, copy_of("-i"));
                push_word(&mut words, copy_of("csv"));
            },
        }
        if self.preview_limit != PREVIEW_LIMIT_DEFAULT {
            push_word(&mut words, copy_of("-n"));
            push_word(&mut words, show(self.preview_limit as u128));
        }
        let ghost head = texts(words@);
        let ghost udfs = texts(self.udfs@);
        let mut i: usize = 0;
        assert(udfs.take(0) =~= Seq::empty());
        assert(head =~= head + macro_words(udfs.take(0)));
        while i < self.udfs.len()
            invariant
                i <= self.udfs.len(),
                udfs == texts(self.udfs@),
                texts(words@) == head + macro_words(udfs.take(i as int)),
            decreases self.udfs.len() - i,
        {
            assert(udfs.take(i + 1).drop_last() =~= udfs.take(i as int));
            assert(udfs.take(i + 1).last() == self.udfs@[i as int]@);
            push_word(&mut words, copy_of("--udf"));
            push_word(&mut words, self.udfs[i].clone());
            assert(texts(words@) =~= head + macro_words(udfs.take(i + 1)));
            i += 1;
        }
        assert(udfs.take(udfs.len() as int) =~= udfs);
        push_word(&mut words, self.file.clone());
        if !trim(q.as_str()).as_str().is_empty() {
            push_word(&mut words, q);
        }
        assert(texts(words@) =~= cli_words(self@));
        write_command(&words)
    }

    fn copy_cli_to_clipboard(&mut self)
        ensures
            final(self)@ == cli_flashed(old(self)@),
    {
        let cli = self.equivalent_cli();
        let msg = cat3("Y → CLI: ", cli.as_str(), "  (arboard wiring lands in v0.6)");
        self.flash_msg(msg.as_str());
    }

    fn request_analyze(&mut self, acts: &mut Vec<Action>)
        ensures
            (final(self)@, action_views(final(acts)@)) == analyze_requested(
                (old(self)@, action_views(old(acts)@)),
            ),
    {
        self.show_explain = true;
        self.cancel_analyze(acts);
        if !self.preview.sql.as_str().is_empty() {
            push_action(acts, Action::StartAnalyze);
        }
    }

    fn on_common_key(&mut self, key: Key, acts: &mut Vec<Action>) -> (r: bool)
        ensures
            match common_key((old(self)@, action_views(old(acts)@)), key) {
                Some(done) => r && (final(self)@, action_views(final(acts)@)) == done,
                None => !r && final(self)@ == old(self)@ && final(acts)@ == old(acts)@,
            },
    {
        match key {
            Key::Esc => {
                self.should_quit = true;
                true
            },
            Key::Char(c) => {
                if c == 'Q' {
                    self.should_quit = true;
                    self.print_cli_on_exit = true;
                    true
                } else if c == 'Y' {
                    self.copy_cli_to_clipboard();
                    true
                } else if c == ':' {
                    self.show_sql = !self.show_sql;
                    true
                } else if c == 'e' {
                    self.show_explain = !self.show_explain;
                    true
                } else if c == 'E' {
                    self.request_analyze(acts);
                    true
                } else if c == '?' {
                    self.show_help = true;
                    true
                } else {
                    false
                }
            },
            _ => false,
        }
    }

    fn on_key_columns(&mut self, key: Key, acts: &mut Vec<Action>)
        ensures
            (final(self)@, action_views(final(acts)@)) == columns_key(
                (old(self)@, action_views(old(acts)@)),
                key,
            ),
    {
        if self.on_common_key(key, acts) {
            return ;
        }
        match key {
            Key::Char('q') => {
                self.should_quit = true;
            },
            Key::Enter => {
                self.append_current_column(acts);
            },
            Key::Down | Key::Char('j') => {
                let n: usize = self.columns.len();
                if n > 0 {
                    let i: usize = match self.column_cursor {
                        Some(i) => i,
                        None => 0,
                    };
                    self.column_cursor = Some(
                        if i < n - 1 {
                            i + 1
                        } else {
                            n - 1
                        },
                    );
                }
            },
            Key::Up | Key::Char('k') => {
                self.column_cursor = match self.column_cursor {
                    Some(i) => if i > 0 {
                        Some(i - 1)
                    } else {
                        Some(0)
                    },
                    None => Some(0),
                };
            },
            Key::Char(' ') => {
                self.toggle_current_column(acts);
            },
            _ => {},
        }
    }

    fn on_key_data(&mut self, key: Key, acts: &mut Vec<Action>)
        ensures
            (final(self)@, action_views(final(acts)@)) == data_key(
                (old(self)@, action_views(old(acts)@)),
                key,
            ),
    {
        if self.on_common_key(key, acts) {
            return ;
        }
        match key {
            Key::Char('q') => {
                if self.data_row.is_none() {
                    self.should_quit = true;
                }
            },
            Key::Right | Key::Char('l') => {
                self.data_col = step_down(self.data_col, self.preview.headers.len());
            },
            Key::Left | Key::Char('h') => {
                self.data_col = step_up(self.data_col, self.preview.headers.len());
            },
            Key::Down | Key::Char('j') => {
                self.data_row = step_down(self.data_row, self.preview.rows.len());
            },
            Key::Up | Key::Char('k') => {
                self.data_row = step_up(self.data_row, self.preview.rows.len());
            },
            Key::Enter => {
                self.drill_down(acts);
            },
            Key::Backspace => {
                self.drill_undo(acts);
            },
            _ => {},
        }
    }

    fn go_older(&mut self, acts: &mut Vec<Action>)
        ensures
            (final(self)@, action_views(final(acts)@)) == history_older(
                (old(self)@, action_views(old(acts)@)),
            ),
    {
        let next: usize = match self.history_idx {
            Some(i) => {
                if i >= self.history.len() {
                    return ;
                }
                i + 1
            },
            None => 0,
        };
        if self.show_history(next, acts) {
            self.refresh_lineage();
            self.refresh_completion();
        }
    }

    fn go_newer(&mut self, acts: &mut Vec<Action>)
        ensures
            (final(self)@, action_views(final(acts)@)) == history_newer(
                (old(self)@, action_views(old(acts)@)),
            ),
    {
        match self.history_idx {
            Some(i) => {
                if i == 0 {
                    self.exit_history(acts);
                } else {
                    self.show_history(i - 1, acts);
                }
                self.refresh_lineage();
                self.refresh_completion();
            },
            None => {},
        }
    }

    fn on_key_query(&mut self, key: Key, ctrl: bool, acts: &mut Vec<Action>)
        ensures
            (final(self)@, action_views(final(acts)@)) == query_key(
                (old(self)@, action_views(old(acts)@)),
                key,
                ctrl,
            ),
    {
        if self.completion.is_some() {
            match key {
                Key::Esc => {
                    self.completion = None;
                    return ;
                },
                Key::Up => {
                    self.move_completion(false);
                    return ;
                },
                Key::Down => {
                    self.move_completion(true);
                    return ;
                },
                Key::Tab | Key::Enter => {
                    self.accept_completion(acts);
                    return ;
                },
                _ => {},
            }
        }
        if key == Key::Esc {
            self.focus = Panel::Columns;
            return ;
        }
        if ctrl {
            match key {
                Key::Char('q') => {
                    self.should_quit = true;
                    self.print_cli_on_exit = true;
                    return ;
                },
                Key::Char('y') => {
                    self.copy_cli_to_clipboard();
                    return ;
                },
                Key::Up => {
                    self.go_older(acts);
                    return ;
                },
                Key::Down => {
                    self.go_newer(acts);
                },
                _ => {},
            }
        }
        push_action(acts, Action::Forward);
    }

    /// Handles a key, and returns the work that it asks for.
    pub fn on_key(&mut self, key: Key, ctrl: bool) -> (r: Vec<Action>)
        ensures
            (final(self)@, action_views(r@)) == key_effect((old(self)@, Seq::empty()), key, ctrl),
    {
        let mut acts: Vec<Action> = Vec::new();
        assert(action_views(acts@) =~= Seq::empty());
        if ctrl && key == Key::Char('c') {
            if !self.cancel_preview(&mut acts) {
                if !self.cancel_analyze(&mut acts) {
                    self.should_quit = true;
                }
            }
            return acts;
        }
        if self.show_help {
            self.show_help = false;
            return acts;
        }
        if key == Key::Esc {
            if self.cancel_preview(&mut acts) || self.cancel_analyze(&mut acts) {
                return acts;
            }
        }
        if key == Key::Tab && !(self.focus == Panel::Query && self.completion.is_some()) {
            self.focus = self.focus.next();
            return acts;
        }
        if key == Key::BackTab {
            self.focus = self.focus.prev();
            return acts;
        }
        match self.focus {
            Panel::Columns => {
                self.on_key_columns(key, &mut acts);
            },
            Panel::Query => {
                self.on_key_query(key, ctrl, &mut acts);
            },
            Panel::Data => {
                self.on_key_data(key, &mut acts);
            },
        }
        acts
    }
}

// ─── edits and results ──────────────────────────────────────────────────────
/// The editor widget took a key. Where that changed the text, the query is
/// compiled anew, and the history is no longer looked at.
pub open spec fn edited(st: Step, editor: EditorView, changed: bool) -> Step {
    let now = SessionView { editor, ..st.0 };
    let (s, acts) = if changed {
        let (t, more) = scheduled((now, st.1));
        (
            if t.history_idx is Some {
                SessionView { history_idx: None, history_draft: None, ..t }
            } else {
                t
            },
            more,
        )
    } else {
        (now, st.1)
    };
    refreshed((s, acts))
}

/// The delay is over: the query is run, unless its result is shown already.
pub open spec fn compile_due_effect(st: Step) -> Step {
    let s = SessionView { pending: false, ..st.0 };
    let q = query_text(s);
    if !st.0.pending || (q == s.last_compiled && s.previewing is None) {
        (s, st.1)
    } else {
        let (t, more) = preview_cancelled((s, st.1));
        (t, more.push(ActionView::StartPreview(q)))
    }
}

/// A cursor that stays inside `n` entries.
pub open spec fn kept_inside(cursor: Option<usize>, n: int) -> Option<usize> {
    match cursor {
        Some(i) => if i < n {
            Some(i)
        } else if n <= 0 {
            None
        } else {
            Some((n - 1) as usize)
        },
        None => None,
    }
}

/// The columns, each with a mark whether the query names it.
pub open spec fn marked_columns(columns: Seq<ColumnView>, q: Seq<char>) -> Seq<ColumnView> {
    Seq::new(
        columns.len(),
        |i: int|
            ColumnView {
                selected: has_text(lowered(q), "."@ + lowered(columns[i].name)),
                ..columns[i]
            },
    )
}

/// The preview of a query has come.
pub open spec fn preview_shown(st: Step, preview: Preview) -> Step {
    let (s, acts) = st;
    match s.previewing {
        None => st,
        Some(q) => {
            let keep = trimmed(q).len() > 0;
            let new = keep && !(s.history.len() > 0 && s.history[0] == q);
            (
                SessionView {
                    previewing: None,
                    preview,
                    last_compiled: q,
                    history: if keep {
                        recorded(s.history, q)
                    } else {
                        s.history
                    },
                    data_col: kept_inside(s.data_col, preview.headers@.len() as int),
                    data_row: kept_inside(s.data_row, preview.rows@.len() as int),
                    columns: marked_columns(s.columns, q),
                    ..s
                },
                if new {
                    acts.push(ActionView::SaveHistory)
                } else {
                    acts
                },
            )
        },
    }
}

/// The preview of a query is being computed.
pub open spec fn preview_begun(s: SessionView, q: Seq<char>) -> SessionView {
    SessionView { previewing: Some(q), ..s }
}

/// The preview will not come.
pub open spec fn preview_dropped(s: SessionView) -> SessionView {
    SessionView { previewing: None, ..s }
}

/// The query is being measured.
pub open spec fn measuring_begun(s: SessionView) -> SessionView {
    SessionView { analyzing: true, ..s }
}

/// The measuring will not end.
pub open spec fn measuring_dropped(s: SessionView) -> SessionView {
    SessionView { analyzing: false, ..s }
}

/// The query was measured. Where nobody waits for it, that is dropped.
pub open spec fn measured(s: SessionView, summary: ExplainSummary) -> SessionView {
    if s.analyzing {
        SessionView {
            analyzing: false,
            preview: (Preview { explain: Some(summary), ..s.preview }),
            ..s
        }
    } else {
        s
    }
}

fn keep_inside(cursor: Option<usize>, n: usize) -> (r: Option<usize>)
    ensures
        r == kept_inside(cursor, n as int),
{
    match cursor {
        Some(i) => if i < n {
            Some(i)
        } else if n == 0 {
            None
        } else {
            Some(n - 1)
        },
        None => None,
    }
}

impl Session {
    /// Takes note of what the editor widget made of a key.
    pub fn on_edit(&mut self, editor: Editor, changed: bool) -> (r: Vec<Action>)
        ensures
            (final(self)@, action_views(r@)) == edited(
                (old(self)@, Seq::empty()),
                editor@,
                changed,
            ),
    {
        let mut acts: Vec<Action> = Vec::new();
        assert(action_views(acts@) =~= Seq::empty());
        self.editor = editor;
        if changed {
            self.schedule_compile(&mut acts);
            if self.history_idx.is_some() {
                self.history_idx = None;
                self.history_draft = None;
            }
        }
        self.refresh_lineage();
        self.refresh_completion();
        acts
    }

    /// Takes note that the delay before a compilation is over.
    pub fn compile_due(&mut self) -> (r: Vec<Action>)
        ensures
            (final(self)@, action_views(r@)) == compile_due_effect((old(self)@, Seq::empty())),
    {
        let mut acts: Vec<Action> = Vec::new();
        assert(action_views(acts@) =~= Seq::empty());
        let due = self.pending;
        self.pending = false;
        if !due {
            return acts;
        }
        let q = self.current_query_text();
        if same(q.as_str(), self.last_compiled.as_str()) && self.previewing.is_none() {
            return acts;
        }
        self.cancel_preview(&mut acts);
        push_action(&mut acts, Action::StartPreview(q));
        acts
    }

    /// Takes note that the preview of a query is being computed.
    pub fn preview_started(&mut self, q: String)
        ensures
            final(self)@ == preview_begun(old(self)@, q@),
    {
        self.previewing = Some(q);
    }

    /// Takes note that the preview will not come.
    pub fn preview_lost(&mut self)
        ensures
            final(self)@ == preview_dropped(old(self)@),
    {
        self.previewing = None;
    }

    fn mark_columns(&mut self, q: &str)
        ensures
            final(self)@ == (SessionView {
                columns: marked_columns(old(self)@.columns, q@),
                ..old(self)@
            }),
    {
        let low = lower(q);
        let ghost first = self.columns@;
        let ghost start = self@;
        let mut i: usize = 0;
        while i < self.columns.len()
            invariant
                i <= self.columns.len(),
                low@ == lowered(q@),
                first.len() == self.columns@.len(),
                start == old(self)@,
                start.columns == column_views(first),
                self@ == (SessionView { columns: self@.columns, ..start }),
                forall|k: int|
                    0 <= k < first.len() ==> (#[trigger] self.columns@[k]).name == first[k].name
                        && self.columns@[k].ty == first[k].ty,
                forall|k: int|
                    0 <= k < i ==> (#[trigger] self.columns@[k]).selected == has_text(
                        low@,
                        "."@ + lowered(first[k].name@),
                    ),
            decreases self.columns.len() - i,
        {
            let name = lower(self.columns[i].name.as_str());
            let named = contains(low.as_str(), cat2(".", name.as_str()).as_str());
            self.columns[i].selected = named;
            i += 1;
        }
        assert(self@.columns =~= marked_columns(start.columns, q@));
    }

    /// Shows the preview that has come.
    pub fn preview_arrived(&mut self, preview: Preview) -> (r: Vec<Action>)
        ensures
            (final(self)@, action_views(r@)) == preview_shown(
                (old(self)@, Seq::empty()),
                preview,
            ),
    {
        let mut acts: Vec<Action> = Vec::new();
        assert(action_views(acts@) =~= Seq::empty());
        let mut job: Option<String> = None;
        std::mem::swap(&mut job, &mut self.previewing);
        if let Some(q) = job {
            self.data_col = keep_inside(self.data_col, preview.headers.len());
            self.data_row = keep_inside(self.data_row, preview.rows.len());
            self.preview = preview;
            if !trim(q.as_str()).as_str().is_empty() {
                if record_history(&mut self.history, q.as_str()) {
                    push_action(&mut acts, Action::SaveHistory);
                }
            }
            self.mark_columns(q.as_str());
            self.last_compiled = q;
        }
        acts
    }

    /// Takes note that the query is being measured.
    pub fn analyze_started(&mut self)
        ensures
            final(self)@ == measuring_begun(old(self)@),
    {
        self.analyzing = true;
    }

    /// Takes note that there will be no measurement.
    pub fn analyze_lost(&mut self)
        ensures
            final(self)@ == measuring_dropped(old(self)@),
    {
        self.analyzing = false;
    }

    /// Shows a measurement that has come.
    pub fn analyze_arrived(&mut self, summary: ExplainSummary)
        ensures
            final(self)@ == measured(old(self)@, summary),
    {
        if self.analyzing {
            self.analyzing = false;
            self.preview.explain = Some(summary);
        }
    }

    /// Takes the message out of the status bar.
    pub fn clear_flash(&mut self)
        ensures
            final(self)@ == (SessionView { flash: None, ..old(self)@ }),
    {
        self.flash = None;
    }
}

/// The column that a derived column aggregates, or the name itself where no
/// derived column with a source has it.
pub open spec fn source_behind(derived: Seq<DerivedView>, name: Seq<char>) -> Seq<char> {
    match source_named(derived, name, 0) {
        Some(src) => src,
        None => name,
    }
}

/// The source column that the panel with the focus points at: that behind the
/// reference under the cursor of the query, that behind the column of the data,
/// or the selected column.
pub open spec fn source_in_focus(s: SessionView) -> Option<Seq<char>> {
    match s.focus {
        Panel::Query => match first_covering(
            s.lineage.refs,
            encode_utf8(before_cursor(s.editor)).len() as int,
            0,
        ) {
            Some(r) => Some(source_behind(s.lineage.derived, r.name)),
            None => None,
        },
        Panel::Data => match s.data_col {
            Some(i) => if i < s.preview.headers@.len() {
                Some(source_behind(s.lineage.derived, s.preview.headers@[i as int]@))
            } else {
                None
            },
            None => None,
        },
        Panel::Columns => match current_column(s) {
            Some(c) => Some(c.name),
            None => None,
        },
    }
}

impl Session {
    /// A session that shows the first rows of a file.
    pub fn start(
        file: String,
        input_fmt: InputFormat,
        preview_limit: usize,
        udfs: Vec<String>,
        columns: Vec<ColumnInfo>,
        preview: Preview,
        history: Vec<String>,
    ) -> (r: Self)
        ensures
            r@ == (SessionView {
                file: file@,
                input_fmt,
                preview_limit,
                udfs: texts(udfs@),
                columns: column_views(columns@),
                column_cursor: if columns@.len() == 0 {
                    None
                } else {
                    Some(0)
                },
                editor: editor_of(""@),
                preview,
                focus: Panel::Columns,
                show_sql: false,
                show_explain: false,
                show_help: false,
                last_compiled: ""@,
                pending: false,
                flash: None,
                should_quit: false,
                print_cli_on_exit: false,
                history: texts(history@),
                history_idx: None,
                history_draft: None,
                lineage: LineageView { refs: Seq::empty(), derived: Seq::empty() },
                data_col: None,
                data_row: None,
                drill_back: None,
                completion: None,
                analyzing: false,
                previewing: None,
            }),
    {
        let column_cursor: Option<usize> = if columns.len() == 0 {
            None
        } else {
            Some(0)
        };
        Session {
            file,
            input_fmt,
            preview_limit,
            udfs,
            columns,
            column_cursor,
            editor: Editor::of(""),
            preview,
            focus: Panel::Columns,
            show_sql: false,
            show_explain: false,
            show_help: false,
            last_compiled: copy_of(""),
            pending: false,
            flash: None,
            should_quit: false,
            print_cli_on_exit: false,
            history,
            history_idx: None,
            history_draft: None,
            lineage: Lineage::new(),
            data_col: None,
            data_row: None,
            drill_back: None,
            completion: None,
            analyzing: false,
            previewing: None,
        }
    }

    fn source_or_name(&self, name: &str) -> (r: String)
        ensures
            r@ == source_behind(self@.lineage.derived, name@),
    {
        match self.lineage.source_of(name) {
            Some(src) => copy_of(src),
            None => copy_of(name),
        }
    }

    /// The source column that the panel with the focus points at.
    pub fn active_source(&self) -> (r: Option<String>)
        ensures
            opt_text(r) == source_in_focus(self@),
    {
        match self.focus {
            Panel::Query => {
                let off = cursor_byte_offset(&self.editor);
                match self.lineage.column_at(off) {
                    Some(c) => Some(self.source_or_name(c.name.as_str())),
                    None => None,
                }
            },
            Panel::Data => match self.data_col {
                Some(i) => {
                    if i < self.preview.headers.len() {
                        Some(self.source_or_name(self.preview.headers[i].as_str()))
                    } else {
                        None
                    }
                },
                None => None,
            },
            Panel::Columns => match self.column_cursor {
                Some(i) => {
                    if i < self.columns.len() {
                        assert(self@.columns[i as int] == self.columns@[i as int]@);
                        Some(self.columns[i].name.clone())
                    } else {
                        None
                    }
                },
                None => None,
            },
        }
    }
}

/// A message that has been shown for so many milliseconds leaves.
pub open spec fn is_stale(shown_ms: int) -> bool {
    shown_ms > 3000
}

/// The milliseconds that a query still waits, so many after its edit.
pub open spec fn delay_left(since_edit_ms: int) -> int {
    if since_edit_ms < 50 {
        50 - since_edit_ms
    } else {
        0
    }
}

/// The milliseconds to wait for a key.
pub open spec fn key_wait(until_compile: Option<u64>, busy: bool) -> int {
    match until_compile {
        Some(ms) => if ms > 20 {
            ms as int
        } else {
            20
        },
        None => if busy {
            50
        } else {
            200
        },
    }
}

/// Has a message been shown long enough? It stays for three seconds.
pub fn flash_expired(shown_ms: u64) -> (r: bool)
    ensures
        r == is_stale(shown_ms as int),
{
    shown_ms > 3000
}

/// How many milliseconds a query still waits for its compilation, once it was
/// edited so long ago. It waits for a moment, in which more edits may come.
pub fn compile_delay_left(since_edit_ms: u64) -> (r: u64)
    ensures
        r == delay_left(since_edit_ms as int),
{
    if since_edit_ms < 50 {
        50 - since_edit_ms
    } else {
        0
    }
}

/// How long to wait for a key, in milliseconds: until a scheduled compilation,
/// though not less than a moment, or shorter while something runs.
pub fn poll_timeout(until_compile: Option<u64>, busy: bool) -> (r: u64)
    ensures
        r == key_wait(until_compile, busy),
{
    match until_compile {
        Some(ms) => if ms > 20 {
            ms
        } else {
            20
        },
        None => if busy {
            50
        } else {
            200
        },
    }
}

// ─── laws ───────────────────────────────────────────────────────────────────
/// Undoing a drill-down brings the query back.
pub proof fn drill_down_can_be_undone(st: Step)
    requires
        current_row(st.0) is Some,
        drill_target(st.0, current_row(st.0)->0) is Some,
        ends_lines_plainly(query_text(st.0)),
    ensures
        query_text(drill_undone(drilled(st)).0) == query_text(st.0),
        query_text(drilled(st).0) == editor_text(
            editor_of(drill_target(st.0, current_row(st.0)->0)->0),
        ),
{
    editor_keeps_the_text(query_text(st.0));
}

/// The entries of the history that are looked at in turn.
pub open spec fn paged(st: Step, entries: Seq<int>) -> Step
    decreases entries.len(),
{
    if entries.len() == 0 {
        st
    } else {
        history_shown(paged(st, entries.drop_last()), entries.last())
    }
}

proof fn lemma_paging_keeps_draft(st: Step, entries: Seq<int>)
    requires
        st.0.history_idx is None,
        entries.len() > 0,
        forall|k: int| 0 <= k < entries.len() ==> 0 <= #[trigger] entries[k] < st.0.history.len(),
    ensures
        paged(st, entries).0.history_idx is Some,
        paged(st, entries).0.history_draft == Some(query_text(st.0)),
        paged(st, entries).0.history == st.0.history,
    decreases entries.len(),
{
    let front = entries.drop_last();
    assert(0 <= entries[entries.len() - 1] < st.0.history.len());
    if front.len() > 0 {
        assert forall|k: int| 0 <= k < front.len() implies 0 <= #[trigger] front[k]
            < st.0.history.len() by {
            assert(front[k] == entries[k]);
        }
        lemma_paging_keeps_draft(st, front);
    }
}

/// Looking at the history destroys nothing: however many entries were looked
/// at, leaving it brings back what was typed before.
pub proof fn leaving_the_history_restores_the_draft(st: Step, entries: Seq<int>)
    requires
        st.0.history_idx is None,
        entries.len() > 0,
        forall|k: int| 0 <= k < entries.len() ==> 0 <= #[trigger] entries[k] < st.0.history.len(),
        ends_lines_plainly(query_text(st.0)),
    ensures
        query_text(history_left(paged(st, entries)).0) == query_text(st.0),
        history_left(paged(st, entries)).0.history_idx is None,
{
    lemma_paging_keeps_draft(st, entries);
    editor_keeps_the_text(query_text(st.0));
}

/// While the help is shown, any key but the interrupt closes it and does
/// nothing else.
pub proof fn help_swallows_a_key(st: Step, key: Key, ctrl: bool)
    requires
        st.0.show_help,
        !(ctrl && key == Key::Char('c')),
    ensures
        key_effect(st, key, ctrl) == (SessionView { show_help: false, ..st.0 }, st.1),
{
}

/// The interrupt key ends what runs, the preview before the measuring, and
/// leaves the session only where nothing runs.
pub proof fn interrupt_goes_before_leaving(st: Step)
    requires
        !st.0.should_quit,
    ensures
        key_effect(st, Key::Char('c'), true).0.should_quit == (st.0.previewing is None
            && !st.0.analyzing),
        st.0.previewing is Some ==> key_effect(st, Key::Char('c'), true).0.previewing is None
            && key_effect(st, Key::Char('c'), true).0.analyzing == st.0.analyzing,
        st.0.previewing is None ==> !key_effect(st, Key::Char('c'), true).0.analyzing,
{
}

/// The first escape from the query only leaves the panel, the second one the
/// session.
pub proof fn escape_leaves_the_query_first(st: Step)
    requires
        st.0.focus == Panel::Query,
        st.0.previewing is None,
        !st.0.analyzing,
        !st.0.show_help,
        st.0.completion is None,
        !st.0.should_quit,
    ensures
        ({
            let once = key_effect(st, Key::Esc, false);
            &&& once.0.focus == Panel::Columns
            &&& !once.0.should_quit
            &&& key_effect(once, Key::Esc, false).0.should_quit
        }),
{
}

/// A change of the text gives up whatever ran for the old query, so that no
/// stale result can come in.
pub proof fn edits_give_up_running_queries(st: Step, editor: EditorView)
    ensures
        edited(st, editor, true).0.previewing is None,
        !edited(st, editor, true).0.analyzing,
        edited(st, editor, true).0.pending,
        query_text(edited(st, editor, true).0) == editor_text(editor),
{
}

/// A cursor of the Data panel, where there is one, stands in the data.
pub open spec fn cursors_inside(s: SessionView) -> bool {
    &&& s.data_col matches Some(i) ==> i < s.preview.headers@.len()
    &&& s.data_row matches Some(i) ==> i < s.preview.rows@.len()
}

/// A new preview leaves the cursors inside the data.
pub proof fn previews_keep_cursors_inside(st: Step, preview: Preview)
    requires
        st.0.previewing is Some,
    ensures
        cursors_inside(preview_shown(st, preview).0),
{
}

spec fn same_data(a: SessionView, b: SessionView) -> bool {
    a.data_col == b.data_col && a.data_row == b.data_row && a.preview == b.preview
}

proof fn lemma_query_steps_keep_data(st: Step, text: Seq<char>)
    ensures
        same_data(scheduled(refreshed(with_query(st, text))).0, st.0),
{
}

proof fn lemma_common_keys_keep_data(st: Step, key: Key)
    ensures
        common_key(st, key) matches Some(done) ==> same_data(done.0, st.0),
{
}

proof fn lemma_drilling_keeps_cursors_inside(st: Step)
    requires
        cursors_inside(st.0),
    ensures
        cursors_inside(drilled(st).0),
{
    if st.0.data_row is Some {
        if let Some(row) = current_row(st.0) {
            if let Some(q) = drill_target(st.0, row) {
                let kept = SessionView { drill_back: Some(query_text(st.0)), ..st.0 };
                lemma_query_steps_keep_data((kept, st.1), q);
            }
        }
    }
}

proof fn lemma_undoing_keeps_data(st: Step)
    ensures
        same_data(drill_undone(st).0, st.0),
{
    if let Some(q) = st.0.drill_back {
        let kept = SessionView { drill_back: None, ..st.0 };
        lemma_query_steps_keep_data((kept, st.1), q);
    }
}

proof fn lemma_moves_stay_inside(cursor: Option<usize>, n: int)
    requires
        cursor matches Some(i) ==> i < n,
    ensures
        moved_down(cursor, n) matches Some(i) ==> i < n,
        moved_up(cursor, n) matches Some(i) ==> i < n,
{
}

/// The keys of the Data panel keep its cursors inside the data.
pub proof fn data_keys_keep_cursors_inside(st: Step, key: Key)
    requires
        cursors_inside(st.0),
    ensures
        cursors_inside(data_key(st, key).0),
{
    if common_key(st, key) is Some {
        lemma_common_keys_keep_data(st, key);
    } else if key == Key::Enter {
        lemma_drilling_keeps_cursors_inside(st);
    } else if key == Key::Backspace {
        lemma_undoing_keeps_data(st);
    } else {
        lemma_moves_stay_inside(st.0.data_col, st.0.preview.headers@.len() as int);
        lemma_moves_stay_inside(st.0.data_row, st.0.preview.rows@.len() as int);
    }
}

/// The history keeps every query at most once and stays within its bounds.
pub proof fn previews_keep_the_history_in_order(st: Step, preview: Preview)
    requires
        st.0.history.no_duplicates(),
        st.0.history.len() <= 100,
    ensures
        preview_shown(st, preview).0.history.no_duplicates(),
        preview_shown(st, preview).0.history.len() <= 100,
{
    if st.0.previewing is Some {
        recording_keeps_order(st.0.history, st.0.previewing->0);
    }
}

/// A completion always has a name chosen among its candidates.
pub open spec fn choice_is_there(c: CompletionView) -> bool {
    0 <= c.selected < c.candidates.len()
}

/// The choice of a completion never leaves the candidates.
pub proof fn choices_stay_inside(e: EditorView, columns: Seq<ColumnView>, c: CompletionView, down: bool)
    ensures
        completion_for(e, columns) matches Some(new) ==> choice_is_there(new),
        choice_is_there(c) ==> choice_is_there(choice_moved(c, down)),
{
}

/// A shell reads the command line as the words that are meant: the options, the
/// macros, the file and the query come back as they are.
pub proof fn cli_line_reads_back(s: SessionView)
    ensures
        line_words(cli_line(s), 0, false, None, Seq::empty()) == Some(cli_words(s)),
{
    command_line_reads_back(cli_words(s));
}

// ─── what keys and results do ───────────────────────────────────────────────
/// A column is added to an empty query as its only one, to a list of columns behind
/// the others, and to any other query as a stage before it.
pub proof fn columns_are_added_to_the_projection(cur: Seq<char>, name: Seq<char>)
    ensures
        trimmed(cur).len() == 0 ==> query_with_column(cur, name) == "."@ + name,
        trimmed(cur).len() > 0 && cur[0] == '.' ==> query_with_column(cur, name) == cur + ", ."@
            + name,
        trimmed(cur).len() > 0 && cur[0] != '.' && !is_space(cur[0]) ==> query_with_column(
            cur,
            name,
        ) == "."@ + name + " | "@ + cur,
{
    reveal_strlit(".");
    reveal_strlit(", ");
    reveal_strlit(", .");
    if trimmed(cur).len() > 0 {
        assert(cur.len() > 0);
        assert(cur.subrange(0, 1) =~= seq![cur[0]]);
        assert("."@ =~= seq!['.']);
        if has_prefix(cur, "."@) {
            assert(seq![cur[0]][0] == '.');
        }
        if cur[0] == '.' {
            assert(trim_start(cur) == cur);
            assert(cur + ", "@ + ("."@ + name) =~= cur + ", ."@ + name);
        } else if !is_space(cur[0]) {
            assert(trim_start(cur) == cur);
        }
    }
}

/// Taking a column out of a list undoes adding it there.
#[verifier::rlimit(50)]
pub proof fn removing_a_column_undoes_adding_it(cur: Seq<char>, name: Seq<char>)
    requires
        cur.len() > 0,
        cur[0] == '.',
        trimmed(cur).len() > 0,
        !has_suffix(cur, ", "@),
        forall|k: int| !#[trigger] occurs_at(cur, "."@ + name, k),
        forall|k: int|
            0 <= k < cur.len() ==> !#[trigger] occurs_at(
                cur + (", "@ + ("."@ + name)),
                ", "@ + ("."@ + name),
                k,
            ),
    ensures
        query_without_column(query_with_column(cur, name), name) == cur,
{
    columns_are_added_to_the_projection(cur, name);
    reveal_strlit(".");
    reveal_strlit(", ");
    reveal_strlit(", .");
    reveal_strlit("");
    let token = "."@ + name;
    let more = ", "@ + token;
    let none = Seq::<char>::empty();
    assert(""@ =~= none);
    let q = query_with_column(cur, name);
    assert(q =~= cur + more + none);
    assert(cur + more + none =~= cur + more);
    occurrences_are_replaced_in_turn(cur, more, none, ""@);
    assert(replaced(none, more, ""@) =~= none);
    assert(cur + ""@ + none =~= cur);
    assert forall|k: int| !#[trigger] occurs_at(cur, token + ", "@, k) by {
        if occurs_at(cur, token + ", "@, k) {
            let w = cur.subrange(k, k + (token + ", "@).len());
            assert(cur.subrange(k, k + token.len()) =~= w.take(token.len() as int));
            assert(w.take(token.len() as int) =~= token);
            assert(occurs_at(cur, token, k));
        }
    }
    texts_without_separator_stay_whole(cur, token + ", "@, ""@);
    texts_without_separator_stay_whole(cur, token, ""@);
    assert(without_trailing_text(cur, ", "@) == cur);
}

/// A column of the query is switched off, another one on; both set the query's text
/// and compile it anew. A column that the query names is not added again.
#[verifier::rlimit(50)]
pub proof fn columns_are_switched(st: Step, i: usize)
    requires
        st.0.column_cursor == Some(i),
        i < st.0.columns.len(),
    ensures
        ({
            let column = st.0.columns[i as int];
            let cur = query_text(st.0);
            let text = if column.selected && trimmed(cur).len() > 0 {
                query_without_column(cur, column.name)
            } else {
                query_with_column(cur, column.name)
            };
            &&& column_toggled(st).0.editor == editor_of(text)
            &&& column_toggled(st).0.pending
            &&& column_toggled(st).1.contains(ActionView::SetText(text))
            &&& column_toggled(st).1.contains(ActionView::Schedule)
            &&& column.selected ==> column_appended(st).1 == st.1 && column_appended(st).0.editor
                == st.0.editor
            &&& !column.selected ==> column_appended(st).0.editor == editor_of(
                query_with_column(cur, column.name),
            ) && column_appended(st).0.pending
        }),
{
    let column = st.0.columns[i as int];
    let cur = query_text(st.0);
    let text = toggled_query(cur, column);
    lemma_scheduling_asks(with_query(st, text));
    let (s, acts) = with_query(st, text);
    assert(acts[acts.len() - 1] == ActionView::SetText(text));
    let done = scheduled((s, acts)).1;
    assert(done[acts.len() - 1] == acts[acts.len() - 1]);
    assert(done.contains(ActionView::SetText(text)));
    if !column.selected {
        lemma_scheduling_asks(with_query(st, query_with_column(cur, column.name)));
    }
}

proof fn lemma_scheduling_asks(st: Step)
    ensures
        scheduled(st).0.pending,
        scheduled(st).0.editor == st.0.editor,
        scheduled(st).1.len() > st.1.len(),
        forall|k: int| 0 <= k < st.1.len() ==> scheduled(st).1[k] == st.1[k],
        scheduled(st).1[st.1.len() as int] == ActionView::Schedule,
        scheduled(st).1.contains(ActionView::Schedule),
{
    let n = st.1.len() as int;
    assert(scheduled(st).1[n] == ActionView::Schedule);
}

/// A query that is compiled anew ends what runs: the preview, of which the user is
/// told, and the measuring.
pub proof fn scheduling_ends_what_runs(st: Step)
    ensures
        ({
            let (s, acts) = scheduled(st);
            let asked = st.1.push(ActionView::Schedule);
            &&& s.pending && s.previewing is None && !s.analyzing
            &&& st.0.previewing is Some ==> s.flash == Some(FlashView::Interrupted)
            &&& st.0.previewing is None ==> s.flash == st.0.flash
            &&& st.0.analyzing && st.0.previewing is Some ==> acts == asked.push(
                ActionView::InterruptAnalyze,
            ).push(ActionView::InterruptPreview)
            &&& st.0.analyzing && st.0.previewing is None ==> acts == asked.push(
                ActionView::InterruptAnalyze,
            )
            &&& !st.0.analyzing && st.0.previewing is Some ==> acts == asked.push(
                ActionView::InterruptPreview,
            )
            &&& !st.0.analyzing && st.0.previewing is None ==> acts == asked
        }),
{
}

/// Nothing runs, and no overlay is open.
pub open spec fn is_idle(s: SessionView) -> bool {
    !s.show_help && s.previewing is None && !s.analyzing
}

/// Keys that mean the same in the Columns and the Data panel: they leave the
/// session, with the command line or without, show it, and switch panels on and
/// off.
#[verifier::rlimit(50)]
pub proof fn common_keys_do_what_help_says(st: Step)
    requires
        is_idle(st.0),
        st.0.focus != Panel::Query,
    ensures
        key_effect(st, Key::Esc, false) == (SessionView { should_quit: true, ..st.0 }, st.1),
        key_effect(st, Key::Char('Q'), false) == (
            SessionView { should_quit: true, print_cli_on_exit: true, ..st.0 },
            st.1,
        ),
        key_effect(st, Key::Char(':'), false) == (
            SessionView { show_sql: !st.0.show_sql, ..st.0 },
            st.1,
        ),
        key_effect(st, Key::Char('e'), false) == (
            SessionView { show_explain: !st.0.show_explain, ..st.0 },
            st.1,
        ),
        key_effect(st, Key::Char('?'), false) == (SessionView { show_help: true, ..st.0 }, st.1),
        key_effect(st, Key::Char('Y'), false) == (
            SessionView {
                flash: Some(
                    FlashView::Text(
                        "Y → CLI: "@ + cli_line(st.0) + "  (arboard wiring lands in v0.6)"@,
                    ),
                ),
                ..st.0
            },
            st.1,
        ),
        key_effect(st, Key::Char('E'), false).0.show_explain,
        st.0.preview.sql@.len() > 0 ==> key_effect(st, Key::Char('E'), false).1 == st.1.push(
            ActionView::StartAnalyze,
        ),
        st.0.preview.sql@.len() == 0 ==> key_effect(st, Key::Char('E'), false).1 == st.1,
{
}

/// The tabulator moves the focus on, and back with shift; an open completion takes
/// it instead.
#[verifier::rlimit(50)]
pub proof fn tabs_move_the_focus(st: Step)
    requires
        is_idle(st.0),
    ensures
        st.0.focus == Panel::Columns ==> key_effect(st, Key::Tab, false).0.focus == Panel::Query,
        st.0.focus == Panel::Query && st.0.completion is None ==> key_effect(
            st,
            Key::Tab,
            false,
        ).0.focus == Panel::Data,
        st.0.focus == Panel::Data ==> key_effect(st, Key::Tab, false).0.focus == Panel::Columns,
        st.0.focus == Panel::Columns ==> key_effect(st, Key::BackTab, false).0.focus == Panel::Data,
        st.0.focus == Panel::Query ==> key_effect(st, Key::BackTab, false).0.focus
            == Panel::Columns,
        st.0.focus == Panel::Data ==> key_effect(st, Key::BackTab, false).0.focus == Panel::Query,
        st.0.focus == Panel::Query && st.0.completion is Some ==> key_effect(st, Key::Tab, false)
            == completion_accepted(st),
{
}

/// A cursor moves by one, and stops at both ends; the first key picks the first
/// entry.
pub proof fn cursors_move_by_one(i: usize, n: int)
    requires
        0 < n <= usize::MAX,
        i < n,
    ensures
        i + 1 < n ==> moved_down(Some(i), n) == Some((i + 1) as usize),
        i + 1 == n ==> moved_down(Some(i), n) == Some(i),
        i > 0 ==> moved_up(Some(i), n) == Some((i - 1) as usize),
        moved_up(Some(0), n) == Some(0usize),
        moved_down(None, n) == Some(0usize),
        moved_up(None, n) == Some(0usize),
        moved_down(None, 0) is None,
        moved_up(None, 0) is None,
        i + 1 < n ==> column_down(Some(i), n) == Some((i + 1) as usize),
        i + 1 == n ==> column_down(Some(i), n) == Some(i),
        i > 0 ==> column_up(Some(i)) == Some((i - 1) as usize),
        column_up(Some(0)) == Some(0usize),
{
}

/// In the Data panel the arrows, and their letters, move its cursors; Enter drills
/// down, and Backspace goes back. A picked row keeps `q` from leaving.
#[verifier::rlimit(50)]
pub proof fn data_keys_move_and_drill(st: Step)
    requires
        is_idle(st.0),
        st.0.focus == Panel::Data,
    ensures
        ({
            let cols = st.0.preview.headers@.len() as int;
            let rows = st.0.preview.rows@.len() as int;
            let right = (SessionView { data_col: moved_down(st.0.data_col, cols), ..st.0 }, st.1);
            let left = (SessionView { data_col: moved_up(st.0.data_col, cols), ..st.0 }, st.1);
            let down = (SessionView { data_row: moved_down(st.0.data_row, rows), ..st.0 }, st.1);
            let up = (SessionView { data_row: moved_up(st.0.data_row, rows), ..st.0 }, st.1);
            &&& key_effect(st, Key::Right, false) == right
            &&& key_effect(st, Key::Char('l'), false) == right
            &&& key_effect(st, Key::Left, false) == left
            &&& key_effect(st, Key::Char('h'), false) == left
            &&& key_effect(st, Key::Down, false) == down
            &&& key_effect(st, Key::Char('j'), false) == down
            &&& key_effect(st, Key::Up, false) == up
            &&& key_effect(st, Key::Char('k'), false) == up
            &&& key_effect(st, Key::Enter, false) == drilled(st)
            &&& key_effect(st, Key::Backspace, false) == drill_undone(st)
            &&& key_effect(st, Key::Char('q'), false).0.should_quit == (st.0.should_quit
                || st.0.data_row is None)
        }),
{
}

/// In the Columns panel the arrows, and their letters, move its cursor; the space
/// bar switches a column, Enter adds it, and `q` leaves.
#[verifier::rlimit(50)]
pub proof fn column_keys_move_and_choose(st: Step)
    requires
        is_idle(st.0),
        st.0.focus == Panel::Columns,
    ensures
        ({
            let down = (
                SessionView {
                    column_cursor: column_down(st.0.column_cursor, st.0.columns.len() as int),
                    ..st.0
                },
                st.1,
            );
            let up = (SessionView { column_cursor: column_up(st.0.column_cursor), ..st.0 }, st.1);
            &&& key_effect(st, Key::Down, false) == down
            &&& key_effect(st, Key::Char('j'), false) == down
            &&& key_effect(st, Key::Up, false) == up
            &&& key_effect(st, Key::Char('k'), false) == up
            &&& key_effect(st, Key::Char(' '), false) == column_toggled(st)
            &&& key_effect(st, Key::Enter, false) == column_appended(st)
            &&& key_effect(st, Key::Char('q'), false) == (
                SessionView { should_quit: true, ..st.0 },
                st.1,
            )
        }),
{
}

/// In the Query panel keys go to the editor, but for those that leave the panel or
/// the session, show the command line, or walk the history.
#[verifier::rlimit(50)]
pub proof fn query_keys_go_to_the_editor(st: Step, c: char)
    requires
        is_idle(st.0),
        st.0.focus == Panel::Query,
        st.0.completion is None,
    ensures
        key_effect(st, Key::Char(c), false) == (st.0, st.1.push(ActionView::Forward)),
        key_effect(st, Key::Enter, false) == (st.0, st.1.push(ActionView::Forward)),
        key_effect(st, Key::Backspace, false) == (st.0, st.1.push(ActionView::Forward)),
        key_effect(st, Key::Left, false) == (st.0, st.1.push(ActionView::Forward)),
        key_effect(st, Key::Up, false) == (st.0, st.1.push(ActionView::Forward)),
        key_effect(st, Key::Esc, false) == (SessionView { focus: Panel::Columns, ..st.0 }, st.1),
        key_effect(st, Key::Char('q'), true) == (
            SessionView { should_quit: true, print_cli_on_exit: true, ..st.0 },
            st.1,
        ),
        key_effect(st, Key::Char('y'), true) == (cli_flashed(st.0), st.1),
        key_effect(st, Key::Up, true) == history_older(st),
        key_effect(st, Key::Down, true).0 == history_newer(st).0,
{
}

/// While columns are offered, the arrows choose among them, Enter and the tabulator
/// take the chosen one, and Escape takes the offer away.
#[verifier::rlimit(50)]
pub proof fn offered_columns_can_be_chosen(st: Step, c: CompletionView)
    requires
        is_idle(st.0),
        st.0.focus == Panel::Query,
        st.0.completion == Some(c),
        0 <= c.selected < c.candidates.len(),
    ensures
        key_effect(st, Key::Down, false) == (
            SessionView {
                completion: Some(
                    CompletionView {
                        selected: if c.selected + 1 < c.candidates.len() {
                            c.selected + 1
                        } else {
                            c.selected
                        },
                        ..c
                    },
                ),
                ..st.0
            },
            st.1,
        ),
        key_effect(st, Key::Up, false) == (
            SessionView {
                completion: Some(
                    CompletionView {
                        selected: if c.selected > 0 {
                            c.selected - 1
                        } else {
                            0
                        },
                        ..c
                    },
                ),
                ..st.0
            },
            st.1,
        ),
        key_effect(st, Key::Enter, false) == completion_accepted(st),
        key_effect(st, Key::Esc, false) == (SessionView { completion: None, ..st.0 }, st.1),
        completion_accepted(st).0.completion is None,
        completed(query_text(st.0), c) matches Some(text) ==> completion_accepted(st).0.editor
            == editor_of(text) && completion_accepted(st).0.pending,
{
}

/// Walking the history shows its entries in turn, the newest first, and the way back
/// shows them again; beyond the newest the draft is back.
#[verifier::rlimit(50)]
pub proof fn history_is_walked_in_order(st: Step, i: usize)
    requires
        st.0.history.len() <= 100,
        i < st.0.history.len(),
    ensures
        st.0.history_idx is None ==> history_older(st).0.history_idx == Some(0usize)
            && history_older(st).0.editor == editor_of(st.0.history[0]),
        st.0.history_idx == Some(i) && i + 1 < st.0.history.len() ==> history_older(
            st,
        ).0.history_idx == Some((i + 1) as usize) && history_older(st).0.editor == editor_of(
            st.0.history[i + 1],
        ),
        st.0.history_idx == Some(i) && i + 1 == st.0.history.len() ==> history_older(st) == st,
        st.0.history_idx == Some(i) && i > 0 ==> history_newer(st).0.history_idx == Some(
            (i - 1) as usize,
        ) && history_newer(st).0.editor == editor_of(st.0.history[i - 1]),
        st.0.history_idx == Some(0usize) ==> history_newer(st).0.history_idx is None,
        st.0.history_idx is None ==> history_newer(st) == st,
        st.0.history_idx is None ==> history_older(st).0.history_draft == Some(query_text(st.0)),
{
}

/// A query is run once its delay is over, unless its result is shown and nothing
/// else is computed.
pub proof fn due_queries_are_run(st: Step)
    ensures
        !st.0.pending ==> compile_due_effect(st).1 == st.1,
        st.0.pending && query_text(st.0) == st.0.last_compiled && st.0.previewing is None
            ==> compile_due_effect(st).1 == st.1,
        st.0.pending && query_text(st.0) != st.0.last_compiled && st.0.previewing is None
            ==> compile_due_effect(st).1 == st.1.push(ActionView::StartPreview(query_text(st.0))),
        st.0.pending && st.0.previewing is Some ==> compile_due_effect(st).1 == st.1.push(
            ActionView::InterruptPreview,
        ).push(ActionView::StartPreview(query_text(st.0))),
        !compile_due_effect(st).0.pending,
        compile_due_effect(st).0.editor == st.0.editor,
{
}

/// A result that is waited for is shown, with its query on top of the history, which
/// is saved where it changed, and the columns that the query names marked. One that
/// is not waited for is dropped.
#[verifier::rlimit(50)]
pub proof fn results_are_shown(st: Step, preview: Preview, q: Seq<char>, i: int)
    requires
        0 <= i < st.0.columns.len(),
    ensures
        st.0.previewing is None ==> preview_shown(st, preview) == st,
        st.0.previewing == Some(q) ==> ({
            let (s, acts) = preview_shown(st, preview);
            &&& s.preview == preview
            &&& s.previewing is None
            &&& s.last_compiled == q
            &&& s.editor == st.0.editor
            &&& trimmed(q).len() == 0 ==> s.history == st.0.history && acts == st.1
            &&& trimmed(q).len() > 0 ==> s.history == recorded(st.0.history, q)
            &&& trimmed(q).len() > 0 && (st.0.history.len() == 0 || st.0.history[0] != q) ==> acts
                == st.1.push(ActionView::SaveHistory)
            &&& trimmed(q).len() > 0 && st.0.history.len() > 0 && st.0.history[0] == q ==> acts
                == st.1
            &&& s.columns.len() == st.0.columns.len()
            &&& s.columns[i].name == st.0.columns[i].name
            &&& s.columns[i].selected == has_text(
                lowered(q),
                "."@ + lowered(st.0.columns[i].name),
            )
            &&& st.0.data_row matches Some(r) ==> (r < preview.rows@.len() ==> s.data_row == Some(
                r,
            )) && (r >= preview.rows@.len() && preview.rows@.len() > 0 ==> s.data_row == Some(
                (preview.rows@.len() - 1) as usize,
            )) && (preview.rows@.len() == 0 ==> s.data_row is None)
            &&& st.0.data_row is None ==> s.data_row is None
        }),
{
}

/// An edit shows the new text and the columns that fit it; where it changed the text,
/// the history is left.
#[verifier::rlimit(50)]
pub proof fn edits_take_the_text(st: Step, editor: EditorView)
    ensures
        edited(st, editor, true).0.editor == editor,
        edited(st, editor, false).0.editor == editor,
        edited(st, editor, false).1 == st.1,
        edited(st, editor, false).0.pending == st.0.pending,
        edited(st, editor, true).0.history_idx is None,
        edited(st, editor, true).0.completion == completion_for(editor, st.0.columns),
        edited(st, editor, true).0.lineage == lineage_of(encode_utf8(editor_text(editor))),
{
}

/// The column in question is the one behind the reference under the cursor of the
/// query, behind the header under that of the data, or under that of the columns.
pub proof fn focus_points_at_a_source(s: SessionView, i: usize)
    ensures
        s.focus == Panel::Columns && s.column_cursor == Some(i) && i < s.columns.len()
            ==> source_in_focus(s) == Some(s.columns[i as int].name),
        s.focus == Panel::Columns && s.column_cursor is None ==> source_in_focus(s) is None,
        s.focus == Panel::Data && s.data_col is None ==> source_in_focus(s) is None,
        s.focus == Panel::Data && s.data_col == Some(i) && i < s.preview.headers@.len() ==> ({
            let header = s.preview.headers@[i as int]@;
            source_in_focus(s) == (if source_named(s.lineage.derived, header, 0) is Some {
                source_named(s.lineage.derived, header, 0)
            } else {
                Some(header)
            })
        }),
        s.focus == Panel::Query ==> match first_covering(
            s.lineage.refs,
            encode_utf8(before_cursor(s.editor)).len() as int,
            0,
        ) {
            Some(r) => source_in_focus(s) == (if source_named(s.lineage.derived, r.name, 0) is Some {
                source_named(s.lineage.derived, r.name, 0)
            } else {
                Some(r.name)
            }),
            None => source_in_focus(s) is None,
        },
{
}

/// A drill-down replaces the query by that for the rows behind the picked row, and
/// keeps the query for the way back; without a row or without groups it only says
/// so.
#[verifier::rlimit(50)]
pub proof fn drill_downs_replace_the_query(st: Step, i: usize, q: Seq<char>)
    requires
        i < st.0.preview.rows@.len(),
    ensures
        st.0.data_row is None ==> drilled(st).1 == st.1 && drilled(st).0.editor == st.0.editor,
        st.0.data_row == Some(i) && st.0.lineage.derived.len() == 0 ==> drilled(st).1 == st.1
            && drilled(st).0.editor == st.0.editor,
        st.0.data_row == Some(i) && st.0.lineage.derived.len() > 0 && drill_query(
            texts(st.0.preview.headers@),
            texts(st.0.preview.rows@[i as int]@),
            st.0.lineage.derived,
        ) == Some(q) ==> drilled(st).0.editor == editor_of(q) && drilled(st).0.drill_back == Some(
            query_text(st.0),
        ) && drilled(st).0.pending && drilled(st).0.data_row is None && drilled(st).0.data_col
            is None,
{
    if st.0.data_row == Some(i) && st.0.lineage.derived.len() > 0 {
        let kept = SessionView { drill_back: Some(query_text(st.0)), ..st.0 };
        lemma_query_steps_keep_text((kept, st.1), q);
    }
}

proof fn lemma_query_steps_keep_text(st: Step, text: Seq<char>)
    ensures
        scheduled(refreshed(with_query(st, text))).0.editor == editor_of(text),
        scheduled(refreshed(with_query(st, text))).0.drill_back == st.0.drill_back,
        scheduled(refreshed(with_query(st, text))).0.pending,
{
}

/// The command line names what differs from the defaults: the format, the number of
/// rows and the macros, and then the file and the query.
#[verifier::rlimit(50)]
pub proof fn command_lines_name_what_differs(s: SessionView)
    requires
        s.udfs.len() == 0,
        s.preview_limit == 50,
    ensures
        ({
            let tail = if trimmed(query_text(s)).len() > 0 {
                seq![s.file, query_text(s)]
            } else {
                seq![s.file]
            };
            &&& s.input_fmt == InputFormat::Parquet && format_of_extension(s.file)
                == InputFormat::Parquet ==> cli_words(s) == seq!["pq"@] + tail
            &&& s.input_fmt == InputFormat::Parquet && format_of_extension(s.file)
                != InputFormat::Parquet ==> cli_words(s) == seq!["pq"@, "-i"@, "parquet"@] + tail
            &&& s.input_fmt == InputFormat::Ndjson ==> cli_words(s) == seq![
                "pq"@,
                "-i"@,
                "ndjson"@,
            ] + tail
            &&& s.input_fmt == InputFormat::Csv ==> cli_words(s) == seq!["pq"@, "-i"@, "csv"@]
                + tail
        }),
{
    assert(macro_words(s.udfs) =~= Seq::empty());
    let tail = if trimmed(query_text(s)).len() > 0 {
        seq![s.file, query_text(s)]
    } else {
        seq![s.file]
    };
    match s.input_fmt {
        InputFormat::Parquet => {
            if format_of_extension(s.file) == InputFormat::Parquet {
                assert(cli_words(s) =~= seq!["pq"@] + tail);
            } else {
                assert(cli_words(s) =~= seq!["pq"@, "-i"@, "parquet"@] + tail);
            }
        },
        InputFormat::Ndjson => {
            assert(cli_words(s) =~= seq!["pq"@, "-i"@, "ndjson"@] + tail);
        },
        InputFormat::Csv => {
            assert(cli_words(s) =~= seq!["pq"@, "-i"@, "csv"@] + tail);
        },
    }
}

/// Another number of rows, and each macro, has its option before the file.
pub proof fn options_stand_before_the_file(s: SessionView, udf: Seq<char>)
    requires
        s.input_fmt == InputFormat::Parquet,
        format_of_extension(s.file) == InputFormat::Parquet,
        trimmed(query_text(s)).len() == 0,
    ensures
        s.preview_limit != 50 && s.udfs.len() == 0 ==> cli_words(s) == seq![
            "pq"@,
            "-n"@,
            decimal(s.preview_limit as nat),
            s.file,
        ],
        macro_words(s.udfs.push(udf)) == macro_words(s.udfs) + seq!["--udf"@, udf],
        s.preview_limit == 50 ==> cli_words(s) == seq!["pq"@] + macro_words(s.udfs) + seq![s.file],
{
    assert(s.udfs.push(udf).drop_last() =~= s.udfs);
    if s.preview_limit != 50 && s.udfs.len() == 0 {
        assert(macro_words(s.udfs) =~= Seq::empty());
        assert(cli_words(s) =~= seq!["pq"@, "-n"@, decimal(s.preview_limit as nat), s.file]);
    }
    if s.preview_limit == 50 {
        assert(cli_words(s) =~= seq!["pq"@] + macro_words(s.udfs) + seq![s.file]);
    }
}

/// A preview that was begun is shown as that of its query when it comes, and one that
/// was given up is not shown any more.
pub proof fn begun_previews_are_shown(st: Step, q: Seq<char>, preview: Preview)
    ensures
        preview_shown((preview_begun(st.0, q), st.1), preview).0.preview == preview,
        preview_shown((preview_begun(st.0, q), st.1), preview).0.last_compiled == q,
        preview_shown((preview_dropped(st.0), st.1), preview) == (preview_dropped(st.0), st.1),
        preview_dropped(preview_begun(st.0, q)).previewing is None,
        preview_begun(st.0, q).editor == st.0.editor,
{
}

/// What was measured is shown with the preview, where it is waited for, and else
/// dropped.
pub proof fn measured_queries_are_shown(s: SessionView, summary: ExplainSummary)
    ensures
        measured(measuring_begun(s), summary).preview.explain == Some(summary),
        measured(measuring_begun(s), summary).preview.rows == s.preview.rows,
        measured(measuring_begun(s), summary).preview.headers == s.preview.headers,
        measured(measuring_begun(s), summary).preview.sql == s.preview.sql,
        !measured(measuring_begun(s), summary).analyzing,
        measured(measuring_dropped(s), summary) == measuring_dropped(s),
        !measuring_dropped(measuring_begun(s)).analyzing,
{
}

/// Messages stay for three seconds, and a query waits for 50 milliseconds after its
/// last edit.
pub proof fn delays_run_out(ms: int)
    ensures
        0 <= ms <= 3000 ==> !is_stale(ms),
        ms > 3000 ==> is_stale(ms),
        0 <= ms <= 50 ==> ms + delay_left(ms) == 50,
        ms >= 50 ==> delay_left(ms) == 0,
{
}

/// A key is waited for until a query is due, but for 20 milliseconds at least; while
/// something runs for 50, and else for 200.
pub proof fn keys_are_waited_for(ms: u64)
    ensures
        ms >= 20 ==> key_wait(Some(ms), true) == ms && key_wait(Some(ms), false) == ms,
        ms < 20 ==> key_wait(Some(ms), true) == 20 && key_wait(Some(ms), false) == 20,
        key_wait(None, true) == 50,
        key_wait(None, false) == 200,
{
}

} // verus!
