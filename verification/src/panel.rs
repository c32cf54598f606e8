//! The panels of the browser.
use vstd::prelude::*;

verus! {

/// A panel that can have the focus.
#[derive(Copy, Clone, Debug, PartialEq, Eq, Structural)]
pub enum Panel {
    Columns,
    Query,
    Data,
}

/// The panel after this one, round and round.
pub open spec fn panel_after(p: Panel) -> Panel {
    match p {
        Panel::Columns => Panel::Query,
        Panel::Query => Panel::Data,
        Panel::Data => Panel::Columns,
    }
}

/// The panel before this one, round and round.
pub open spec fn panel_before(p: Panel) -> Panel {
    match p {
        Panel::Columns => Panel::Data,
        Panel::Query => Panel::Columns,
        Panel::Data => Panel::Query,
    }
}

impl Panel {
    /// The next panel.
    pub fn next(self) -> (r: Self)
        ensures
            r == panel_after(self),
    {
        match self {
            Panel::Columns => Panel::Query,
            Panel::Query => Panel::Data,
            Panel::Data => Panel::Columns,
        }
    }

    /// The previous panel.
    pub fn prev(self) -> (r: Self)
        ensures
            r == panel_before(self),
    {
        match self {
            Panel::Columns => Panel::Data,
            Panel::Query => Panel::Columns,
            Panel::Data => Panel::Query,
        }
    }
}

/// Going forward and back are opposite, and three steps lead round.
pub proof fn panels_form_a_ring(p: Panel)
    ensures
        panel_before(panel_after(p)) == p,
        panel_after(panel_before(p)) == p,
        panel_after(panel_after(panel_after(p))) == p,
{
}

/// The focus goes from the columns to the query, on to the data, and back to the
/// columns.
pub proof fn panels_follow_each_other()
    ensures
        panel_after(Panel::Columns) == Panel::Query,
        panel_after(Panel::Query) == Panel::Data,
        panel_after(Panel::Data) == Panel::Columns,
        panel_before(Panel::Columns) == Panel::Data,
        panel_before(Panel::Query) == Panel::Columns,
        panel_before(Panel::Data) == Panel::Query,
{
}

} // verus!
