//! The posterior sample selections the user has made, independent of any view.
//! Every brush or lasso adds an entry at the end; entries leave only all at
//! once, when the user clears them.
use crate::posterior_views::{selections_point_count, selections_total, SelectionContext};
use crate::text::{decimal, push_decimal, push_str};
use vstd::prelude::*;

verus! {

/// The selections made so far, oldest first.
pub struct SampleSelections {
    entries: Vec<SelectionContext>,
}

impl View for SampleSelections {
    type V = Seq<SelectionContext>;

    closed spec fn view(&self) -> Seq<SelectionContext> {
        self.entries@
    }
}

impl SampleSelections {
    /// No selection yet.
    pub fn new() -> (s: Self)
        ensures
            s@ == Seq::<SelectionContext>::empty(),
    {
        SampleSelections { entries: Vec::new() }
    }

    /// Adds the selection a brush or a lasso made, after all earlier ones.
    pub fn add(&mut self, selection: SelectionContext)
        ensures
            final(self)@ == old(self)@.push(selection),
    {
        self.entries.push(selection);
    }

    /// Removes every selection.
    pub fn clear(&mut self)
        ensures
            final(self)@ == Seq::<SelectionContext>::empty(),
    {
        self.entries = Vec::new();
    }

    /// The selections, oldest first.
    pub fn entries(&self) -> (entries: &Vec<SelectionContext>)
        ensures
            entries@ == self@,
    {
        &self.entries
    }

    /// Whether no selection is held.
    pub fn is_empty(&self) -> (empty: bool)
        ensures
            empty == (self@.len() == 0),
    {
        self.entries.len() == 0
    }

    /// How many points all the selections hold together.
    pub fn point_count(&self) -> (count: usize)
        requires
            selections_total(self@, self@.len() as int) <= usize::MAX,
        ensures
            count == selections_total(self@, self@.len() as int),
    {
        selections_point_count(&self.entries)
    }
}

/// The line under the histogram that sums up the selections: `count_text`
/// samples, displayed when a histogram is open and selected otherwise, in
/// `n_selections` selections (singular for one).
pub open spec fn status_text(count_text: Seq<char>, histogram_open: bool, n_selections: nat) -> Seq<char> {
    count_text + " samples "@ + (if histogram_open { "displayed"@ } else { "selected"@ }) + " in "@
        + decimal(n_selections) + " selection"@ + (if n_selections == 1 { ""@ } else { "s"@ })
}

/// The status line of the selection controls, or `None` when no selection is
/// held and the controls are hidden. `count_text` is the number of samples as
/// the view writes it.
pub fn update_histogram_selection_controls(selections: &SampleSelections, count_text: &str, histogram_open: bool)
    -> (status: Option<String>)
    ensures
        selections@.len() == 0 ==> status is None,
        selections@.len() > 0 ==> (status matches Some(t) && t@ == status_text(count_text@, histogram_open, selections@.len())),
{
    let n = selections.entries().len();
    if n == 0 {
        return None;
    }
    proof {
        reveal_strlit(" samples ");
        reveal_strlit("displayed");
        reveal_strlit("selected");
        reveal_strlit(" in ");
        reveal_strlit(" selection");
        reveal_strlit("");
        reveal_strlit("s");
    }
    let mut text = String::new();
    push_str(&mut text, count_text);
    push_str(&mut text, " samples ");
    if histogram_open {
        push_str(&mut text, "displayed");
    } else {
        push_str(&mut text, "selected");
    }
    push_str(&mut text, " in ");
    push_decimal(&mut text, n as u64);
    push_str(&mut text, " selection");
    if n != 1 {
        push_str(&mut text, "s");
    }
    Some(text)
}

} // verus!
