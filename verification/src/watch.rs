//! The decisions in the two panes' loops: what the command list shows for
//! the selected command and when it redraws, and when the explanation pane
//! redraws or gives up on its file.
use vstd::prelude::*;
use crate::explainshell::{Explanation, ExplanationView};
use crate::text::{chars_eq, owned, to_chars};
use crate::tui::{cache_status, cache_status_of, ListState};

verus! {

// ---------------------------------------------------------------------------
// The command list
// ---------------------------------------------------------------------------

/// An explanation that only carries a message for its command.
pub open spec fn message_view(command: Seq<char>, message: Seq<char>) -> ExplanationView {
    (command, None, Some(message), Seq::empty())
}

/// What the list shows for the selected command: the explanation, the
/// summary of what is known of it, and whether its fetch starts now.
pub struct ListView {
    pub explanation: Explanation,
    pub cache_status: String,
    pub fetch: bool,
}

fn message(command: String, text: &str) -> (r: Explanation)
    ensures
        r@ == message_view(command@, text@),
{
    Explanation { command, formatted_command: None, error: Some(owned(text)), matches: Vec::new() }
}

/// What the list shows, given the selected command (unwrapped, as the
/// cache knows it) and what the cache holds for it: with no command, a
/// notice that none was recorded; with a cached explanation, that one;
/// otherwise a loading notice, and the fetch starts.
pub fn choose_explanation(command: Option<String>, cached: Option<Explanation>, status: Option<i32>) -> (r: ListView)
    ensures
        match command {
            None => {
                &&& r.explanation@ == message_view(Seq::empty(), "No commands recorded yet"@)
                &&& r.cache_status@ == "empty"@
                &&& !r.fetch
            },
            Some(c) => match cached {
                Some(e) => {
                    &&& r.explanation@ == e@
                    &&& r.cache_status@ == cache_status_of(Some(e@), status)
                    &&& !r.fetch
                },
                None => {
                    &&& r.explanation@ == message_view(c@, "Loading explanation..."@)
                    &&& r.cache_status@ == cache_status_of(None, status)
                    &&& r.fetch
                },
            },
        },
{
    match command {
        None => {
            let empty = String::new();
            ListView {
                explanation: message(empty, "No commands recorded yet"),
                cache_status: owned("empty"),
                fetch: false,
            }
        },
        Some(c) => match cached {
            Some(e) => {
                let status_text = cache_status(Some(&e), status);
                ListView { explanation: e, cache_status: status_text, fetch: false }
            },
            None => ListView {
                explanation: message(c, "Loading explanation..."),
                cache_status: cache_status(None, status),
                fetch: true,
            },
        },
    }
}

/// What the list drew last: the selection, the active and expanded match,
/// how far the expansion was scrolled, and the summary of the explanation.
pub struct Drawn {
    pub selected: usize,
    pub active_match_idx: Option<usize>,
    pub expanded_match_idx: Option<usize>,
    pub expanded_scroll: usize,
    pub cache_status: Option<String>,
}

/// The list redraws when a redraw is due for another reason (a resize, new
/// commands, a fetch that starts), or when the selection, the active or
/// expanded match, the expansion's scroll or the summary differs from what
/// was drawn last.
pub open spec fn redraw_due(s: ListState, status: Seq<char>, last: Drawn, due: bool) -> bool {
    ||| due
    ||| s.selected != last.selected
    ||| s.active_match_idx != last.active_match_idx
    ||| s.expanded_match_idx != last.expanded_match_idx
    ||| s.expanded_scroll != last.expanded_scroll
    ||| match last.cache_status {
        Some(t) => t@ != status,
        None => true,
    }
}

fn same_index(a: Option<usize>, b: Option<usize>) -> (r: bool)
    ensures
        r == (a == b),
{
    match (a, b) {
        (Some(x), Some(y)) => x == y,
        (None, None) => true,
        _ => false,
    }
}

impl Drawn {
    /// Nothing drawn yet: no value of the list matches it.
    pub fn new() -> (d: Drawn)
        ensures
            d.selected == usize::MAX,
            d.active_match_idx is None,
            d.expanded_match_idx is None,
            d.expanded_scroll == usize::MAX,
            d.cache_status is None,
    {
        Drawn {
            selected: usize::MAX,
            active_match_idx: None,
            expanded_match_idx: None,
            expanded_scroll: usize::MAX,
            cache_status: None,
        }
    }

    /// What is drawn for the state and the summary.
    pub fn of(s: &ListState, status: &str) -> (d: Drawn)
        ensures
            d.selected == s.selected,
            d.active_match_idx == s.active_match_idx,
            d.expanded_match_idx == s.expanded_match_idx,
            d.expanded_scroll == s.expanded_scroll,
            d.cache_status matches Some(t) && t@ == status@,
    {
        Drawn {
            selected: s.selected,
            active_match_idx: s.active_match_idx,
            expanded_match_idx: s.expanded_match_idx,
            expanded_scroll: s.expanded_scroll,
            cache_status: Some(owned(status)),
        }
    }
}

/// Whether the list redraws.
pub fn needs_redraw(s: &ListState, status: &str, last: &Drawn, due: bool) -> (r: bool)
    ensures
        r == redraw_due(*s, status@, *last, due),
{
    let status_changed = match &last.cache_status {
        Some(t) => !chars_eq(&to_chars(t.as_str()), &to_chars(status)),
        None => true,
    };
    due || s.selected != last.selected || !same_index(s.active_match_idx, last.active_match_idx) || !same_index(
        s.expanded_match_idx,
        last.expanded_match_idx,
    ) || s.expanded_scroll != last.expanded_scroll || status_changed
}

// ---------------------------------------------------------------------------
// The explanation pane
// ---------------------------------------------------------------------------

/// What one read of the JSON file gave.
#[derive(Clone, Copy, Debug)]
pub enum ReadOutcome {
    Read,
    Missing,
    Failed,
}

/// The number of reads that found no file in a row, after one more read,
/// and whether the pane gives up: a read resets the count, a missing file
/// raises it and the pane gives up once it passes ten, another failure
/// leaves it as it was.
pub open spec fn missing_step(missing: usize, outcome: ReadOutcome) -> (int, bool) {
    match outcome {
        ReadOutcome::Read => (0, false),
        ReadOutcome::Missing => (missing + 1, missing + 1 > 10),
        ReadOutcome::Failed => (missing as int, false),
    }
}

/// One step of the pane's count of missing reads.
pub fn read_step(missing: usize, outcome: ReadOutcome) -> (r: (usize, bool))
    requires
        missing < usize::MAX,
    ensures
        (r.0 as int, r.1) == missing_step(missing, outcome),
{
    match outcome {
        ReadOutcome::Read => (0, false),
        ReadOutcome::Missing => (missing + 1, missing + 1 > 10),
        ReadOutcome::Failed => (missing, false),
    }
}

/// The pane redraws when the file's text or the pane's size changed.
pub fn pane_needs_redraw(content: &str, last_content: &str, cols: u16, rows: u16, last_cols: u16, last_rows: u16) -> (r:
    bool)
    ensures
        r == (content@ != last_content@ || cols != last_cols || rows != last_rows),
{
    cols != last_cols || rows != last_rows || !chars_eq(&to_chars(content), &to_chars(last_content))
}

} // verus!
