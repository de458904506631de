//! The two panes' screens and the command list's navigation.
use vstd::prelude::*;
use crate::display::{
    highlight_by_index_chars, highlight_source_chars, highlighted_by_index, highlighted_source,
    sat_sub, str_views,
};
use crate::explainshell::{opt_view, Explanation, ExplanationView};
use crate::text::{
    contains, contains_str, decimal, push_signed_decimal, signed_decimal, push_chars, push_decimal, push_range, push_repeat, push_str,
    repeat, to_chars,
};

verus! {

/// A command that an agent ran: the process id of its shell, the command
/// line, and its exit status once it has finished.
#[derive(Clone, Debug)]
pub struct TracedCommand {
    pub id: u32,
    pub text: String,
    pub status: Option<i32>,
}

/// The view of a command: (id, text, status).
pub type CommandView = (u32, Seq<char>, Option<i32>);

impl View for TracedCommand {
    type V = CommandView;

    open spec fn view(&self) -> CommandView {
        (self.id, self.text@, self.status)
    }
}

pub open spec fn command_views(v: Seq<TracedCommand>) -> Seq<CommandView> {
    Seq::new(v.len(), |k: int| v[k]@)
}

pub open spec fn min_int(a: int, b: int) -> int {
    if a < b {
        a
    } else {
        b
    }
}

// ---------------------------------------------------------------------------
// The command list screen
// ---------------------------------------------------------------------------

/// The background of the selected row.
pub open spec fn selected_bg() -> Seq<char> {
    "48;5;236"@
}

/// The plain header text on the left, for `n` commands.
pub open spec fn header_left_plain_len(n: nat) -> int {
    (("  🦅 FLW  •  "@).len() + decimal(n).len() + (" commands"@).len()) as int
}

/// The plain header text on the right.
pub open spec fn header_right_plain() -> Seq<char> {
    "↑↓ scroll  ←→ inspect  q exit  "@
}

/// The two header lines: title and count on the left, key help on the
/// right with the space between padded, then a separator rule.
pub open spec fn list_header(n: nat, cols: u16) -> Seq<char> {
    let pad = sat_sub(cols as int, header_left_plain_len(n) + header_right_plain().len());
    "\x1b[1;1H"@ + "  \x1b[38;5;203m🦅\x1b[0m \x1b[1;38;5;203;1mFLW\x1b[0m  \x1b[38;5;242m•\x1b[0m  \x1b[38;5;250m"@
        + decimal(n) + " commands\x1b[0m"@ + repeat(" "@, pad as nat)
        + "\x1b[38;5;242m↑↓ scroll  ←→ inspect  q exit\x1b[0m  "@ + "\x1b[2;1H"@ + "  \x1b[38;5;238m"@
        + repeat("─"@, sat_sub(cols as int, 4) as nat) + "\x1b[0m"@
}

/// The selected command's text: the formatted command when there is one,
/// cut to the row's width, with the active match highlighted.
pub open spec fn selected_text(c: CommandView, e: ExplanationView, active: Option<usize>, cols: u16) -> Seq<char> {
    let display = match e.1 {
        Some(f) => f,
        None => c.1,
    };
    let tr = display.take(min_int(sat_sub(cols as int, 5), display.len() as int));
    match active {
        Some(mi) => if mi < e.3.len() {
            let m = e.3[mi as int];
            let st = min_int(m.3 as int, tr.len() as int) as usize;
            let en = min_int(m.4 as int, tr.len() as int) as usize;
            if e.1 is Some {
                highlighted_by_index(tr, st, en, selected_bg())
            } else {
                highlighted_source(tr, m.1, selected_bg())
            }
        } else {
            tr
        },
        None => tr,
    }
}

/// The status dot of the selected row: green for success, red for failure,
/// blue while running.
pub open spec fn selected_status_dot(s: Option<i32>) -> Seq<char> {
    match s {
        Some(code) => if code == 0 {
            "\x1b[38;5;119;1m●\x1b[0;48;5;236m"@
        } else {
            "\x1b[38;5;203;1m●\x1b[0;48;5;236m"@
        },
        None => "\x1b[38;5;75;1m●\x1b[0;48;5;236m"@,
    }
}

/// The status dot of another row: green, red, or grey while running.
pub open spec fn other_status_dot(s: Option<i32>) -> Seq<char> {
    match s {
        Some(code) => if code == 0 {
            "\x1b[38;5;119m●\x1b[0m"@
        } else {
            "\x1b[38;5;203m●\x1b[0m"@
        },
        None => "\x1b[38;5;244m●\x1b[0m"@,
    }
}

/// The selected row: a marker bar unless a match is active, the status dot
/// and the highlighted command, on the selection background.
pub open spec fn selected_row(c: CommandView, e: ExplanationView, active: Option<usize>, cols: u16) -> Seq<char> {
    "\x1b[48;5;236m"@ + (if active is Some {
        " "@
    } else {
        "\x1b[38;5;203;1m▎\x1b[0;\x1b[48;5;236m"@
    }) + " "@ + selected_status_dot(c.2) + " "@ + selected_text(c, e, active, cols) + "\x1b[K\x1b[0m"@
}

/// Another row: the status dot and the command cut to the row's width.
pub open spec fn other_row(c: CommandView, cols: u16) -> Seq<char> {
    "  "@ + other_status_dot(c.2) + " \x1b[38;5;250m"@ + c.1.take(min_int(sat_sub(cols as int, 5), c.1.len() as int))
        + "\x1b[K\x1b[0m"@
}

/// Screen row `i` of the list (the command at `scroll + i`, or a cleared
/// line past the last command).
pub open spec fn list_row(
    cmds: Seq<CommandView>,
    selected: usize,
    scroll: usize,
    e: ExplanationView,
    active: Option<usize>,
    cols: u16,
    i: int,
) -> Seq<char> {
    let idx = scroll + i;
    "\x1b["@ + decimal((i + 3) as nat) + ";1H"@ + if idx < cmds.len() {
        if idx == selected {
            selected_row(cmds[idx], e, active, cols)
        } else {
            other_row(cmds[idx], cols)
        }
    } else {
        "\x1b[K"@
    }
}

/// The first `n` screen rows of the list.
pub open spec fn list_rows(
    cmds: Seq<CommandView>,
    selected: usize,
    scroll: usize,
    e: ExplanationView,
    active: Option<usize>,
    cols: u16,
    n: int,
) -> Seq<char>
    decreases n,
{
    if n <= 0 {
        Seq::empty()
    } else {
        list_rows(cmds, selected, scroll, e, active, cols, n - 1) + list_row(cmds, selected, scroll, e, active, cols, n - 1)
    }
}

/// The whole command list screen: cursor hidden and screen cleared, the
/// header, one row per screen line below it, and the cursor shown again.
pub open spec fn list_screen(
    cmds: Seq<CommandView>,
    selected: usize,
    scroll: usize,
    e: ExplanationView,
    active: Option<usize>,
    cols: u16,
    rows: u16,
) -> Seq<char> {
    "\x1b[?25l\x1b[2J\x1b[3J"@ + list_header(cmds.len(), cols) + list_rows(
        cmds,
        selected,
        scroll,
        e,
        active,
        cols,
        sat_sub(rows as int, 2),
    ) + "\x1b[?25h"@
}

fn push_take(out: &mut String, v: &Vec<char>, limit: usize)
    ensures
        final(out)@ == old(out)@ + v@.take(min_int(limit as int, v.len() as int)),
{
    let n = if limit < v.len() {
        limit
    } else {
        v.len()
    };
    push_range(out, v, 0, n);
    assert(v@.subrange(0, n as int) == v@.take(n as int));
}

fn push_selected_text(out: &mut String, c: &TracedCommand, e: &Explanation, active: Option<usize>, cols: u16)
    ensures
        final(out)@ == old(out)@ + selected_text(c@, e@, active, cols),
{
    let display = match &e.formatted_command {
        Some(f) => to_chars(f.as_str()),
        None => to_chars(c.text.as_str()),
    };
    let avail: usize = if cols > 5 {
        (cols - 5) as usize
    } else {
        0
    };
    let n = if avail < display.len() {
        avail
    } else {
        display.len()
    };
    let tr = crate::text::slice_of(&display, 0, n);
    assert(tr@ == display@.take(min_int(sat_sub(cols as int, 5), display.len() as int)));
    match active {
        Some(mi) => {
            if mi < e.matches.len() {
                let m = &e.matches[mi];
                let st = if m.start < tr.len() {
                    m.start
                } else {
                    tr.len()
                };
                let en = if m.end < tr.len() {
                    m.end
                } else {
                    tr.len()
                };
                let h = if e.formatted_command.is_some() {
                    highlight_by_index_chars(&tr, st, en, "48;5;236")
                } else {
                    let src = to_chars(m.source.as_str());
                    highlight_source_chars(&tr, &src, "48;5;236")
                };
                push_str(out, h.as_str());
            } else {
                push_chars(out, &tr);
            }
        },
        None => {
            push_chars(out, &tr);
        },
    }
}

fn push_selected_row(out: &mut String, c: &TracedCommand, e: &Explanation, active: Option<usize>, cols: u16)
    ensures
        final(out)@ == old(out)@ + selected_row(c@, e@, active, cols),
{
    let ghost o = out@;
    push_str(out, "\x1b[48;5;236m");
    if active.is_some() {
        push_str(out, " ");
    } else {
        push_str(out, "\x1b[38;5;203;1m▎\x1b[0;\x1b[48;5;236m");
    }
    push_str(out, " ");
    let ghost o3 = out@;
    match c.status {
        Some(code) => {
            if code == 0 {
                push_str(out, "\x1b[38;5;119;1m●\x1b[0;48;5;236m");
            } else {
                push_str(out, "\x1b[38;5;203;1m●\x1b[0;48;5;236m");
            }
        },
        None => push_str(out, "\x1b[38;5;75;1m●\x1b[0;48;5;236m"),
    }
    assert(out@ == o3 + selected_status_dot(c.status));
    push_str(out, " ");
    push_selected_text(out, c, e, active, cols);
    push_str(out, "\x1b[K\x1b[0m");
}

fn push_other_row(out: &mut String, c: &TracedCommand, cols: u16)
    ensures
        final(out)@ == old(out)@ + other_row(c@, cols),
{
    push_str(out, "  ");
    let ghost o3 = out@;
    match c.status {
        Some(code) => {
            if code == 0 {
                push_str(out, "\x1b[38;5;119m●\x1b[0m");
            } else {
                push_str(out, "\x1b[38;5;203m●\x1b[0m");
            }
        },
        None => push_str(out, "\x1b[38;5;244m●\x1b[0m"),
    }
    assert(out@ == o3 + other_status_dot(c.status));
    push_str(out, " \x1b[38;5;250m");
    let text = to_chars(c.text.as_str());
    let avail: usize = if cols > 5 {
        (cols - 5) as usize
    } else {
        0
    };
    push_take(out, &text, avail);
    push_str(out, "\x1b[K\x1b[0m");
}

fn push_list_row(
    out: &mut String,
    cmds: &[TracedCommand],
    selected: usize,
    scroll: usize,
    e: &Explanation,
    active: Option<usize>,
    cols: u16,
    i: usize,
)
    requires
        scroll + i <= usize::MAX,
        i + 3 <= usize::MAX,
    ensures
        final(out)@ == old(out)@ + list_row(command_views(cmds@), selected, scroll, e@, active, cols, i as int),
{
    push_str(out, "\x1b[");
    push_decimal(out, (i + 3) as u64);
    push_str(out, ";1H");
    let idx = scroll + i;
    if idx < cmds.len() {
        let c = &cmds[idx];
        assert(command_views(cmds@)[idx as int] == c@);
        if idx == selected {
            push_selected_row(out, c, e, active, cols);
        } else {
            push_other_row(out, c, cols);
        }
    } else {
        push_str(out, "\x1b[K");
    }
}

/// The command list screen: the header with the number of commands, then
/// the commands from `scroll` on, one per screen row; the selected one
/// shown with its formatted command and the active match highlighted.
pub fn render_list(
    cmds: &[TracedCommand],
    selected: usize,
    scroll: usize,
    explanation: &Explanation,
    active_match_idx: Option<usize>,
    cols: u16,
    rows: u16,
) -> (r: String)
    requires
        rows <= 2 || scroll + rows - 3 <= usize::MAX,
    ensures
        r@ == list_screen(command_views(cmds@), selected, scroll, explanation@, active_match_idx, cols, rows),
{
    let mut out = String::new();
    push_str(&mut out, "\x1b[?25l\x1b[2J\x1b[3J");
    let ghost o1 = out@;
    let list_height: usize = if rows > 2 {
        (rows - 2) as usize
    } else {
        0
    };
    let n = cmds.len();
    assert(command_views(cmds@).len() == n);
    let mut count_text = String::new();
    assert((n as u64) as nat == n as nat);
    push_decimal(&mut count_text, n as u64);
    proof {
        reveal_strlit("  🦅 FLW  •  ");
        reveal_strlit(" commands");
        reveal_strlit("↑↓ scroll  ←→ inspect  q exit  ");
    }
    let digits = to_chars(count_text.as_str()).len();
    let fixed = to_chars("  🦅 FLW  •  ").len() + to_chars(" commands").len() + to_chars("↑↓ scroll  ←→ inspect  q exit  ").len();
    let pad: usize = if digits < cols as usize && (cols as usize) - digits > fixed {
        (cols as usize) - digits - fixed
    } else {
        0
    };
    push_str(&mut out, "\x1b[1;1H");
    push_str(&mut out, "  \x1b[38;5;203m🦅\x1b[0m \x1b[1;38;5;203;1mFLW\x1b[0m  \x1b[38;5;242m•\x1b[0m  \x1b[38;5;250m");
    push_str(&mut out, count_text.as_str());
    push_str(&mut out, " commands\x1b[0m");
    push_repeat(&mut out, " ", pad);
    push_str(&mut out, "\x1b[38;5;242m↑↓ scroll  ←→ inspect  q exit\x1b[0m  ");
    push_str(&mut out, "\x1b[2;1H");
    push_str(&mut out, "  \x1b[38;5;238m");
    let sep: usize = if cols > 4 {
        (cols - 4) as usize
    } else {
        0
    };
    push_repeat(&mut out, "─", sep);
    push_str(&mut out, "\x1b[0m");
    assert(out@ == o1 + list_header(n as nat, cols));
    let ghost o2 = out@;
    let mut i: usize = 0;
    while i < list_height
        invariant
            i <= list_height,
            list_height as int == sat_sub(rows as int, 2),
            rows <= 2 || scroll + rows - 3 <= usize::MAX,
            out@ == o2 + list_rows(command_views(cmds@), selected, scroll, explanation@, active_match_idx, cols, i as int),
        decreases list_height - i,
    {
        push_list_row(&mut out, cmds, selected, scroll, explanation, active_match_idx, cols, i);
        i += 1;
    }
    push_str(&mut out, "\x1b[?25h");
    out
}

// ---------------------------------------------------------------------------
// Navigating the command list
// ---------------------------------------------------------------------------

/// What the command list shows: the selected command, the first command on
/// screen, whether the selection follows new commands, the active match,
/// the expanded match and how far its explanation is scrolled.
#[derive(Clone, Copy, Debug)]
pub struct ListState {
    pub selected: usize,
    pub scroll: usize,
    pub follow: bool,
    pub active_match_idx: Option<usize>,
    pub expanded_match_idx: Option<usize>,
    pub expanded_scroll: usize,
}

/// A key press in the command list.
#[derive(Clone, Copy, Debug)]
pub enum ListKey {
    Up,
    Down,
    Left,
    Right,
    Enter,
    Esc,
    Quit,
    Other,
}

impl ListState {
    /// The state at start-up: first command, following new commands, no
    /// match selected.
    pub fn new() -> (s: ListState)
        ensures
            s.selected == 0,
            s.scroll == 0,
            s.follow,
            s.active_match_idx is None,
            s.expanded_match_idx is None,
            s.expanded_scroll == 0,
    {
        ListState {
            selected: 0,
            scroll: 0,
            follow: true,
            active_match_idx: None,
            expanded_match_idx: None,
            expanded_scroll: 0,
        }
    }
}

/// The numbers stay far enough from `usize::MAX` for the steps below.
pub open spec fn in_range(s: ListState, visible_rows: usize) -> bool {
    &&& s.selected + 3 <= usize::MAX
    &&& s.scroll + visible_rows <= usize::MAX
    &&& s.active_match_idx matches Some(m) ==> m < usize::MAX
}

/// The scroll offset that keeps the selected command on screen with one
/// row above it and two below it, once there are commands and more than
/// two rows.
pub open spec fn visible_scroll(s: ListState, count: usize, visible_rows: usize) -> usize {
    if count > 0 && visible_rows > 2 {
        let up = sat_sub(s.selected as int, 1) as usize;
        let s1 = if up < s.scroll {
            up
        } else {
            s.scroll
        };
        if s.selected + 2 >= s1 + visible_rows {
            sat_sub(s.selected + 2, visible_rows as int) as usize
        } else {
            s1
        }
    } else {
        s.scroll
    }
}

/// The state after new commands arrive: when following and nothing is
/// expanded, the last command is selected and the list scrolled to its end.
pub open spec fn followed(s: ListState, count: usize, visible_rows: usize) -> ListState {
    if s.follow && count > 0 && s.expanded_match_idx is None {
        ListState { scroll: sat_sub(count as int, visible_rows as int) as usize, selected: (count - 1) as usize, ..s }
    } else {
        s
    }
}

/// The expanded scroll offset no further than the largest one, when a match
/// is expanded and the largest is known.
pub open spec fn clamped(s: ListState, max_scroll: Option<usize>) -> ListState {
    match (s.expanded_match_idx, max_scroll) {
        (Some(_), Some(m)) => if s.expanded_scroll > m {
            ListState { expanded_scroll: m, ..s }
        } else {
            s
        },
        _ => s,
    }
}

/// The state after a key press, and whether the list closes: up and down
/// scroll an expanded explanation or move the selection (clearing the match
/// selection, down following again at the last command); left and right
/// move between matches; enter expands or collapses the active match (the
/// first one when none is active); escape collapses, then deselects, then
/// closes; `q` closes.
pub open spec fn key_step(
    s: ListState,
    key: ListKey,
    count: usize,
    matches_len: usize,
    max_scroll: usize,
    visible_rows: usize,
) -> (ListState, bool) {
    match key {
        ListKey::Up => if s.expanded_match_idx is Some {
            (ListState { expanded_scroll: sat_sub(s.expanded_scroll as int, 1) as usize, ..s }, false)
        } else {
            let sel = sat_sub(s.selected as int, 1) as usize;
            let up = sat_sub(sel as int, 1) as usize;
            (
                ListState {
                    active_match_idx: None,
                    expanded_match_idx: None,
                    follow: false,
                    selected: sel,
                    scroll: if up < s.scroll {
                        up
                    } else {
                        s.scroll
                    },
                    ..s
                },
                false,
            )
        },
        ListKey::Down => if s.expanded_match_idx is Some {
            (
                ListState {
                    expanded_scroll: if s.expanded_scroll < max_scroll {
                        (s.expanded_scroll + 1) as usize
                    } else {
                        s.expanded_scroll
                    },
                    ..s
                },
                false,
            )
        } else {
            let sel = if s.selected + 1 < count {
                (s.selected + 1) as usize
            } else {
                s.selected
            };
            (
                ListState {
                    active_match_idx: None,
                    expanded_match_idx: None,
                    selected: sel,
                    scroll: if sel + 2 >= s.scroll + visible_rows {
                        sat_sub(sel + 2, visible_rows as int) as usize
                    } else {
                        s.scroll
                    },
                    follow: sel + 1 == count,
                    ..s
                },
                false,
            )
        },
        ListKey::Left => if s.expanded_match_idx is None {
            match s.active_match_idx {
                Some(m) => if m > 0 {
                    (ListState { active_match_idx: Some((m - 1) as usize), expanded_match_idx: None, ..s }, false)
                } else {
                    (ListState { active_match_idx: None, expanded_match_idx: None, ..s }, false)
                },
                None => (s, false),
            }
        } else {
            (s, false)
        },
        ListKey::Right => if s.expanded_match_idx is None {
            match s.active_match_idx {
                None => if matches_len > 0 {
                    (ListState { active_match_idx: Some(0), expanded_match_idx: None, ..s }, false)
                } else {
                    (s, false)
                },
                Some(m) => if m + 1 < matches_len {
                    (ListState { active_match_idx: Some((m + 1) as usize), expanded_match_idx: None, ..s }, false)
                } else {
                    (s, false)
                },
            }
        } else {
            (s, false)
        },
        ListKey::Enter => match s.active_match_idx {
            Some(m) => if s.expanded_match_idx == Some(m) {
                (ListState { expanded_match_idx: None, expanded_scroll: 0, ..s }, false)
            } else {
                (ListState { expanded_match_idx: Some(m), expanded_scroll: 0, ..s }, false)
            },
            None => if matches_len > 0 {
                (ListState { active_match_idx: Some(0), expanded_match_idx: Some(0), expanded_scroll: 0, ..s }, false)
            } else {
                (s, false)
            },
        },
        ListKey::Esc => if s.expanded_match_idx is Some {
            (ListState { expanded_match_idx: None, expanded_scroll: 0, ..s }, false)
        } else if s.active_match_idx is Some {
            (ListState { active_match_idx: None, expanded_match_idx: None, ..s }, false)
        } else {
            (s, true)
        },
        ListKey::Quit => (s, true),
        ListKey::Other => (s, false),
    }
}

impl ListState {
    /// Scrolls so that the selected command stays on screen with a row above
    /// it and two below it.
    pub fn keep_selected_visible(&mut self, count: usize, visible_rows: usize)
        requires
            in_range(*old(self), visible_rows),
        ensures
            *final(self) == (ListState { scroll: visible_scroll(*old(self), count, visible_rows), ..*old(self) }),
    {
        if count > 0 && visible_rows > 2 {
            let top_margin: usize = 1;
            let bottom_margin: usize = 2;
            let up = if self.selected >= top_margin {
                self.selected - top_margin
            } else {
                0
            };
            if up < self.scroll {
                self.scroll = up;
            }
            if self.selected + bottom_margin >= self.scroll + visible_rows {
                let t = self.selected + bottom_margin;
                self.scroll = if t >= visible_rows {
                    t - visible_rows
                } else {
                    0
                };
            }
        }
    }

    /// Moves to the newest command when the list follows new commands.
    pub fn follow_new_commands(&mut self, count: usize, visible_rows: usize)
        ensures
            *final(self) == followed(*old(self), count, visible_rows),
    {
        if self.follow && count > 0 && self.expanded_match_idx.is_none() {
            self.scroll = if count >= visible_rows {
                count - visible_rows
            } else {
                0
            };
            self.selected = count - 1;
        }
    }

    /// Keeps the expanded explanation's scroll offset within the largest one
    /// that the explanation pane reported.
    pub fn clamp_expanded_scroll(&mut self, max_scroll: Option<usize>)
        ensures
            *final(self) == clamped(*old(self), max_scroll),
    {
        if self.expanded_match_idx.is_some() {
            if let Some(m) = max_scroll {
                if self.expanded_scroll > m {
                    self.expanded_scroll = m;
                }
            }
        }
    }

    /// Applies a key press; returns whether the list closes.
    pub fn handle_key(
        &mut self,
        key: ListKey,
        count: usize,
        matches_len: usize,
        max_scroll: usize,
        visible_rows: usize,
    ) -> (quit: bool)
        requires
            in_range(*old(self), visible_rows),
        ensures
            (*final(self), quit) == key_step(*old(self), key, count, matches_len, max_scroll, visible_rows),
    {
        match key {
            ListKey::Up => {
                if self.expanded_match_idx.is_some() {
                    self.expanded_scroll = if self.expanded_scroll > 0 {
                        self.expanded_scroll - 1
                    } else {
                        0
                    };
                } else {
                    self.active_match_idx = None;
                    self.expanded_match_idx = None;
                    self.follow = false;
                    self.selected = if self.selected > 0 {
                        self.selected - 1
                    } else {
                        0
                    };
                    let up = if self.selected >= 1 {
                        self.selected - 1
                    } else {
                        0
                    };
                    if up < self.scroll {
                        self.scroll = up;
                    }
                }
                false
            },
            ListKey::Down => {
                if self.expanded_match_idx.is_some() {
                    if self.expanded_scroll < max_scroll {
                        self.expanded_scroll += 1;
                    }
                } else {
                    self.active_match_idx = None;
                    self.expanded_match_idx = None;
                    if self.selected + 1 < count {
                        self.selected += 1;
                    }
                    if self.selected + 2 >= self.scroll + visible_rows {
                        let t = self.selected + 2;
                        self.scroll = if t >= visible_rows {
                            t - visible_rows
                        } else {
                            0
                        };
                    }
                    self.follow = self.selected + 1 == count;
                }
                false
            },
            ListKey::Left => {
                if self.expanded_match_idx.is_none() {
                    if let Some(m) = self.active_match_idx {
                        if m > 0 {
                            self.active_match_idx = Some(m - 1);
                            self.expanded_match_idx = None;
                        } else {
                            self.active_match_idx = None;
                            self.expanded_match_idx = None;
                        }
                    }
                }
                false
            },
            ListKey::Right => {
                if self.expanded_match_idx.is_none() {
                    match self.active_match_idx {
                        None => {
                            if matches_len > 0 {
                                self.active_match_idx = Some(0);
                                self.expanded_match_idx = None;
                            }
                        },
                        Some(m) => {
                            if m + 1 < matches_len {
                                self.active_match_idx = Some(m + 1);
                                self.expanded_match_idx = None;
                            }
                        },
                    }
                }
                false
            },
            ListKey::Enter => {
                match self.active_match_idx {
                    Some(m) => {
                        if self.expanded_match_idx == Some(m) {
                            self.expanded_match_idx = None;
                            self.expanded_scroll = 0;
                        } else {
                            self.expanded_match_idx = Some(m);
                            self.expanded_scroll = 0;
                        }
                    },
                    None => {
                        if matches_len > 0 {
                            self.active_match_idx = Some(0);
                            self.expanded_match_idx = Some(0);
                            self.expanded_scroll = 0;
                        }
                    },
                }
                false
            },
            ListKey::Esc => {
                if self.expanded_match_idx.is_some() {
                    self.expanded_match_idx = None;
                    self.expanded_scroll = 0;
                    false
                } else if self.active_match_idx.is_some() {
                    self.active_match_idx = None;
                    self.expanded_match_idx = None;
                    false
                } else {
                    true
                }
            },
            ListKey::Quit => true,
            ListKey::Other => false,
        }
    }
}

// ---------------------------------------------------------------------------
// The explanation pane's screen
// ---------------------------------------------------------------------------

/// The marker that the pane looks for to keep a line in view.
pub open spec fn pane_marker() -> Seq<char> {
    "\x1b[1;38;5;203m"@
}

/// The first line at or after `k` that holds the marker.
pub open spec fn first_marked(lines: Seq<Seq<char>>, k: int) -> Option<int>
    decreases lines.len() - k,
{
    if k < 0 || k >= lines.len() {
        None
    } else if contains(lines[k], pane_marker()) {
        Some(k)
    } else {
        first_marked(lines, k + 1)
    }
}

/// The lines that fit on screen: all when they fit; else a window of
/// `max_lines` lines that puts the first marked line in the middle where it
/// can, and stays within the lines.
pub open spec fn pane_window(lines: Seq<Seq<char>>, max_lines: int) -> (int, int) {
    if lines.len() <= max_lines {
        (0, lines.len() as int)
    } else {
        let start0 = match first_marked(lines, 0) {
            Some(h) => sat_sub(h, max_lines / 2),
            None => 0,
        };
        let end = min_int(start0 + max_lines, lines.len() as int);
        (sat_sub(end, max_lines), end)
    }
}

/// Lines `start..start + n` drawn from the top row down, each line cleared
/// after its text.
pub open spec fn pane_rows(lines: Seq<Seq<char>>, start: int, n: int) -> Seq<char>
    decreases n,
{
    if n <= 0 {
        Seq::empty()
    } else {
        pane_rows(lines, start, n - 1) + "\x1b["@ + decimal(n as nat) + ";1H"@ + lines[start + n - 1] + "\x1b[K"@
    }
}

/// The explanation pane's screen: the window of lines, one per row, and
/// the rest of the screen cleared from the row below the last one when
/// that row exists.
pub open spec fn pane_screen(lines: Seq<Seq<char>>, rows: u16) -> Seq<char> {
    let max_lines = sat_sub(rows as int, 1);
    let w = pane_window(lines, max_lines);
    let n = w.1 - w.0;
    pane_rows(lines, w.0, n) + if n + 1 <= rows {
        "\x1b["@ + decimal((n + 1) as nat) + ";1H\x1b[J"@
    } else {
        Seq::empty()
    }
}

/// The explanation pane's screen for its lines (one safety row left free):
/// the lines from the top, or, when too many, a window round the first
/// line marked as highlighted.
pub fn pane_frame(lines: &Vec<String>, rows: u16) -> (r: String)
    ensures
        r@ == pane_screen(str_views(lines@), rows),
{
    let ghost lv = str_views(lines@);
    let max_lines: usize = if rows > 1 {
        (rows - 1) as usize
    } else {
        0
    };
    let (start, end) = if lines.len() <= max_lines {
        (0, lines.len())
    } else {
        let mut h: Option<usize> = None;
        let mut k: usize = 0;
        while k < lines.len()
            invariant_except_break
                h is None,
            invariant
                k <= lines.len(),
                lv == str_views(lines@),
                first_marked(lv, 0) == first_marked(lv, k as int),
            ensures
                match h {
                    Some(x) => first_marked(lv, 0) == Some(x as int) && x < lines.len(),
                    None => first_marked(lv, 0) is None,
                },
            decreases lines.len() - k,
        {
            let lc = to_chars(lines[k].as_str());
            assert(lc@ == lv[k as int]);
            if contains_str(&lc, "\x1b[1;38;5;203m") {
                h = Some(k);
                break;
            }
            k += 1;
        }
        assert(match h {
            Some(x) => first_marked(lv, 0) == Some(x as int),
            None => first_marked(lv, 0) is None,
        });
        let start0 = match h {
            Some(x) => if x > max_lines / 2 {
                x - max_lines / 2
            } else {
                0
            },
            None => 0,
        };
        let end = if start0 < lines.len() && lines.len() - start0 > max_lines {
            start0 + max_lines
        } else {
            lines.len()
        };
        let start = if end > max_lines {
            end - max_lines
        } else {
            0
        };
        (start, end)
    };
    assert((start as int, end as int) == pane_window(lv, sat_sub(rows as int, 1)));
    let mut out = String::new();
    let mut i = start;
    while i < end
        invariant
            start <= i <= end <= lines.len(),
            lv == str_views(lines@),
            out@ == pane_rows(lv, start as int, i - start),
        decreases end - i,
    {
        push_str(&mut out, "\x1b[");
        push_decimal(&mut out, (i - start + 1) as u64);
        push_str(&mut out, ";1H");
        push_str(&mut out, lines[i].as_str());
        push_str(&mut out, "\x1b[K");
        i += 1;
    }
    let n = end - start;
    if n + 1 <= rows as usize {
        push_str(&mut out, "\x1b[");
        push_decimal(&mut out, (n + 1) as u64);
        push_str(&mut out, ";1H\x1b[J");
    }
    out
}

// ---------------------------------------------------------------------------
// Redraw bookkeeping
// ---------------------------------------------------------------------------

/// The exit status as text, or `running`.
pub open spec fn status_text(status: Option<i32>) -> Seq<char> {
    match status {
        Some(s) => signed_decimal(s as int),
        None => "running"@,
    }
}

/// A summary of what is known of the selected command's explanation: its
/// error or number of matches when cached, else that it is loading; with
/// the command's status. The list redraws when it changes.
pub open spec fn cache_status_of(cached: Option<ExplanationView>, status: Option<i32>) -> Seq<char> {
    match cached {
        Some(e) => match e.2 {
            Some(err) => "error: "@ + err + " ("@ + status_text(status) + ")"@,
            None => "loaded: "@ + decimal(e.3.len()) + " ("@ + status_text(status) + ")"@,
        },
        None => "loading ("@ + status_text(status) + ")"@,
    }
}

fn push_status_text(out: &mut String, status: Option<i32>)
    ensures
        final(out)@ == old(out)@ + status_text(status),
{
    match status {
        Some(s) => push_signed_decimal(out, s as i64),
        None => push_str(out, "running"),
    }
}

/// The summary of the selected command's cached explanation and status.
pub fn cache_status(cached: Option<&Explanation>, status: Option<i32>) -> (r: String)
    ensures
        r@ == cache_status_of(
            match cached {
                Some(e) => Some(e@),
                None => None,
            },
            status,
        ),
{
    let mut out = String::new();
    match cached {
        Some(e) => match &e.error {
            Some(err) => {
                push_str(&mut out, "error: ");
                push_str(&mut out, err.as_str());
                push_str(&mut out, " (");
                push_status_text(&mut out, status);
                push_str(&mut out, ")");
            },
            None => {
                push_str(&mut out, "loaded: ");
                assert((e.matches.len() as u64) as nat == e@.3.len());
                push_decimal(&mut out, e.matches.len() as u64);
                push_str(&mut out, " (");
                push_status_text(&mut out, status);
                push_str(&mut out, ")");
            },
        },
        None => {
            push_str(&mut out, "loading (");
            push_status_text(&mut out, status);
            push_str(&mut out, ")");
        },
    }
    out
}

// ---------------------------------------------------------------------------
// Laws
// ---------------------------------------------------------------------------

/// The expanded match, when there is one, is the active one.
pub open spec fn expanded_is_active(s: ListState) -> bool {
    s.expanded_match_idx matches Some(m) ==> s.active_match_idx == Some(m)
}

/// Every step of the list keeps the expanded match the active one.
pub proof fn law_expanded_match_is_active(
    s: ListState,
    key: ListKey,
    count: usize,
    matches_len: usize,
    max_scroll: usize,
    visible_rows: usize,
    reported: Option<usize>,
)
    requires
        expanded_is_active(s),
    ensures
        expanded_is_active(key_step(s, key, count, matches_len, max_scroll, visible_rows).0),
        expanded_is_active(followed(s, count, visible_rows)),
        expanded_is_active(clamped(s, reported)),
        expanded_is_active((ListState { scroll: visible_scroll(s, count, visible_rows), ..s })),
{
}

/// A key press keeps the selection on an existing command and the active
/// match on an existing match.
pub proof fn law_selection_in_bounds(
    s: ListState,
    key: ListKey,
    count: usize,
    matches_len: usize,
    max_scroll: usize,
    visible_rows: usize,
)
    requires
        s.selected < count,
        s.active_match_idx matches Some(m) ==> m < matches_len,
    ensures
        key_step(s, key, count, matches_len, max_scroll, visible_rows).0.selected < count,
        key_step(s, key, count, matches_len, max_scroll, visible_rows).0.active_match_idx matches Some(m) ==> m
            < matches_len,
{
}

/// Following new commands selects the newest one.
pub proof fn law_follow_selects_newest(s: ListState, count: usize, visible_rows: usize)
    requires
        s.follow,
        count > 0,
        s.expanded_match_idx is None,
    ensures
        followed(s, count, visible_rows).selected == count - 1,
        followed(s, count, visible_rows).scroll + visible_rows >= count,
{
}

/// Once scrolled, the selected command is on screen with a row above it
/// (unless it is the first) and two rows below it.
pub proof fn law_selection_stays_visible(s: ListState, count: usize, visible_rows: usize)
    requires
        count > 0,
        visible_rows > 2,
        in_range(s, visible_rows),
    ensures
        visible_scroll(s, count, visible_rows) <= s.selected,
        s.selected > 0 ==> visible_scroll(s, count, visible_rows) < s.selected,
        s.selected + 2 <= visible_scroll(s, count, visible_rows) + visible_rows,
{
}

/// The explanation pane draws a run of its lines that fits the screen.
pub proof fn law_pane_window_fits(lines: Seq<Seq<char>>, max_lines: int)
    requires
        max_lines >= 0,
    ensures
        0 <= pane_window(lines, max_lines).0 <= pane_window(lines, max_lines).1 <= lines.len(),
        pane_window(lines, max_lines).1 - pane_window(lines, max_lines).0 <= max_lines,
        lines.len() <= max_lines ==> pane_window(lines, max_lines) == (0int, lines.len() as int),
{
}

/// The selection is on the first command or on one that exists.
pub open spec fn selection_valid(s: ListState, count: usize) -> bool {
    s.selected == 0 || s.selected < count
}

/// One turn of the command list's loop: it scrolls to keep the selection
/// visible among `count` commands, clamps the expansion to the reported
/// largest scroll, follows new commands when the count changed, and then
/// handles a key, if one came, with the count read again.
pub open spec fn list_turn(
    s: ListState,
    count: usize,
    changed: bool,
    visible_rows: usize,
    reported: Option<usize>,
    key: Option<ListKey>,
    count_at_key: usize,
    matches_len: usize,
    max_scroll: usize,
) -> ListState {
    let a = clamped(ListState { scroll: visible_scroll(s, count, visible_rows), ..s }, reported);
    let b = if changed {
        followed(a, count, visible_rows)
    } else {
        a
    };
    match key {
        Some(k) => key_step(b, k, count_at_key, matches_len, max_scroll, visible_rows).0,
        None => b,
    }
}

/// Across a turn of the list's loop, while commands are only added, the
/// selection stays on the first command or on one that exists (so on an
/// existing one once there are commands); when new commands are followed
/// the newest is selected before the key.
pub proof fn law_list_turn_keeps_selection(
    s: ListState,
    count_before: usize,
    count: usize,
    changed: bool,
    visible_rows: usize,
    reported: Option<usize>,
    key: Option<ListKey>,
    count_at_key: usize,
    matches_len: usize,
    max_scroll: usize,
)
    requires
        selection_valid(s, count_before),
        count_before <= count <= count_at_key,
    ensures
        selection_valid(
            list_turn(s, count, changed, visible_rows, reported, key, count_at_key, matches_len, max_scroll),
            count_at_key,
        ),
        count_at_key == 0 || list_turn(
            s,
            count,
            changed,
            visible_rows,
            reported,
            key,
            count_at_key,
            matches_len,
            max_scroll,
        ).selected < count_at_key,
        changed && s.follow && count > 0 && s.expanded_match_idx is None ==> list_turn(
            s,
            count,
            changed,
            visible_rows,
            reported,
            None,
            count_at_key,
            matches_len,
            max_scroll,
        ).selected == count - 1,
{
}

/// Up moves the selection back one, stopping at the first command; down
/// moves it on one while a command follows; both only when no match is
/// expanded.
pub proof fn law_up_down_step(s: ListState, count: usize, matches_len: usize, max_scroll: usize, visible_rows: usize)
    requires
        s.expanded_match_idx is None,
    ensures
        key_step(s, ListKey::Up, count, matches_len, max_scroll, visible_rows).0.selected == sat_sub(
            s.selected as int,
            1,
        ),
        key_step(s, ListKey::Down, count, matches_len, max_scroll, visible_rows).0.selected == if s.selected + 1
            < count {
            s.selected + 1
        } else {
            s.selected as int
        },
{
}

/// Enter on the active match expands it, and Enter again collapses it:
/// the expansion then starts at its top, and two presses leave the match
/// as it was, active and not expanded.
pub proof fn law_enter_toggles_expansion(
    s: ListState,
    m: usize,
    count: usize,
    matches_len: usize,
    max_scroll: usize,
    visible_rows: usize,
)
    requires
        s.active_match_idx == Some(m),
    ensures
        s.expanded_match_idx == Some(m) ==> key_step(s, ListKey::Enter, count, matches_len, max_scroll, visible_rows).0.expanded_match_idx is None,
        s.expanded_match_idx != Some(m) ==> key_step(s, ListKey::Enter, count, matches_len, max_scroll, visible_rows).0.expanded_match_idx == Some(m),
        key_step(s, ListKey::Enter, count, matches_len, max_scroll, visible_rows).0.expanded_scroll == 0,
        key_step(s, ListKey::Enter, count, matches_len, max_scroll, visible_rows).0.active_match_idx == Some(m),
        s.expanded_match_idx is None ==> key_step(
            key_step(s, ListKey::Enter, count, matches_len, max_scroll, visible_rows).0,
            ListKey::Enter,
            count,
            matches_len,
            max_scroll,
            visible_rows,
        ).0.expanded_match_idx is None,
{
}

/// Where the status dot of the selected row starts: after the background
/// code, the marker (a bar unless a match is active) and a space.
pub open spec fn dot_offset(active: Option<usize>) -> int {
    ("\x1b[48;5;236m"@ + (if active is Some {
        " "@
    } else {
        "\x1b[38;5;203;1m▎\x1b[0;\x1b[48;5;236m"@
    }) + " "@).len() as int
}

proof fn lemma_row_dot(c: CommandView, e: ExplanationView, active: Option<usize>, cols: u16)
    ensures
        ({
            let p = dot_offset(active);
            let d = selected_status_dot(c.2);
            &&& p + d.len() <= selected_row(c, e, active, cols).len()
            &&& selected_row(c, e, active, cols).subrange(p, p + d.len()) == d
        }),
{
    let pre = "\x1b[48;5;236m"@ + (if active is Some {
        " "@
    } else {
        "\x1b[38;5;203;1m▎\x1b[0;\x1b[48;5;236m"@
    }) + " "@;
    let d = selected_status_dot(c.2);
    let rest = " "@ + selected_text(c, e, active, cols) + "\x1b[K\x1b[0m"@;
    let r = selected_row(c, e, active, cols);
    assert(r =~= pre + d + rest);
    assert(r.subrange(pre.len() as int, pre.len() + d.len() as int) =~= d);
}

/// The selected row's status dot is green exactly when the command exited
/// with status 0, red for any other exit status, and blue while it runs;
/// two commands that differ only in their non-zero exit statuses are drawn
/// alike.
pub proof fn law_selected_dot_colour(c: CommandView, e: ExplanationView, active: Option<usize>, cols: u16)
    ensures
        ({
            let r = selected_row(c, e, active, cols);
            let p = dot_offset(active);
            let green = "\x1b[38;5;119;1m●\x1b[0;48;5;236m"@;
            let red = "\x1b[38;5;203;1m●\x1b[0;48;5;236m"@;
            let blue = "\x1b[38;5;75;1m●\x1b[0;48;5;236m"@;
            &&& (p + green.len() <= r.len() && r.subrange(p, p + green.len()) == green) <==> c.2 == Some(0i32)
            &&& (c.2 matches Some(k) && k != 0) ==> r.subrange(p, p + red.len()) == red
            &&& c.2 is None ==> r.subrange(p, p + blue.len()) == blue
            &&& forall|j: i32, k: i32|
                j != 0 && k != 0 ==> selected_row((c.0, c.1, Some(j)), e, active, cols) == selected_row(
                    (c.0, c.1, Some(k)),
                    e,
                    active,
                    cols,
                )
        }),
{
    reveal_strlit("\x1b[38;5;119;1m●\x1b[0;48;5;236m");
    reveal_strlit("\x1b[38;5;203;1m●\x1b[0;48;5;236m");
    reveal_strlit("\x1b[38;5;75;1m●\x1b[0;48;5;236m");
    lemma_row_dot(c, e, active, cols);
    let r = selected_row(c, e, active, cols);
    let p = dot_offset(active);
    let green = "\x1b[38;5;119;1m●\x1b[0;48;5;236m"@;
    let d = selected_status_dot(c.2);
    if p + green.len() <= r.len() && r.subrange(p, p + green.len()) == green {
        if c.2 != Some(0i32) {
            assert(r.subrange(p, p + d.len()) == d);
            assert(d[7] != green[7] || d[8] != green[8]) by {
                match c.2 {
                    Some(k) => {},
                    None => {},
                }
            }
            assert(r.subrange(p, p + green.len())[7] == r[p + 7]);
            assert(r.subrange(p, p + d.len())[7] == r[p + 7]);
            assert(r.subrange(p, p + green.len())[8] == r[p + 8]);
            assert(r.subrange(p, p + d.len())[8] == r[p + 8]);
        }
    }
}

/// Right and left move between neighbouring matches and undo each other;
/// right with no active match makes the first one active.
pub proof fn law_left_right_inverse(
    s: ListState,
    count: usize,
    matches_len: usize,
    max_scroll: usize,
    visible_rows: usize,
)
    requires
        s.expanded_match_idx is None,
        in_range(s, visible_rows),
        s.active_match_idx matches Some(m) ==> m < matches_len,
    ensures
        (s.active_match_idx matches Some(m) && m + 1 < matches_len) ==> {
            let r = key_step(s, ListKey::Right, count, matches_len, max_scroll, visible_rows).0;
            &&& r.active_match_idx == Some((s.active_match_idx->0 + 1) as usize)
            &&& key_step(r, ListKey::Left, count, matches_len, max_scroll, visible_rows).0.active_match_idx
                == s.active_match_idx
        },
        (s.active_match_idx matches Some(m) && m > 0) ==> {
            let l = key_step(s, ListKey::Left, count, matches_len, max_scroll, visible_rows).0;
            &&& l.active_match_idx == Some((s.active_match_idx->0 - 1) as usize)
            &&& key_step(l, ListKey::Right, count, matches_len, max_scroll, visible_rows).0.active_match_idx
                == s.active_match_idx
        },
        (s.active_match_idx is None && matches_len > 0) ==> key_step(
            s,
            ListKey::Right,
            count,
            matches_len,
            max_scroll,
            visible_rows,
        ).0.active_match_idx == Some(0usize),
        key_step(s, ListKey::Right, count, matches_len, max_scroll, visible_rows).0.selected == s.selected,
        key_step(s, ListKey::Left, count, matches_len, max_scroll, visible_rows).0.selected == s.selected,
{
}

/// Another row's status dot is green exactly when the command exited with
/// status 0, red for any other exit status, and grey while it runs.
pub proof fn law_other_dot_colour(c: CommandView, cols: u16)
    ensures
        ({
            let r = other_row(c, cols);
            let green = "\x1b[38;5;119m●\x1b[0m"@;
            let red = "\x1b[38;5;203m●\x1b[0m"@;
            let grey = "\x1b[38;5;244m●\x1b[0m"@;
            &&& (2 + green.len() <= r.len() && r.subrange(2, 2 + green.len() as int) == green) <==> c.2 == Some(0i32)
            &&& (c.2 matches Some(k) && k != 0) ==> r.subrange(2, 2 + red.len() as int) == red
            &&& c.2 is None ==> r.subrange(2, 2 + grey.len() as int) == grey
        }),
{
    reveal_strlit("\x1b[38;5;119m●\x1b[0m");
    reveal_strlit("\x1b[38;5;203m●\x1b[0m");
    reveal_strlit("\x1b[38;5;244m●\x1b[0m");
    reveal_strlit("  ");
    let r = other_row(c, cols);
    let d = other_status_dot(c.2);
    let green = "\x1b[38;5;119m●\x1b[0m"@;
    let rest = " \x1b[38;5;250m"@ + c.1.take(min_int(sat_sub(cols as int, 5), c.1.len() as int)) + "\x1b[K\x1b[0m"@;
    assert(r =~= "  "@ + d + rest);
    assert(r.subrange(2, 2 + d.len() as int) =~= d);
    if 2 + green.len() <= r.len() && r.subrange(2, 2 + green.len() as int) == green && c.2 != Some(0i32) {
        assert(r.subrange(2, 2 + green.len() as int)[7] == r[9]);
        assert(r.subrange(2, 2 + d.len() as int)[7] == r[9]);
        assert(r.subrange(2, 2 + green.len() as int)[8] == r[10]);
        assert(r.subrange(2, 2 + d.len() as int)[8] == r[10]);
    }
}

} // verus!
