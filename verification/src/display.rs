//! The text that the two panes show: cleaned explanations, highlighted
//! commands, and the lines of the explanation pane.
use vstd::prelude::*;
use crate::explainshell::{strip_html_chars, stripped_html};
use crate::pane::{parse_json, parsed_json, parsed_match_views, ParsedMatch, ParsedMatchView};
use crate::text::{
    lemma_replace_excludes, lemma_trim,
    push_repeat, repeat,
    ends_with, find, find_chars, lemma_find_from, lemma_rfind_char_before, lemma_trim_len,
    replace, replace_chars, rfind_char, rfind_char_chars, slice_of, starts_with, starts_with_chars,
    to_chars, to_string, trim, trim_chars, trim_end, trim_end_chars, trim_start, trim_start_chars,
    push_chars, push_range, push_str, lines, lines_chars, utf8_len, utf8_len_at_most, views,
};

verus! {

// ---------------------------------------------------------------------------
// Explanation text
// ---------------------------------------------------------------------------

/// ASCII lower case.
pub open spec fn ascii_lower(c: char) -> char {
    if 'A' <= c && c <= 'Z' {
        ((c as u32) + 32) as char
    } else {
        c
    }
}

/// `s` begins with the lower-case text `p`, ignoring the case of `s`.
pub open spec fn starts_with_ci(s: Seq<char>, p: Seq<char>) -> bool {
    p.len() <= s.len() && forall|k: int| 0 <= k < p.len() ==> ascii_lower(#[trigger] s[k]) == p[k]
}

/// The length of the source tag that `t` begins with (`[source]` or the
/// misspelt `[soruce]`, any case, then a line end), or 0.
pub open spec fn source_tag_len(t: Seq<char>) -> int {
    if starts_with_ci(t, "[source]\n"@) {
        ("[source]\n"@).len() as int
    } else if starts_with_ci(t, "[source]\r\n"@) {
        ("[source]\r\n"@).len() as int
    } else if starts_with_ci(t, "[soruce]\n"@) {
        ("[soruce]\n"@).len() as int
    } else if starts_with_ci(t, "[soruce]\r\n"@) {
        ("[soruce]\r\n"@).len() as int
    } else {
        0
    }
}

/// `t` with its leading source tags removed, trimming after each.
pub open spec fn without_source_tags(t: Seq<char>) -> Seq<char>
    decreases t.len(),
{
    let n = source_tag_len(t);
    if n > 0 && n <= t.len() {
        proof {
            lemma_trim_len(t.skip(n));
        }
        without_source_tags(trim(t.skip(n)))
    } else {
        t
    }
}

/// An explanation without surrounding white space and source tags.
pub open spec fn cleaned_explanation(s: Seq<char>) -> Seq<char> {
    without_source_tags(trim(s))
}

fn starts_with_ci_chars(s: &Vec<char>, p: &Vec<char>) -> (b: bool)
    ensures
        b == starts_with_ci(s@, p@),
{
    if p.len() > s.len() {
        return false;
    }
    let mut k: usize = 0;
    while k < p.len()
        invariant
            p.len() <= s.len(),
            k <= p.len(),
            forall|j: int| 0 <= j < k ==> ascii_lower(#[trigger] s@[j]) == p@[j],
        decreases p.len() - k,
    {
        let c = s[k];
        let l = if 'A' <= c && c <= 'Z' {
            ((c as u32) + 32) as u8 as char
        } else {
            c
        };
        assert(l == ascii_lower(c)) by {
            if 'A' <= c && c <= 'Z' {
                assert(((c as u32) + 32) as u8 as char == ((c as u32) + 32) as char);
            }
        }
        if l != p[k] {
            return false;
        }
        k += 1;
    }
    true
}

/// The explanation without surrounding white space and without the
/// `[source]` (or `[soruce]`) tags that begin it, in any case, each
/// followed by a line feed or a carriage return and line feed.
pub fn clean_explanation_chars(s: &Vec<char>) -> (r: Vec<char>)
    ensures
        r@ == cleaned_explanation(s@),
{
    let p1 = to_chars("[source]\n");
    let p2 = to_chars("[source]\r\n");
    let p3 = to_chars("[soruce]\n");
    let p4 = to_chars("[soruce]\r\n");
    proof {
        reveal_strlit("[source]\n");
        reveal_strlit("[source]\r\n");
        reveal_strlit("[soruce]\n");
        reveal_strlit("[soruce]\r\n");
    }
    let mut t = trim_chars(s);
    loop
        invariant
            p1@ == "[source]\n"@,
            p2@ == "[source]\r\n"@,
            p3@ == "[soruce]\n"@,
            p4@ == "[soruce]\r\n"@,
            p1@.len() == 9,
            p2@.len() == 10,
            p3@.len() == 9,
            p4@.len() == 10,
            without_source_tags(t@) == cleaned_explanation(s@),
        decreases t.len(),
    {
        let n: usize = if starts_with_ci_chars(&t, &p1) {
            9
        } else if starts_with_ci_chars(&t, &p2) {
            10
        } else if starts_with_ci_chars(&t, &p3) {
            9
        } else if starts_with_ci_chars(&t, &p4) {
            10
        } else {
            0
        };
        assert(n as int == source_tag_len(t@));
        if n == 0 {
            return t;
        }
        let rest = slice_of(&t, n, t.len());
        assert(rest@ == t@.skip(n as int));
        let next = trim_chars(&rest);
        proof {
            lemma_trim_len(t@.skip(n as int));
        }
        t = next;
    }
}

/// The explanation without surrounding white space and without the
/// `[source]` (or `[soruce]`) tags that begin it, in any case, each
/// followed by a line feed or a carriage return and line feed.
pub fn clean_explanation(explanation: &str) -> (r: String)
    ensures
        r@ == cleaned_explanation(explanation@),
{
    let v = to_chars(explanation);
    let c = clean_explanation_chars(&v);
    to_string(&c)
}

/// A line reads as a description: not an option name of at most six bytes
/// and not of at most three bytes.
pub open spec fn is_description(t: Seq<char>) -> bool {
    !((starts_with(t, seq!['-']) && utf8_len(t) <= 6) || utf8_len(t) <= 3)
}

/// The first line that, trimmed, is a description.
pub open spec fn first_description(ls: Seq<Seq<char>>) -> Option<Seq<char>>
    decreases ls.len(),
{
    if ls.len() == 0 {
        None
    } else if trim(ls[0]).len() > 0 && is_description(trim(ls[0])) {
        Some(trim(ls[0]))
    } else {
        first_description(ls.drop_first())
    }
}

/// The first line that, trimmed, is not empty.
pub open spec fn first_nonblank(ls: Seq<Seq<char>>) -> Option<Seq<char>>
    decreases ls.len(),
{
    if ls.len() == 0 {
        None
    } else if trim(ls[0]).len() > 0 {
        Some(trim(ls[0]))
    } else {
        first_nonblank(ls.drop_first())
    }
}

/// The first trimmed description line of a text, else its first non-blank
/// line, else nothing.
pub open spec fn description_line(text: Seq<char>) -> Seq<char> {
    match first_description(lines(text)) {
        Some(t) => t,
        None => match first_nonblank(lines(text)) {
            Some(t) => t,
            None => Seq::empty(),
        },
    }
}

/// The first line of an explanation that describes (skipping option names).
pub fn description_line_chars(text: &Vec<char>) -> (r: Vec<char>)
    ensures
        r@ == description_line(text@),
{
    let ls = lines_chars(text);
    let dash = vec!['-'];
    assert(dash@ == seq!['-']);
    let mut k: usize = 0;
    assert(views(ls@).skip(0) == views(ls@));
    while k < ls.len()
        invariant
            k <= ls.len(),
            views(ls@) == lines(text@),
            dash@ == seq!['-'],
            first_description(lines(text@)) == first_description(views(ls@).skip(k as int)),
        decreases ls.len() - k,
    {
        let t = trim_chars(&ls[k]);
        assert(views(ls@).skip(k as int)[0] == ls@[k as int]@);
        if t.len() > 0 {
            let dashed = starts_with_chars(&t, &dash);
            let short_option = dashed && utf8_len_at_most(&t, 6);
            if !(short_option || utf8_len_at_most(&t, 3)) {
                return t;
            }
        }
        assert(views(ls@).skip(k as int).drop_first() == views(ls@).skip(k + 1));
        k += 1;
    }
    let mut k: usize = 0;
    while k < ls.len()
        invariant
            k <= ls.len(),
            views(ls@) == lines(text@),
            first_description(lines(text@)) is None,
            first_nonblank(lines(text@)) == first_nonblank(views(ls@).skip(k as int)),
        decreases ls.len() - k,
    {
        let t = trim_chars(&ls[k]);
        assert(views(ls@).skip(k as int)[0] == ls@[k as int]@);
        if t.len() > 0 {
            return t;
        }
        assert(views(ls@).skip(k as int).drop_first() == views(ls@).skip(k + 1));
        k += 1;
    }
    Vec::new()
}

/// The first line of an explanation that describes: the first non-blank
/// trimmed line that is neither a short option name (starting with `-`, at
/// most six bytes) nor at most three bytes long; failing that the first
/// non-blank trimmed line; failing that the empty string.
pub fn get_first_description_line(text: &str) -> (r: String)
    ensures
        r@ == description_line(text@),
{
    let v = to_chars(text);
    let d = description_line_chars(&v);
    to_string(&d)
}

/// A text on one line: line feeds and carriage returns as spaces.
pub open spec fn flattened(s: Seq<char>) -> Seq<char> {
    replace(replace(s, seq!['\n'], seq![' ']), seq!['\r'], seq![' '])
}

/// A text on one line of at most `max_len` characters: flattened, and when
/// longer cut to `max_len - 3` characters followed by `...`.
pub open spec fn truncated_line(s: Seq<char>, max_len: usize) -> Seq<char> {
    let flat = flattened(s);
    if flat.len() <= max_len {
        flat
    } else {
        flat.take(if max_len >= 3 {
            max_len - 3
        } else {
            0
        }) + "..."@
    }
}

pub fn truncate_chars(s: &Vec<char>, max_len: usize) -> (r: Vec<char>)
    ensures
        r@ == truncated_line(s@, max_len),
{
    let nl = vec!['\n'];
    let cr = vec!['\r'];
    let sp = vec![' '];
    assert(nl@ == seq!['\n']);
    assert(cr@ == seq!['\r']);
    assert(sp@ == seq![' ']);
    let a = replace_chars(s, &nl, &sp);
    let flat = replace_chars(&a, &cr, &sp);
    if flat.len() <= max_len {
        flat
    } else {
        let keep = if max_len >= 3 {
            max_len - 3
        } else {
            0
        };
        let mut r = slice_of(&flat, 0, keep);
        let dots = to_chars("...");
        crate::text::extend(&mut r, &dots);
        r
    }
}

/// A text on one line of at most `max_len` characters (for `max_len` of at
/// least three): line breaks as spaces, and a longer text cut and ended
/// with `...`.
pub fn truncate_to_line(s: &str, max_len: usize) -> (r: String)
    ensures
        r@ == truncated_line(s@, max_len),
{
    let v = to_chars(s);
    let t = truncate_chars(&v, max_len);
    to_string(&t)
}

// ---------------------------------------------------------------------------
// Highlighting
// ---------------------------------------------------------------------------

/// The escape codes that start a highlighted part of the command.
pub open spec fn highlight_on() -> Seq<char> {
    "\x1b[1;48;5;160;38;5;231m"@
}

/// The command with characters `start..end` highlighted and the rest in the
/// background style, when that range is not empty and lies in the command.
pub open spec fn highlighted_by_index(cmd: Seq<char>, start: usize, end: usize, bg: Seq<char>) -> Seq<char> {
    if start < end && end <= cmd.len() {
        cmd.take(start as int) + highlight_on() + cmd.subrange(start as int, end as int) + "\x1b[0;"@ + bg
            + "m"@ + cmd.skip(end as int)
    } else {
        cmd
    }
}

fn push_highlighted(out: &mut String, cmd: &Vec<char>, start: usize, end: usize, bg: &str)
    requires
        start <= end <= cmd.len(),
    ensures
        final(out)@ == old(out)@ + (cmd@.take(start as int) + highlight_on() + cmd@.subrange(start as int, end as int) + "\x1b[0;"@
            + bg@ + "m"@ + cmd@.skip(end as int)),
{
    let ghost o = out@;
    push_range(out, cmd, 0, start);
    push_str(out, "\x1b[1;48;5;160;38;5;231m");
    push_range(out, cmd, start, end);
    push_str(out, "\x1b[0;");
    push_str(out, bg);
    push_str(out, "m");
    push_range(out, cmd, end, cmd.len());
    assert(cmd@.subrange(0, start as int) == cmd@.take(start as int));
    assert(cmd@.subrange(end as int, cmd.len() as int) == cmd@.skip(end as int));
}

pub fn highlight_by_index_chars(cmd: &Vec<char>, start: usize, end: usize, bg: &str) -> (r: String)
    ensures
        r@ == highlighted_by_index(cmd@, start, end, bg@),
{
    let mut out = String::new();
    if start < end && end <= cmd.len() {
        push_highlighted(&mut out, cmd, start, end, bg);
        assert(out@ == highlighted_by_index(cmd@, start, end, bg@));
    } else {
        push_chars(&mut out, cmd);
    }
    out
}

/// Highlights the characters `start..end` of the command, the rest in the
/// given background style; the command unchanged when the range is empty
/// or reaches past its end.
pub fn highlight_cmd_source_by_index(cmd: &str, start: usize, end: usize, bg_style: &str) -> (r: String)
    ensures
        r@ == highlighted_by_index(cmd@, start, end, bg_style@),
{
    let v = to_chars(cmd);
    highlight_by_index_chars(&v, start, end, bg_style)
}

/// The part of a match's source before any parenthesis.
pub open spec fn source_stem(source: Seq<char>) -> Seq<char> {
    match find(source, seq!['(']) {
        Some(i) => source.take(i),
        None => source,
    }
}

/// The command with the first occurrence of the match's source (before any
/// parenthesis) highlighted, or unchanged where it does not occur.
pub open spec fn highlighted_source(cmd: Seq<char>, source: Seq<char>, bg: Seq<char>) -> Seq<char> {
    let stem = source_stem(source);
    match find(cmd, stem) {
        Some(p) => cmd.take(p) + highlight_on() + cmd.subrange(p, p + stem.len()) + "\x1b[0;"@ + bg + "m"@
            + cmd.skip(p + stem.len()),
        None => cmd,
    }
}

pub fn highlight_source_chars(cmd: &Vec<char>, source: &Vec<char>, bg: &str) -> (r: String)
    ensures
        r@ == highlighted_source(cmd@, source@, bg@),
{
    let paren = vec!['('];
    assert(paren@ == seq!['(']);
    let stem = match find_chars(source, &paren) {
        Some(i) => {
            proof {
                lemma_find_from(source@, paren@, 0);
                assert(crate::text::find_from(source@, paren@, 0) == Some(i as int));
                assert(i + 1 <= source.len());
            }
            slice_of(source, 0, i)
        },
        None => slice_of(source, 0, source.len()),
    };
    assert(source@.subrange(0, source.len() as int) == source@);
    assert(stem@ == source_stem(source@));
    let mut out = String::new();
    match find_chars(cmd, &stem) {
        Some(p) => {
            proof {
                lemma_find_from(cmd@, stem@, 0);
                assert(crate::text::find_from(cmd@, stem@, 0) == Some(p as int));
                assert(p + stem.len() <= cmd.len());
            }
            push_highlighted(&mut out, cmd, p, p + stem.len(), bg);
        },
        None => {
            push_chars(&mut out, cmd);
        },
    }
    out
}

/// Highlights the first occurrence in the command of the match's source
/// (the part before any parenthesis), the rest in the given background
/// style; the command unchanged where it does not occur.
pub fn highlight_cmd_source(cmd: &str, source: &str, bg_style: &str) -> (r: String)
    ensures
        r@ == highlighted_source(cmd@, source@, bg_style@),
{
    let c = to_chars(cmd);
    let s = to_chars(source);
    highlight_source_chars(&c, &s, bg_style)
}

// ---------------------------------------------------------------------------
// The shell wrapper of coding agents
// ---------------------------------------------------------------------------

/// The prefix that some agents wrap their commands in.
pub open spec fn shopt_prefix() -> Seq<char> {
    "shopt -u promptvars nullglob extglob nocaseglob dotglob; ("@
}

/// What follows the wrapped command's closing parenthesis is the agent's
/// exit-code bookkeeping, or nothing.
pub open spec fn is_exit_noise(after: Seq<char>) -> bool {
    ||| after.len() == 0
    ||| starts_with(after, "__code=$?"@)
    ||| starts_with(after, "; __code=$?"@)
    ||| starts_with(after, "\n__code=$?"@)
}

/// The command that an agent ran: trimmed, and without the `shopt ... (`
/// wrapper and the closing parenthesis with the exit-code bookkeeping
/// after it.
pub open spec fn unwrapped_command(cmd: Seq<char>) -> Seq<char> {
    let t = trim(cmd);
    if starts_with(t, shopt_prefix()) {
        let c = trim_start(t.skip(shopt_prefix().len() as int));
        match rfind_char(c, ')') {
            Some(idx) => if is_exit_noise(trim(c.skip(idx + 1))) {
                trim_end(c.take(idx))
            } else {
                c
            },
            None => c,
        }
    } else {
        t
    }
}

/// Removes the `shopt -u ... ; (` wrapper that an agent puts round its
/// commands, with the closing parenthesis where only the exit-code
/// bookkeeping follows it; other commands are only trimmed.
pub fn strip_shopt_wrapper(cmd: &str) -> (r: String)
    ensures
        r@ == unwrapped_command(cmd@),
{
    let v = to_chars(cmd);
    let t = trim_chars(&v);
    let prefix = to_chars("shopt -u promptvars nullglob extglob nocaseglob dotglob; (");
    if !starts_with_chars(&t, &prefix) {
        return to_string(&t);
    }
    let rest = slice_of(&t, prefix.len(), t.len());
    assert(rest@ == t@.skip(prefix@.len() as int));
    let c = trim_start_chars(&rest);
    match rfind_char_chars(&c, ')') {
        Some(idx) => {
            proof {
                lemma_rfind_char_before(c@, ')', c@.len() as int);
                assert(crate::text::rfind_char_before(c@, ')', c@.len() as int) == Some(idx as int));
            }
            let after_raw = slice_of(&c, idx + 1, c.len());
            assert(after_raw@ == c@.skip(idx + 1));
            let after = trim_chars(&after_raw);
            let noise = after.len() == 0 || starts_with_chars(&after, &to_chars("__code=$?"))
                || starts_with_chars(&after, &to_chars("; __code=$?")) || starts_with_chars(
                &after,
                &to_chars("\n__code=$?"),
            );
            if noise {
                let before = slice_of(&c, 0, idx);
                assert(before@ == c@.take(idx as int));
                let r = trim_end_chars(&before);
                to_string(&r)
            } else {
                to_string(&c)
            }
        },
        None => to_string(&c),
    }
}

// ---------------------------------------------------------------------------
// The explanation pane
// ---------------------------------------------------------------------------

/// `a - b`, or 0 where that is negative.
pub open spec fn sat_sub(a: int, b: int) -> int {
    if a > b {
        a - b
    } else {
        0
    }
}

pub open spec fn str_views(v: Seq<String>) -> Seq<Seq<char>> {
    Seq::new(v.len(), |k: int| v[k]@)
}

/// The first match with the given index.
pub open spec fn match_with_index(ms: Seq<ParsedMatchView>, idx: usize) -> Option<ParsedMatchView>
    decreases ms.len(),
{
    if ms.len() == 0 {
        None
    } else if ms[0].0 == idx {
        Some(ms[0])
    } else {
        match_with_index(ms.drop_first(), idx)
    }
}

/// The match that the pane shows expanded: for a parsed (not raw) text with
/// no error and some matches, the first match whose index is the expanded
/// one.
pub open spec fn expanded_target(content: Seq<char>, raw_json: bool) -> Option<ParsedMatchView> {
    if raw_json || trim(content).len() == 0 {
        None
    } else {
        let p = parsed_json(content);
        if p.1 is Some || p.5.len() == 0 {
            None
        } else {
            match p.3 {
                Some(idx) => match_with_index(p.5, idx),
                None => None,
            }
        }
    }
}

/// The text to render as HTML for the expanded match, and the width to
/// render it at.
pub open spec fn render_request_of(content: Seq<char>, raw_json: bool, cols: u16) -> Option<(Seq<char>, usize)> {
    match expanded_target(content, raw_json) {
        Some(m) => Some((cleaned_explanation(m.2), sat_sub(cols as int, 4) as usize)),
        None => None,
    }
}

pub open spec fn no_selection_line() -> Seq<char> {
    "\x1b[37mNo command selected or explanation loaded yet.\x1b[0m"@
}

pub open spec fn no_matches_line() -> Seq<char> {
    "\x1b[37mNo explanation matches found.\x1b[0m"@
}

/// The lines of an expanded match: its source in bold red, a blank line,
/// and the rendered explanation from the scroll offset on (clamped so that
/// the last page stays full), with the largest scroll offset.
pub open spec fn expanded_lines(m: ParsedMatchView, rows: u16, scroll: usize, rendered: Seq<char>) -> (Seq<Seq<char>>, usize) {
    let desc = lines(rendered);
    let visible = sat_sub(sat_sub(rows as int, 1), 2);
    let max_scroll = sat_sub(desc.len() as int, visible);
    let sc = if scroll < max_scroll {
        scroll as int
    } else {
        max_scroll
    };
    (
        seq!["\x1b[31;1m"@ + m.1 + "\x1b[0m"@, Seq::<char>::empty()] + Seq::new(
            (desc.len() - sc) as nat,
            |k: int| "  \x1b[38;5;250m"@ + desc[sc + k] + "\x1b[0m"@,
        ),
        max_scroll as usize,
    )
}

/// The length of the longest source.
pub open spec fn max_source_len(ms: Seq<ParsedMatchView>) -> int
    decreases ms.len(),
{
    if ms.len() == 0 {
        0
    } else {
        let a = max_source_len(ms.drop_last());
        let b = ms.last().1.len() as int;
        if a >= b {
            a
        } else {
            b
        }
    }
}

/// One line of the match list: the source padded to the longest, and the
/// first description line of its explanation cut to the width left; the
/// active match marked and in bold red.
pub open spec fn list_line(m: ParsedMatchView, max_src: int, active: Option<usize>, cols: u16) -> Seq<char> {
    let padding = repeat(" "@, (max_src - m.1.len()) as nat);
    let avail = sat_sub(cols as int, max_src + 4);
    let desc = truncated_line(description_line(stripped_html(cleaned_explanation(m.2))), avail as usize);
    if active == Some(m.0) {
        "\x1b[31;1m▸ "@ + m.1 + padding + "\x1b[0m  \x1b[38;5;250m"@ + desc + "\x1b[0m"@
    } else {
        "\x1b[33m  "@ + m.1 + padding + "\x1b[0m  \x1b[38;5;250m"@ + desc + "\x1b[0m"@
    }
}

/// The lines of the match list.
pub open spec fn list_lines(ms: Seq<ParsedMatchView>, active: Option<usize>, cols: u16) -> Seq<Seq<char>> {
    Seq::new(ms.len(), |k: int| list_line(ms[k], max_source_len(ms), active, cols))
}

/// The lines that the explanation pane shows for its JSON text, and the
/// largest scroll offset of an expanded match (else 0): the raw lines in
/// raw mode; a notice for an empty text, an error or no matches; the
/// expanded match, with `rendered` as the rendering of its explanation;
/// or the list of matches.
pub open spec fn formatted_lines(content: Seq<char>, raw_json: bool, cols: u16, rows: u16, rendered: Seq<char>) -> (
    Seq<Seq<char>>,
    usize,
) {
    if raw_json {
        (lines(content), 0)
    } else if trim(content).len() == 0 {
        (seq![no_selection_line()], 0)
    } else {
        let p = parsed_json(content);
        match p.1 {
            Some(err) => (seq!["\x1b[37m"@ + err + "\x1b[0m"@], 0),
            None => if p.5.len() == 0 {
                (seq![no_matches_line()], 0)
            } else {
                match expanded_target(content, raw_json) {
                    Some(m) => expanded_lines(m, rows, p.4, rendered),
                    None => (list_lines(p.5, p.2, cols), 0),
                }
            },
        }
    }
}

fn find_match_with_index(ms: &Vec<ParsedMatch>, idx: usize) -> (r: Option<usize>)
    ensures
        match r {
            Some(k) => k < ms.len() && match_with_index(parsed_match_views(ms@), idx) == Some(ms@[k as int]@),
            None => match_with_index(parsed_match_views(ms@), idx) is None,
        },
{
    let mut k: usize = 0;
    assert(parsed_match_views(ms@).skip(0) == parsed_match_views(ms@));
    while k < ms.len()
        invariant
            k <= ms.len(),
            match_with_index(parsed_match_views(ms@), idx) == match_with_index(parsed_match_views(ms@).skip(k as int), idx),
        decreases ms.len() - k,
    {
        assert(parsed_match_views(ms@).skip(k as int)[0] == ms@[k as int]@);
        if ms[k].index == idx {
            return Some(k);
        }
        assert(parsed_match_views(ms@).skip(k as int).drop_first() == parsed_match_views(ms@).skip(k + 1));
        k += 1;
    }
    None
}

/// What the pane needs rendered as HTML before it can lay out an expanded
/// match: the cleaned explanation and the width, or `None` when no match is
/// expanded.
pub fn render_request(content: &str, raw_json: bool, cols: u16) -> (r: Option<(String, usize)>)
    ensures
        match r {
            Some((text, width)) => render_request_of(content@, raw_json, cols) == Some((text@, width)),
            None => render_request_of(content@, raw_json, cols) is None,
        },
{
    if raw_json {
        return None;
    }
    let c = to_chars(content);
    let t = trim_chars(&c);
    if t.len() == 0 {
        return None;
    }
    let parsed = parse_json(content);
    if parsed.error.is_some() || parsed.matches.len() == 0 {
        return None;
    }
    match parsed.expanded_match_idx {
        Some(idx) => match find_match_with_index(&parsed.matches, idx) {
            Some(k) => {
                let ex = to_chars(parsed.matches[k].explanation.as_str());
                let cleaned = clean_explanation_chars(&ex);
                let width: usize = if cols > 4 { (cols - 4) as usize } else { 0 };
                Some((to_string(&cleaned), width))
            },
            None => None,
        },
        None => None,
    }
}

fn push_expanded_lines(lines_out: &mut Vec<String>, m: &ParsedMatch, rows: u16, scroll: usize, rendered: &str) -> (max_scroll: usize)
    requires
        old(lines_out)@.len() == 0,
    ensures
        (str_views(final(lines_out)@), max_scroll) == expanded_lines(m@, rows, scroll, rendered@),
{
    let mut head = String::new();
    push_str(&mut head, "\x1b[31;1m");
    let src = to_chars(m.source.as_str());
    push_chars(&mut head, &src);
    push_str(&mut head, "\x1b[0m");
    lines_out.push(head);
    lines_out.push(String::new());
    let r = to_chars(rendered);
    let desc = lines_chars(&r);
    let max_lines: usize = if rows > 1 { (rows - 1) as usize } else { 0 };
    let visible: usize = if max_lines > 2 { max_lines - 2 } else { 0 };
    let max_scroll: usize = if desc.len() > visible { desc.len() - visible } else { 0 };
    let sc = if scroll < max_scroll { scroll } else { max_scroll };
    let ghost spec = expanded_lines(m@, rows, scroll, rendered@);
    let ghost base = str_views(lines_out@);
    assert(base == spec.0.take(2));
    let mut k = sc;
    while k < desc.len()
        invariant
            sc <= k <= desc.len(),
            views(desc@) == lines(rendered@),
            sc as int == (if scroll < max_scroll { scroll as int } else { max_scroll as int }),
            max_scroll as int == sat_sub(desc.len() as int, sat_sub(sat_sub(rows as int, 1), 2)),
            spec == expanded_lines(m@, rows, scroll, rendered@),
            str_views(lines_out@) == spec.0.take(2 + k - sc),
        decreases desc.len() - k,
    {
        let mut line = String::new();
        push_str(&mut line, "  \x1b[38;5;250m");
        push_chars(&mut line, &desc[k]);
        push_str(&mut line, "\x1b[0m");
        let ghost lv = line@;
        let ghost prev = str_views(lines_out@);
        lines_out.push(line);
        assert(str_views(lines_out@) == prev.push(lv));
        assert(spec.0.take(2 + k + 1 - sc) == spec.0.take(2 + k - sc).push(spec.0[2 + k - sc]));
        k += 1;
    }
    assert(spec.0.take(2 + desc.len() - sc) == spec.0);
    max_scroll
}

fn push_list_lines(lines_out: &mut Vec<String>, ms: &Vec<ParsedMatch>, active: Option<usize>, cols: u16)
    requires
        old(lines_out)@.len() == 0,
    ensures
        str_views(final(lines_out)@) == list_lines(parsed_match_views(ms@), active, cols),
{
    let ghost mv = parsed_match_views(ms@);
    let mut max_src: usize = 0;
    let mut k: usize = 0;
    assert(mv.take(0) == Seq::<ParsedMatchView>::empty());
    while k < ms.len()
        invariant
            k <= ms.len(),
            mv == parsed_match_views(ms@),
            max_src as int == max_source_len(mv.take(k as int)),
        decreases ms.len() - k,
    {
        let n = to_chars(ms[k].source.as_str()).len();
        assert(mv.take(k + 1).drop_last() == mv.take(k as int));
        assert(mv.take(k + 1).last() == ms@[k as int]@);
        if n > max_src {
            max_src = n;
        }
        k += 1;
    }
    assert(mv.take(ms.len() as int) == mv);
    let avail: usize = if max_src < cols as usize && (cols as usize) - max_src > 4 {
        (cols as usize) - max_src - 4
    } else {
        0
    };
    assert(avail as int == sat_sub(cols as int, max_src + 4));
    let mut k: usize = 0;
    while k < ms.len()
        invariant
            k <= ms.len(),
            mv == parsed_match_views(ms@),
            max_src as int == max_source_len(mv),
            avail as int == sat_sub(cols as int, max_src + 4),
            str_views(lines_out@) == list_lines(mv, active, cols).take(k as int),
        decreases ms.len() - k,
    {
        let m = &ms[k];
        let src = to_chars(m.source.as_str());
        proof {
            lemma_max_source_len(mv, k as int);
        }
        let ex = to_chars(m.explanation.as_str());
        let cleaned = clean_explanation_chars(&ex);
        let stripped = strip_html_chars(&cleaned);
        let desc = description_line_chars(&stripped);
        let truncated = truncate_chars(&desc, avail);
        let mut line = String::new();
        if Some(m.index) == active {
            push_str(&mut line, "\x1b[31;1m▸ ");
        } else {
            push_str(&mut line, "\x1b[33m  ");
        }
        push_chars(&mut line, &src);
        push_repeat(&mut line, " ", max_src - src.len());
        push_str(&mut line, "\x1b[0m  \x1b[38;5;250m");
        push_chars(&mut line, &truncated);
        push_str(&mut line, "\x1b[0m");
        let ghost lv = line@;
        let ghost prev = str_views(lines_out@);
        assert(lv == list_line(mv[k as int], max_source_len(mv), active, cols));
        lines_out.push(line);
        assert(str_views(lines_out@) == prev.push(lv));
        assert(list_lines(mv, active, cols).take(k + 1) == list_lines(mv, active, cols).take(k as int).push(lv));
        k += 1;
    }
    assert(list_lines(mv, active, cols).take(ms.len() as int) == list_lines(mv, active, cols));
}

pub proof fn lemma_max_source_len(ms: Seq<ParsedMatchView>, k: int)
    requires
        0 <= k < ms.len(),
    ensures
        ms[k].1.len() <= max_source_len(ms),
        max_source_len(ms) >= 0,
    decreases ms.len(),
{
    if k < ms.len() - 1 {
        lemma_max_source_len(ms.drop_last(), k);
    } else {
        if ms.len() > 1 {
            lemma_max_source_len(ms.drop_last(), 0);
        }
    }
}

fn one_line(s: &str) -> (r: Vec<String>)
    ensures
        str_views(r@) == seq![s@],
{
    let mut v: Vec<String> = Vec::new();
    let l = crate::text::owned(s);
    v.push(l);
    v
}

/// The lines that the explanation pane shows for its JSON text, and the
/// largest scroll offset of the expanded match (0 when none is expanded).
/// `rendered` is the HTML rendering of what [`render_request`] asks for;
/// it is read only when a match is expanded.
pub fn format_lines(content: &str, raw_json: bool, cols: u16, rows: u16, rendered: &str) -> (r: (Vec<String>, usize))
    ensures
        (str_views(r.0@), r.1) == formatted_lines(content@, raw_json, cols, rows, rendered@),
{
    let c = to_chars(content);
    if raw_json {
        let ls = lines_chars(&c);
        let mut out: Vec<String> = Vec::new();
        let mut k: usize = 0;
        while k < ls.len()
            invariant
                k <= ls.len(),
                views(ls@) == lines(content@),
                str_views(out@) == views(ls@).take(k as int),
            decreases ls.len() - k,
        {
            let l = to_string(&ls[k]);
            let ghost prev = str_views(out@);
            let ghost lv = l@;
            out.push(l);
            assert(str_views(out@) == prev.push(lv));
            assert(views(ls@).take(k + 1) == views(ls@).take(k as int).push(lv));
            k += 1;
        }
        assert(views(ls@).take(ls.len() as int) == views(ls@));
        return (out, 0);
    }
    let t = trim_chars(&c);
    if t.len() == 0 {
        return (one_line("\x1b[37mNo command selected or explanation loaded yet.\x1b[0m"), 0);
    }
    let parsed = parse_json(content);
    match &parsed.error {
        Some(err) => {
            let mut l = String::new();
            push_str(&mut l, "\x1b[37m");
            push_str(&mut l, err.as_str());
            push_str(&mut l, "\x1b[0m");
            let mut v: Vec<String> = Vec::new();
            let ghost lv = l@;
            v.push(l);
            assert(str_views(v@) == seq![lv]);
            return (v, 0);
        },
        None => {},
    }
    if parsed.matches.len() == 0 {
        return (one_line("\x1b[37mNo explanation matches found.\x1b[0m"), 0);
    }
    let mut out: Vec<String> = Vec::new();
    match parsed.expanded_match_idx {
        Some(idx) => match find_match_with_index(&parsed.matches, idx) {
            Some(k) => {
                let max_scroll = push_expanded_lines(&mut out, &parsed.matches[k], rows, parsed.expanded_scroll, rendered);
                return (out, max_scroll);
            },
            None => {},
        },
        None => {},
    }
    push_list_lines(&mut out, &parsed.matches, parsed.active_match_idx, cols);
    (out, 0)
}

// ---------------------------------------------------------------------------
// Laws
// ---------------------------------------------------------------------------

/// A truncated line is one line (no line feed or carriage return) of at
/// most `max_len` characters, for a width of at least three.
pub proof fn law_truncated_line_fits(s: Seq<char>, max_len: usize)
    requires
        max_len >= 3,
    ensures
        truncated_line(s, max_len).len() <= max_len,
        forall|k: int| 0 <= k < truncated_line(s, max_len).len() ==> #[trigger] truncated_line(s, max_len)[k] != '\n'
            && truncated_line(s, max_len)[k] != '\r',
{
    reveal_strlit("...");
    let a = replace(s, seq!['\n'], seq![' ']);
    let flat = replace(a, seq!['\r'], seq![' ']);
    lemma_replace_excludes(s, seq!['\n'], seq![' '], 0, '\n');
    lemma_replace_excludes(a, seq!['\r'], seq![' '], 0, '\n');
    lemma_replace_excludes(a, seq!['\r'], seq![' '], 0, '\r');
    let t = truncated_line(s, max_len);
    if flat.len() > max_len {
        let head = flat.take(max_len - 3);
        assert(t == head + "..."@);
        assert forall|k: int| 0 <= k < t.len() implies #[trigger] t[k] != '\n' && t[k] != '\r' by {
            if k < head.len() {
                assert(t[k] == flat[k]);
            } else {
                assert(t[k] == ("..."@)[k - head.len()]);
            }
        }
    }
}

/// Cleaning an explanation a second time changes nothing.
pub proof fn law_clean_explanation_idempotent(s: Seq<char>)
    ensures
        cleaned_explanation(cleaned_explanation(s)) == cleaned_explanation(s),
{
    lemma_trim_trimmed(s);
    lemma_without_source_tags(trim(s));
    let c = cleaned_explanation(s);
    lemma_trim_trimmed(c);
}

/// Removing the source tags from a trimmed text leaves a trimmed text that
/// begins with no source tag.
proof fn lemma_without_source_tags(t: Seq<char>)
    requires
        trim(t) == t,
    ensures
        trim(without_source_tags(t)) == without_source_tags(t),
        source_tag_len(without_source_tags(t)) == 0 || source_tag_len(without_source_tags(t)) > without_source_tags(t).len(),
    decreases t.len(),
{
    let n = source_tag_len(t);
    if n > 0 && n <= t.len() {
        lemma_trim_len(t.skip(n));
        lemma_trim_trimmed(t.skip(n));
        lemma_without_source_tags(trim(t.skip(n)));
    }
}

/// Trimming a trimmed text changes nothing.
pub proof fn lemma_trim_trimmed(s: Seq<char>)
    ensures
        trim(trim(s)) == trim(s),
{
    let t = trim(s);
    lemma_trim(s);
    if t.len() > 0 {
        assert(trim_start(t) == t);
        assert(trim_end(t) == t);
    } else {
        assert(trim_start(t) == t);
    }
}

/// A command that an agent wrapped in `shopt ... (` and a closing
/// parenthesis, with nothing or only its exit-code bookkeeping after it (no
/// further parenthesis there), is given back trimmed.
pub proof fn law_unwrap_wrapped_command(c: Seq<char>, n: Seq<char>)
    requires
        forall|i: int| 0 <= i < n.len() ==> #[trigger] n[i] != ')',
        is_exit_noise(trim(n)),
    ensures
        unwrapped_command(shopt_prefix() + c + seq![')'] + n) == trim(c),
{
    reveal_strlit("shopt -u promptvars nullglob extglob nocaseglob dotglob; (");
    let p = shopt_prefix();
    let x = p + c + seq![')'];
    let s = x + n;
    assert(s[0] == 's');
    assert(trim_start(s) == s);
    crate::text::lemma_trim_end_concat(x, n);
    let n2 = trim_end(n);
    crate::text::lemma_trim_end_prefix(n);
    let t = x + n2;
    assert(trim(s) == t);
    assert(t.subrange(0, p.len() as int) =~= p);
    assert(t.skip(p.len() as int) =~= c + (seq![')'] + n2));
    crate::text::lemma_trim_start_concat(c, seq![')'] + n2);
    let ts = trim_start(c);
    let c2 = ts + (seq![')'] + n2);
    let idx = ts.len() as int;
    assert(c2[idx] == ')');
    assert forall|j: int| idx < j < c2.len() implies #[trigger] c2[j] != ')' by {
        assert(c2[j] == n2[j - idx - 1]);
        assert(n2[j - idx - 1] == n.take(n2.len() as int)[j - idx - 1]);
    }
    crate::text::lemma_rfind_char_at(c2, ')', c2.len() as int, idx);
    assert(c2.skip(idx + 1) =~= n2);
    crate::text::lemma_trim_of_trim_end(n);
    assert(c2.take(idx) =~= ts);
}

proof fn lemma_first_line_no_angle(ls: Seq<Seq<char>>)
    requires
        forall|k: int| 0 <= k < ls.len() ==> crate::explainshell::no_angle(#[trigger] ls[k]),
    ensures
        first_description(ls) matches Some(t) ==> crate::explainshell::no_angle(t),
        first_nonblank(ls) matches Some(t) ==> crate::explainshell::no_angle(t),
    decreases ls.len(),
{
    if ls.len() > 0 {
        let r = ls.drop_first();
        assert forall|k: int| 0 <= k < r.len() implies crate::explainshell::no_angle(#[trigger] r[k]) by {
            assert(r[k] == ls[k + 1]);
        }
        lemma_first_line_no_angle(r);
        assert(crate::explainshell::no_angle(ls[0]));
        crate::explainshell::lemma_trim_no_angle(ls[0]);
    }
}

/// The description shown for a match: no `<` or `>` in it.
pub proof fn lemma_description_no_angle(explanation: Seq<char>, max_len: usize)
    ensures
        crate::explainshell::no_angle(
            truncated_line(description_line(stripped_html(cleaned_explanation(explanation))), max_len),
        ),
{
    let t = stripped_html(cleaned_explanation(explanation));
    crate::explainshell::law_stripped_html_has_no_tags(cleaned_explanation(explanation));
    crate::explainshell::lemma_lines_no_angle(t, 0);
    lemma_first_line_no_angle(lines(t));
    let d = description_line(t);
    assert(crate::explainshell::no_angle(d));
    lemma_replace_excludes(d, seq!['\n'], seq![' '], 0, '<');
    lemma_replace_excludes(d, seq!['\n'], seq![' '], 0, '>');
    let a = replace(d, seq!['\n'], seq![' ']);
    lemma_replace_excludes(a, seq!['\r'], seq![' '], 0, '<');
    lemma_replace_excludes(a, seq!['\r'], seq![' '], 0, '>');
    let flat = flattened(d);
    assert(crate::explainshell::no_angle(flat));
    reveal_strlit("...");
    let r = truncated_line(d, max_len);
    if flat.len() > max_len {
        let n = if max_len >= 3 {
            max_len - 3
        } else {
            0
        };
        assert forall|k: int| 0 <= k < r.len() implies #[trigger] r[k] != '<' && r[k] != '>' by {
            if k < n {
                assert(r[k] == flat[k]);
            }
        }
    }
}

/// A line of the match list shows, after the marker, the source and its
/// padding, a description with its HTML tags removed: no `<` or `>` there.
pub proof fn law_list_line_has_no_tags(m: ParsedMatchView, max_src: int, active: Option<usize>, cols: u16)
    requires
        max_src >= m.1.len(),
    ensures
        ({
            let line = list_line(m, max_src, active, cols);
            let head = (if active == Some(m.0) {
                "\x1b[31;1m▸ "@
            } else {
                "\x1b[33m  "@
            }) + m.1 + repeat(" "@, (max_src - m.1.len()) as nat) + "\x1b[0m  \x1b[38;5;250m"@;
            &&& head.len() + 4 <= line.len()
            &&& forall|k: int| head.len() <= k < line.len() - 4 ==> #[trigger] line[k] != '<' && line[k] != '>'
        }),
{
    let avail = sat_sub(cols as int, max_src + 4);
    let desc = truncated_line(description_line(stripped_html(cleaned_explanation(m.2))), avail as usize);
    lemma_description_no_angle(m.2, avail as usize);
    let head = (if active == Some(m.0) {
        "\x1b[31;1m▸ "@
    } else {
        "\x1b[33m  "@
    }) + m.1 + repeat(" "@, (max_src - m.1.len()) as nat) + "\x1b[0m  \x1b[38;5;250m"@;
    reveal_strlit("\x1b[0m");
    let line = list_line(m, max_src, active, cols);
    assert(line =~= head + desc + "\x1b[0m"@);
    assert forall|k: int| head.len() <= k < line.len() - 4 implies #[trigger] line[k] != '<' && line[k] != '>' by {
        assert(line[k] == desc[k - head.len()]);
    }
}

} // verus!
