//! The texts that start the panes: shell quoting, the shell wrappers that
//! log an agent's commands, the tmux commands and scripts, and the
//! explainshell addresses.
use vstd::prelude::*;
use crate::explainshell::{url_encode, url_encoded};
use crate::text::{
    occurs_at, replace_from, decimal, parse_unsigned, parse_unsigned_chars, push_chars, push_decimal, push_str, replace,
    replace_str, to_chars, trim, trim_chars,
};

verus! {

// ---------------------------------------------------------------------------
// Shell quoting
// ---------------------------------------------------------------------------

/// A text in single quotes, each single quote in it written `'\''`.
pub open spec fn single_quoted(s: Seq<char>) -> Seq<char> {
    seq!['\''] + replace(s, seq!['\''], "'\\''"@) + seq!['\'']
}

/// Single-quotes a shell argument so that the shell reads it back as the
/// same text.
pub fn sq(s: &str) -> (r: String)
    ensures
        r@ == single_quoted(s@),
{
    let v = to_chars(s);
    let quote = vec!['\''];
    assert(quote@ == seq!['\'']);
    let escaped = crate::text::replace_chars(&v, &quote, &to_chars("'\\''"));
    let mut out = String::new();
    out.push('\'');
    push_chars(&mut out, &escaped);
    out.push('\'');
    out
}

fn push_sq(out: &mut String, s: &str)
    ensures
        final(out)@ == old(out)@ + single_quoted(s@),
{
    let q = sq(s);
    push_str(out, q.as_str());
}

// ---------------------------------------------------------------------------
// The real shells
// ---------------------------------------------------------------------------

/// The directories where a real shell is looked for, in order: /bin and
/// /usr/bin only.
pub open spec fn shell_dirs() -> Seq<Seq<char>> {
    seq!["/bin"@, "/usr/bin"@]
}

/// A path below a directory, as `Path::join` writes it on Unix: an
/// absolute name stands alone; a relative one follows the directory, with a
/// slash between them unless the directory is empty or ends with one.
pub open spec fn joined_path(dir: Seq<char>, name: Seq<char>) -> Seq<char> {
    if name.len() > 0 && name[0] == '/' {
        name
    } else if dir.len() == 0 || dir.last() == '/' {
        dir + name
    } else {
        dir + seq!['/'] + name
    }
}

fn shell_dir(i: usize) -> (r: &'static str)
    requires
        i < 2,
    ensures
        r@ == shell_dirs()[i as int],
{
    if i == 0 {
        "/bin"
    } else {
        "/usr/bin"
    }
}

fn joined(dir: &str, name: &str) -> (r: String)
    ensures
        r@ == joined_path(dir@, name@),
{
    let v = to_chars(name);
    let d = to_chars(dir);
    let mut out = String::new();
    if v.len() > 0 && v[0] == '/' {
        push_chars(&mut out, &v);
    } else {
        push_chars(&mut out, &d);
        if !(d.len() == 0 || d[d.len() - 1] == '/') {
            out.push('/');
        }
        push_chars(&mut out, &v);
    }
    out
}

/// The paths where the real shell `name` may be, in the order they are
/// tried.
pub fn shell_candidates(name: &str) -> (r: Vec<String>)
    ensures
        r.len() == shell_dirs().len(),
        forall|i: int| 0 <= i < r.len() ==> #[trigger] r[i]@ == joined_path(shell_dirs()[i], name@),
{
    let mut r: Vec<String> = Vec::new();
    let mut i: usize = 0;
    while i < 2
        invariant
            i <= 2,
            r.len() == i,
            forall|k: int| 0 <= k < i ==> #[trigger] r[k]@ == joined_path(shell_dirs()[k], name@),
        decreases 2 - i,
    {
        r.push(joined(shell_dir(i), name));
        i += 1;
    }
    r
}

/// The first of `n` candidates, from `i` on, that `present` marks as
/// existing (a missing entry counts as no).
pub open spec fn first_present(present: Seq<bool>, n: int, i: int) -> Option<int>
    decreases n - i,
{
    if i < 0 || i >= n {
        None
    } else if i < present.len() && present[i] {
        Some(i)
    } else {
        first_present(present, n, i + 1)
    }
}

/// The path of the real shell: the first candidate that exists, or `/bin/`
/// and the name when none does.
pub open spec fn real_shell_path(name: Seq<char>, present: Seq<bool>) -> Seq<char> {
    match first_present(present, shell_dirs().len() as int, 0) {
        Some(i) => joined_path(shell_dirs()[i], name),
        None => "/bin/"@ + name,
    }
}

/// The path of the real shell `name`, where `present[i]` tells whether the
/// `i`th of its candidates exists (a missing entry counts as no).
pub fn real_shell(name: &str, present: &Vec<bool>) -> (r: String)
    ensures
        r@ == real_shell_path(name@, present@),
{
    let mut i: usize = 0;
    while i < 2
        invariant
            i <= 2,
            first_present(present@, 2, 0) == first_present(present@, 2, i as int),
        decreases 2 - i,
    {
        if i < present.len() && present[i] {
            return joined(shell_dir(i), name);
        }
        i += 1;
    }
    let mut out = String::new();
    push_str(&mut out, "/bin/");
    push_str(&mut out, name);
    out
}

/// Where a checkout of explainshell is looked for below the home
/// directory, in order.
pub open spec fn explainshell_subdirs() -> Seq<Seq<char>> {
    seq!["scratch/explainshell"@, "explainshell"@, "projects/explainshell"@]
}

fn explainshell_subdir(i: usize) -> (r: &'static str)
    requires
        i < 3,
    ensures
        r@ == explainshell_subdirs()[i as int],
{
    if i == 0 {
        "scratch/explainshell"
    } else if i == 1 {
        "explainshell"
    } else {
        "projects/explainshell"
    }
}

/// The directories below `home` where a checkout of explainshell may be, in
/// the order they are tried.
pub fn explainshell_candidates(home: &str) -> (r: Vec<String>)
    ensures
        r.len() == explainshell_subdirs().len(),
        forall|i: int| 0 <= i < r.len() ==> #[trigger] r[i]@ == joined_path(home@, explainshell_subdirs()[i]),
{
    let mut r: Vec<String> = Vec::new();
    let mut i: usize = 0;
    while i < 3
        invariant
            i <= 3,
            r.len() == i,
            forall|k: int| 0 <= k < i ==> #[trigger] r[k]@ == joined_path(home@, explainshell_subdirs()[k]),
        decreases 3 - i,
    {
        r.push(joined(home, explainshell_subdir(i)));
        i += 1;
    }
    r
}

/// The checkout of explainshell: the first candidate below `home` that
/// `present` marks as holding the server script (a missing entry counts as
/// no), or none.
pub fn explainshell_dir(home: &str, present: &Vec<bool>) -> (r: Option<String>)
    ensures
        match first_present(present@, explainshell_subdirs().len() as int, 0) {
            Some(i) => r matches Some(d) && d@ == joined_path(home@, explainshell_subdirs()[i]),
            None => r is None,
        },
{
    let mut i: usize = 0;
    while i < 3
        invariant
            i <= 3,
            first_present(present@, 3, 0) == first_present(present@, 3, i as int),
        decreases 3 - i,
    {
        if i < present.len() && present[i] {
            return Some(joined(home, explainshell_subdir(i)));
        }
        i += 1;
    }
    None
}

// ---------------------------------------------------------------------------
// Shell wrappers
// ---------------------------------------------------------------------------

/// The script that stands in for a shell: for `-c` with a command it logs
/// the command (line feeds as spaces) with the process id, runs the real
/// shell, logs the exit status and exits with it; otherwise it runs the
/// shell in its place.
pub open spec fn wrapper_text(real_shell: Seq<char>, trace: Seq<char>) -> Seq<char> {
    "#!/bin/sh\nif [ \"$1\" = \"-c\" ] && [ -n \"$2\" ]; then\n  PID=$$\n  CMD=$(printf '%s' \"$2\" | tr '\\n' ' ')\n  printf 'START\\t%d\\t%s\\n' \"$PID\" \"$CMD\" >> "@
        + single_quoted(trace) + " 2>/dev/null\n  "@ + single_quoted(real_shell)
        + " \"$@\"\n  STATUS=$?\n  printf 'END\\t%d\\t%d\\n' \"$PID\" \"$STATUS\" >> "@ + single_quoted(trace)
        + " 2>/dev/null\n  exit $STATUS\nelse\n  exec "@ + single_quoted(real_shell) + " \"$@\"\nfi\n"@
}

/// The wrapper script for the shell at `real_shell` that logs to `trace`.
pub fn wrapper_script(real_shell: &str, trace: &str) -> (r: String)
    ensures
        r@ == wrapper_text(real_shell@, trace@),
{
    let mut out = String::new();
    push_str(
        &mut out,
        "#!/bin/sh\nif [ \"$1\" = \"-c\" ] && [ -n \"$2\" ]; then\n  PID=$$\n  CMD=$(printf '%s' \"$2\" | tr '\\n' ' ')\n  printf 'START\\t%d\\t%s\\n' \"$PID\" \"$CMD\" >> ",
    );
    push_sq(&mut out, trace);
    push_str(&mut out, " 2>/dev/null\n  ");
    push_sq(&mut out, real_shell);
    push_str(&mut out, " \"$@\"\n  STATUS=$?\n  printf 'END\\t%d\\t%d\\n' \"$PID\" \"$STATUS\" >> ");
    push_sq(&mut out, trace);
    push_str(&mut out, " 2>/dev/null\n  exit $STATUS\nelse\n  exec ");
    push_sq(&mut out, real_shell);
    push_str(&mut out, " \"$@\"\nfi\n");
    out
}

// ---------------------------------------------------------------------------
// tmux
// ---------------------------------------------------------------------------

/// The command of the command-list pane.
pub open spec fn watch_list_text(flw: Seq<char>, trace: Seq<char>, json: Seq<char>) -> Seq<char> {
    single_quoted(flw) + " --watch-list "@ + single_quoted(trace) + " "@ + single_quoted(json)
}

/// The command of the command-list pane.
pub fn watch_list_command(flw: &str, trace: &str, json: &str) -> (r: String)
    ensures
        r@ == watch_list_text(flw@, trace@, json@),
{
    let mut out = String::new();
    push_sq(&mut out, flw);
    push_str(&mut out, " --watch-list ");
    push_sq(&mut out, trace);
    push_str(&mut out, " ");
    push_sq(&mut out, json);
    out
}

/// The command of the explanation pane.
pub open spec fn watch_json_text(flw: Seq<char>, json: Seq<char>, raw_json: bool) -> Seq<char> {
    if raw_json {
        single_quoted(flw) + " --watch-json --raw-json "@ + single_quoted(json)
    } else {
        single_quoted(flw) + " --watch-json "@ + single_quoted(json)
    }
}

/// The command of the explanation pane.
pub fn watch_json_command(flw: &str, json: &str, raw_json: bool) -> (r: String)
    ensures
        r@ == watch_json_text(flw@, json@, raw_json),
{
    let mut out = String::new();
    push_sq(&mut out, flw);
    if raw_json {
        push_str(&mut out, " --watch-json --raw-json ");
    } else {
        push_str(&mut out, " --watch-json ");
    }
    push_sq(&mut out, json);
    out
}

/// What runs after the agent exits: the key unbound, the session's files
/// removed, and the window closed.
pub open spec fn cleanup_text(key: Seq<char>, wrapper_dir: Seq<char>, trace: Seq<char>, json: Seq<char>, toggle: Seq<char>) -> Seq<char> {
    "; tmux unbind-key -n "@ + single_quoted(key) + " 2>/dev/null; rm -rf "@ + single_quoted(wrapper_dir) + " "@
        + single_quoted(trace) + " "@ + single_quoted(json) + " "@ + single_quoted(toggle)
        + "; tmux kill-window -t \"$TMUX_PANE\" 2>/dev/null || tmux kill-window 2>/dev/null"@
}

/// What runs after the agent exits.
pub fn cleanup_command(key: &str, wrapper_dir: &str, trace: &str, json: &str, toggle: &str) -> (r: String)
    ensures
        r@ == cleanup_text(key@, wrapper_dir@, trace@, json@, toggle@),
{
    let mut out = String::new();
    push_str(&mut out, "; tmux unbind-key -n ");
    push_sq(&mut out, key);
    push_str(&mut out, " 2>/dev/null; rm -rf ");
    push_sq(&mut out, wrapper_dir);
    push_str(&mut out, " ");
    push_sq(&mut out, trace);
    push_str(&mut out, " ");
    push_sq(&mut out, json);
    push_str(&mut out, " ");
    push_sq(&mut out, toggle);
    push_str(&mut out, "; tmux kill-window -t \"$TMUX_PANE\" 2>/dev/null || tmux kill-window 2>/dev/null");
    out
}

/// Each extra argument after a space, single-quoted.
pub open spec fn quoted_args(args: Seq<Seq<char>>) -> Seq<char>
    decreases args.len(),
{
    if args.len() == 0 {
        Seq::empty()
    } else {
        quoted_args(args.drop_last()) + " "@ + single_quoted(args.last())
    }
}

/// The agent's pane: the agent with the wrapper directory first on `PATH`,
/// its extra arguments, and the clean-up after it.
pub open spec fn agent_text(wrapper_dir: Seq<char>, agent: Seq<char>, args: Seq<Seq<char>>, cleanup: Seq<char>) -> Seq<char> {
    "PATH="@ + single_quoted(wrapper_dir) + ":$PATH "@ + single_quoted(agent) + quoted_args(args) + cleanup
}

/// The agent's pane command.
pub fn agent_command(wrapper_dir: &str, agent: &str, args: &Vec<String>, cleanup: &str) -> (r: String)
    ensures
        r@ == agent_text(wrapper_dir@, agent@, crate::display::str_views(args@), cleanup@),
{
    let ghost av = crate::display::str_views(args@);
    let mut out = String::new();
    push_str(&mut out, "PATH=");
    push_sq(&mut out, wrapper_dir);
    push_str(&mut out, ":$PATH ");
    push_sq(&mut out, agent);
    let ghost base = out@;
    let mut k: usize = 0;
    assert(av.take(0) == Seq::<Seq<char>>::empty());
    while k < args.len()
        invariant
            k <= args.len(),
            av == crate::display::str_views(args@),
            out@ == base + quoted_args(av.take(k as int)),
        decreases args.len() - k,
    {
        assert(av.take(k + 1).drop_last() == av.take(k as int));
        assert(av.take(k + 1).last() == args@[k as int]@);
        push_str(&mut out, " ");
        push_sq(&mut out, args[k].as_str());
        k += 1;
    }
    assert(av.take(args.len() as int) == av);
    push_str(&mut out, cleanup);
    out
}

/// The script behind the toggle key: in the agent's window, it opens the
/// two panes beside the agent when the agent is alone, and closes them
/// otherwise.
pub open spec fn toggle_text(window: Seq<char>, pane: Seq<char>, right_top: Seq<char>, right_bottom: Seq<char>) -> Seq<char> {
    "#!/bin/sh\nactive_window=$(tmux display-message -p '#{window_id}')\nif [ \"$active_window\" != "@
        + single_quoted(window) + " ]; then\nexit 0\nfi\nnum_panes=$(tmux list-panes -t "@ + single_quoted(pane)
        + " | wc -l)\nif [ \"$num_panes\" -eq 1 ]; then\nright_pane=$(tmux split-window -h -P -F \"#{pane_id}\" -t "@
        + single_quoted(pane) + " "@ + single_quoted(right_top)
        + ")\nif [ -n \"$right_pane\" ]; then\ntmux split-window -v -l 62% -d -t \"$right_pane\" "@
        + single_quoted(right_bottom) + "\nfi\nelse\ntmux kill-pane -a -t "@ + single_quoted(pane) + "\nfi\n"@
}

/// The toggle script.
pub fn toggle_script(window: &str, pane: &str, right_top: &str, right_bottom: &str) -> (r: String)
    ensures
        r@ == toggle_text(window@, pane@, right_top@, right_bottom@),
{
    let mut out = String::new();
    push_str(&mut out, "#!/bin/sh\nactive_window=$(tmux display-message -p '#{window_id}')\nif [ \"$active_window\" != ");
    push_sq(&mut out, window);
    push_str(&mut out, " ]; then\nexit 0\nfi\nnum_panes=$(tmux list-panes -t ");
    push_sq(&mut out, pane);
    push_str(&mut out, " | wc -l)\nif [ \"$num_panes\" -eq 1 ]; then\nright_pane=$(tmux split-window -h -P -F \"#{pane_id}\" -t ");
    push_sq(&mut out, pane);
    push_str(&mut out, " ");
    push_sq(&mut out, right_top);
    push_str(&mut out, ")\nif [ -n \"$right_pane\" ]; then\ntmux split-window -v -l 62% -d -t \"$right_pane\" ");
    push_sq(&mut out, right_bottom);
    push_str(&mut out, "\nfi\nelse\ntmux kill-pane -a -t ");
    push_sq(&mut out, pane);
    push_str(&mut out, "\nfi\n");
    out
}

// ---------------------------------------------------------------------------
// explainshell
// ---------------------------------------------------------------------------

/// The port of the local explainshell: the environment's value when it
/// reads as a port number, else 5000.
pub open spec fn port_of(value: Option<Seq<char>>) -> u16 {
    match value {
        Some(v) => match parse_unsigned(v, 65535) {
            Some(p) => p as u16,
            None => 5000,
        },
        None => 5000,
    }
}

/// The port of the local explainshell, from the value of
/// `EXPLAINSHELL_PORT` if it is set.
pub fn explainshell_port(value: Option<&str>) -> (p: u16)
    ensures
        p == port_of(
            match value {
                Some(v) => Some(v@),
                None => None,
            },
        ),
{
    match value {
        Some(v) => {
            let c = to_chars(v);
            match parse_unsigned_chars(&c, 65535) {
                Some(p) => p as u16,
                None => 5000,
            }
        },
        None => 5000,
    }
}

/// The largest scroll offset that the explanation pane wrote, if its text
/// reads as a number.
pub open spec fn max_scroll_of(content: Seq<char>) -> Option<nat> {
    parse_unsigned(trim(content), usize::MAX as nat)
}

/// Reads the largest scroll offset that the explanation pane wrote.
pub fn parse_max_scroll(content: &str) -> (r: Option<usize>)
    ensures
        match r {
            Some(v) => max_scroll_of(content@) == Some(v as nat),
            None => max_scroll_of(content@) is None,
        },
{
    let c = to_chars(content);
    let t = trim_chars(&c);
    parse_unsigned_chars(&t, usize::MAX)
}

/// The address of a command's explanation on the local explainshell.
pub open spec fn local_url(port: u16, cmd: Seq<char>) -> Seq<char> {
    "http://localhost:"@ + decimal(port as nat) + "/explain?cmd="@ + url_encoded(vstd::utf8::encode_utf8(cmd))
}

/// The address of a command's explanation on explainshell.com.
pub open spec fn remote_url(cmd: Seq<char>) -> Seq<char> {
    "https://explainshell.com/explain?cmd="@ + url_encoded(vstd::utf8::encode_utf8(cmd))
}

/// The address of a command's explanation on the local explainshell.
pub fn local_explain_url(port: u16, cmd: &str) -> (r: String)
    ensures
        r@ == local_url(port, cmd@),
{
    let mut out = String::new();
    push_str(&mut out, "http://localhost:");
    push_decimal(&mut out, port as u64);
    push_str(&mut out, "/explain?cmd=");
    let e = url_encode(cmd);
    push_str(&mut out, e.as_str());
    out
}

/// The address of a command's explanation on explainshell.com.
pub fn remote_explain_url(cmd: &str) -> (r: String)
    ensures
        r@ == remote_url(cmd@),
{
    let mut out = String::new();
    push_str(&mut out, "https://explainshell.com/explain?cmd=");
    let e = url_encode(cmd);
    push_str(&mut out, e.as_str());
    out
}

// ---------------------------------------------------------------------------
// Laws
// ---------------------------------------------------------------------------

pub open spec fn prepend(c: char, o: Option<Seq<char>>) -> Option<Seq<char>> {
    match o {
        Some(t) => Some(seq![c] + t),
        None => None,
    }
}

/// How a POSIX shell reads one word made of single-quoted parts,
/// backslash-escaped characters and other characters, inside a single
/// quote or not; `None` for an unclosed quote.
pub open spec fn shell_word(w: Seq<char>, in_quote: bool) -> Option<Seq<char>>
    decreases w.len(),
{
    if w.len() == 0 {
        if in_quote {
            None
        } else {
            Some(Seq::empty())
        }
    } else if in_quote {
        if w[0] == '\'' {
            shell_word(w.drop_first(), false)
        } else {
            prepend(w[0], shell_word(w.drop_first(), true))
        }
    } else if w[0] == '\'' {
        shell_word(w.drop_first(), true)
    } else if w[0] == '\\' && w.len() >= 2 {
        prepend(w[1], shell_word(w.skip(2), false))
    } else {
        prepend(w[0], shell_word(w.drop_first(), false))
    }
}

proof fn lemma_quoted_body(s: Seq<char>, i: int)
    requires
        0 <= i <= s.len(),
    ensures
        shell_word(replace_from(s, seq!['\''], "'\\''"@, i) + seq!['\''], true) == Some(s.skip(i)),
    decreases s.len() - i,
{
    reveal_strlit("'\\''");
    let body = replace_from(s, seq!['\''], "'\\''"@, i);
    let w = body + seq!['\''];
    if i == s.len() {
        assert(body == Seq::<char>::empty());
        assert(w == seq!['\'']);
        assert(w.drop_first() == Seq::<char>::empty());
        assert(shell_word(w, true) == shell_word(w.drop_first(), false));
        assert(s.skip(i) == Seq::<char>::empty());
    } else {
        lemma_quoted_body(s, i + 1);
        let rest = replace_from(s, seq!['\''], "'\\''"@, i + 1) + seq!['\''];
        if s[i] == '\'' {
            assert(s.subrange(i, i + 1) == seq!['\'']);
            assert(occurs_at(s, seq!['\''], i));
            assert(body == "'\\''"@ + replace_from(s, seq!['\''], "'\\''"@, i + 1));
            let w1 = w.drop_first();
            assert(w1[0] == '\\');
            assert(w1[1] == '\'');
            let w3 = w1.skip(2);
            assert(w3[0] == '\'');
            assert(w3.drop_first() == rest);
            assert(shell_word(w3, false) == shell_word(rest, true));
            assert(shell_word(w1, false) == prepend('\'', shell_word(w3, false)));
            assert(shell_word(w, true) == shell_word(w1, false));
        } else {
            assert(s.subrange(i, i + 1)[0] == s[i]);
            assert(!occurs_at(s, seq!['\''], i));
            assert(body == seq![s[i]] + replace_from(s, seq!['\''], "'\\''"@, i + 1));
            assert(w[0] == s[i]);
            assert(w.drop_first() == rest);
            assert(shell_word(w, true) == prepend(s[i], shell_word(rest, true)));
        }
        assert(s.skip(i) == seq![s[i]] + s.skip(i + 1));
    }
}

/// A single-quoted argument reads back, in the shell, as the text that was
/// quoted.
pub proof fn law_single_quoted_reads_back(s: Seq<char>)
    ensures
        shell_word(single_quoted(s), false) == Some(s),
{
    lemma_quoted_body(s, 0);
    let w = single_quoted(s);
    assert(w.drop_first() == replace_from(s, seq!['\''], "'\\''"@, 0) + seq!['\'']);
    assert(s.skip(0) == s);
}

// ---------------------------------------------------------------------------
// What tmux prints
// ---------------------------------------------------------------------------

/// The first position at or after `i` that is not white space.
pub open spec fn skip_white(s: Seq<char>, i: int) -> int
    decreases s.len() - i,
{
    if 0 <= i < s.len() && crate::text::is_ws(s[i]) {
        skip_white(s, i + 1)
    } else {
        i
    }
}

/// The end of the run of characters other than white space from `i`.
pub open spec fn word_end(s: Seq<char>, i: int) -> int
    decreases s.len() - i,
{
    if 0 <= i < s.len() && !crate::text::is_ws(s[i]) {
        word_end(s, i + 1)
    } else {
        i
    }
}

pub proof fn lemma_skip_white(s: Seq<char>, i: int)
    requires
        0 <= i <= s.len(),
    ensures
        i <= skip_white(s, i) <= s.len(),
        skip_white(s, i) < s.len() ==> !crate::text::is_ws(s[skip_white(s, i)]),
    decreases s.len() - i,
{
    if i < s.len() && crate::text::is_ws(s[i]) {
        lemma_skip_white(s, i + 1);
    }
}

pub proof fn lemma_word_end(s: Seq<char>, i: int)
    requires
        0 <= i <= s.len(),
    ensures
        i <= word_end(s, i) <= s.len(),
        i < s.len() && !crate::text::is_ws(s[i]) ==> i < word_end(s, i),
    decreases s.len() - i,
{
    if i < s.len() && !crate::text::is_ws(s[i]) {
        lemma_word_end(s, i + 1);
    }
}

/// The words of `s` from position `i` on: the runs of characters other than
/// white space (`str::split_whitespace`).
pub open spec fn words_from(s: Seq<char>, i: int) -> Seq<Seq<char>>
    decreases s.len() - i,
{
    if i < 0 || i > s.len() {
        Seq::empty()
    } else {
        let b = skip_white(s, i);
        if b >= s.len() {
            Seq::empty()
        } else {
            let e = word_end(s, b);
            proof {
                lemma_skip_white(s, i);
                lemma_word_end(s, b);
            }
            seq![s.subrange(b, e)] + words_from(s, e)
        }
    }
}

/// The pane and the window that tmux printed: the first two words of its
/// output, `%0` and `@0` where a word is missing.
pub open spec fn pane_and_window_of(output: Seq<char>) -> (Seq<char>, Seq<char>) {
    let w = words_from(output, 0);
    (if w.len() > 0 {
        w[0]
    } else {
        "%0"@
    }, if w.len() > 1 {
        w[1]
    } else {
        "@0"@
    })
}

fn skip_white_index(v: &Vec<char>, i: usize) -> (r: usize)
    requires
        i <= v.len(),
    ensures
        r as int == skip_white(v@, i as int),
{
    let mut j = i;
    while j < v.len() && crate::text::is_whitespace(v[j])
        invariant
            i <= j <= v.len(),
            skip_white(v@, i as int) == skip_white(v@, j as int),
        decreases v.len() - j,
    {
        j += 1;
    }
    j
}

fn word_end_index(v: &Vec<char>, i: usize) -> (r: usize)
    requires
        i <= v.len(),
    ensures
        r as int == word_end(v@, i as int),
{
    let mut j = i;
    while j < v.len() && !crate::text::is_whitespace(v[j])
        invariant
            i <= j <= v.len(),
            word_end(v@, i as int) == word_end(v@, j as int),
        decreases v.len() - j,
    {
        j += 1;
    }
    j
}

/// Reads the pane and the window that tmux printed for a new pane.
pub fn pane_and_window(output: &str) -> (r: (String, String))
    ensures
        (r.0@, r.1@) == pane_and_window_of(output@),
{
    let v = to_chars(output);
    let ghost s = v@;
    let b0 = skip_white_index(&v, 0);
    proof {
        lemma_skip_white(s, 0);
    }
    if b0 >= v.len() {
        assert(words_from(s, 0).len() == 0);
        return (owned_text("%0"), owned_text("@0"));
    }
    let e0 = word_end_index(&v, b0);
    proof {
        lemma_word_end(s, b0 as int);
    }
    let first = crate::text::to_string(&crate::text::slice_of(&v, b0, e0));
    let b1 = skip_white_index(&v, e0);
    proof {
        lemma_skip_white(s, e0 as int);
    }
    assert(words_from(s, 0) == seq![s.subrange(b0 as int, e0 as int)] + words_from(s, e0 as int));
    if b1 >= v.len() {
        assert(words_from(s, e0 as int).len() == 0);
        return (first, owned_text("@0"));
    }
    let e1 = word_end_index(&v, b1);
    proof {
        lemma_word_end(s, b1 as int);
    }
    assert(words_from(s, e0 as int) == seq![s.subrange(b1 as int, e1 as int)] + words_from(s, e1 as int));
    let second = crate::text::to_string(&crate::text::slice_of(&v, b1, e1));
    (first, second)
}

fn owned_text(t: &str) -> (r: String)
    ensures
        r@ == t@,
{
    crate::text::owned(t)
}

} // verus!
