//! Reading back the JSON text of an explanation in the explanation pane.
use vstd::prelude::*;
use crate::explainshell::{escape_char, escaped};
use crate::text::{
    all_digits, digits_value, find, find_chars, find_chars_from, find_from, is_digit, is_whitespace,
    is_ws, lemma_find_from, occurs_at, opt_int, owned, parse_digits, replace, replace_str, slice_of, to_chars, to_string,
};

verus! {

/// One match as the pane reads it.
pub struct ParsedMatch {
    pub index: usize,
    pub source: String,
    pub explanation: String,
}

/// The explanation and selection state as the pane reads them.
pub struct ParsedJson {
    pub command: String,
    pub error: Option<String>,
    pub active_match_idx: Option<usize>,
    pub expanded_match_idx: Option<usize>,
    pub expanded_scroll: usize,
    pub matches: Vec<ParsedMatch>,
}

/// The view of a parsed match: (index, source, explanation).
pub type ParsedMatchView = (usize, Seq<char>, Seq<char>);

/// The view of a parsed explanation: (command, error, active match,
/// expanded match, scroll offset, matches).
pub type ParsedJsonView = (
    Seq<char>,
    Option<Seq<char>>,
    Option<usize>,
    Option<usize>,
    usize,
    Seq<ParsedMatchView>,
);

impl View for ParsedMatch {
    type V = ParsedMatchView;

    open spec fn view(&self) -> ParsedMatchView {
        (self.index, self.source@, self.explanation@)
    }
}

pub open spec fn parsed_match_views(v: Seq<ParsedMatch>) -> Seq<ParsedMatchView> {
    Seq::new(v.len(), |k: int| v[k]@)
}

impl View for ParsedJson {
    type V = ParsedJsonView;

    open spec fn view(&self) -> ParsedJsonView {
        (
            self.command@,
            match self.error {
                Some(e) => Some(e@),
                None => None,
            },
            self.active_match_idx,
            self.expanded_match_idx,
            self.expanded_scroll,
            parsed_match_views(self.matches@),
        )
    }
}

// ---------------------------------------------------------------------------
// Unescaping
// ---------------------------------------------------------------------------

/// What a backslash followed by `n` stands for.
pub open spec fn unescape_pair(n: char) -> Seq<char> {
    if n == '"' {
        seq!['"']
    } else if n == '\\' {
        seq!['\\']
    } else if n == 'n' {
        seq!['\n']
    } else if n == 'r' {
        seq!['\r']
    } else if n == 't' {
        seq!['\t']
    } else {
        seq!['\\', n]
    }
}

/// The text of a JSON string body: the five escapes resolved, any other
/// backslash pair kept, and a final lone backslash kept.
pub open spec fn unescaped(s: Seq<char>) -> Seq<char>
    decreases s.len(),
{
    if s.len() == 0 {
        Seq::empty()
    } else if s[0] == '\\' {
        if s.len() >= 2 {
            unescape_pair(s[1]) + unescaped(s.skip(2))
        } else {
            seq!['\\']
        }
    } else {
        seq![s[0]] + unescaped(s.drop_first())
    }
}

fn unescape_chars(s: &Vec<char>) -> (r: Vec<char>)
    ensures
        r@ == unescaped(s@),
{
    let mut out: Vec<char> = Vec::new();
    let mut i: usize = 0;
    assert(s@.skip(0) == s@);
    while i < s.len()
        invariant
            i <= s.len(),
            out@ + unescaped(s@.skip(i as int)) == unescaped(s@),
        decreases s.len() - i,
    {
        let c = s[i];
        let ghost o = out@;
        let ghost rest = s@.skip(i as int);
        if c == '\\' {
            if i + 1 < s.len() {
                let n = s[i + 1];
                if n == '"' {
                    out.push('"');
                } else if n == '\\' {
                    out.push('\\');
                } else if n == 'n' {
                    out.push('\n');
                } else if n == 'r' {
                    out.push('\r');
                } else if n == 't' {
                    out.push('\t');
                } else {
                    out.push('\\');
                    out.push(n);
                }
                assert(out@ == o + unescape_pair(n));
                assert(rest.skip(2) == s@.skip(i + 2));
                assert(o + unescaped(rest) == o + unescape_pair(n) + unescaped(s@.skip(i + 2)));
                i += 2;
            } else {
                out.push('\\');
                assert(s@.skip(i + 1) == Seq::<char>::empty());
                assert(out@ + unescaped(s@.skip(i + 1)) == out@);
                i += 1;
            }
        } else {
            out.push(c);
            assert(rest.drop_first() == s@.skip(i + 1));
            assert(o + unescaped(rest) == o.push(c) + unescaped(s@.skip(i + 1)));
            i += 1;
        }
    }
    assert(s@.skip(i as int) == Seq::<char>::empty());
    assert(out@ + Seq::<char>::empty() == out@);
    out
}

/// Resolves the JSON escapes `\"`, `\\`, `\n`, `\r` and `\t`; other
/// backslashes are kept as they are.
pub fn unescape_json(s: &str) -> (r: String)
    ensures
        r@ == unescaped(s@),
{
    let v = to_chars(s);
    let u = unescape_chars(&v);
    to_string(&u)
}

// ---------------------------------------------------------------------------
// Fields
// ---------------------------------------------------------------------------

/// The first position at or after `i` that is neither a colon nor white
/// space.
pub open spec fn skip_colon_ws(s: Seq<char>, i: int) -> int
    decreases s.len() - i,
{
    if 0 <= i < s.len() && (s[i] == ':' || is_ws(s[i])) {
        skip_colon_ws(s, i + 1)
    } else {
        i
    }
}

/// The end of the run of digits that starts at `i`.
pub open spec fn digits_end(s: Seq<char>, i: int) -> int
    decreases s.len() - i,
{
    if 0 <= i < s.len() && is_digit(s[i]) {
        digits_end(s, i + 1)
    } else {
        i
    }
}

/// The number after the first occurrence of `key`, past colons and white
/// space; `None` without digits there or above `usize::MAX`.
pub open spec fn usize_field(json: Seq<char>, key: Seq<char>) -> Option<usize> {
    match find(json, key) {
        None => None,
        Some(pos) => {
            let b = skip_colon_ws(json, pos + key.len());
            let e = digits_end(json, b);
            if e > b && digits_value(json.subrange(b, e)) <= usize::MAX {
                Some(digits_value(json.subrange(b, e)) as usize)
            } else {
                None
            }
        },
    }
}

/// The position of the first quote at or after `i` that no backslash
/// escapes.
pub open spec fn closing_quote(s: Seq<char>, i: int, escaped: bool) -> Option<int>
    decreases s.len() - i,
{
    if i < 0 || i >= s.len() {
        None
    } else if escaped {
        closing_quote(s, i + 1, false)
    } else if s[i] == '\\' {
        closing_quote(s, i + 1, true)
    } else if s[i] == '"' {
        Some(i)
    } else {
        closing_quote(s, i + 1, false)
    }
}

/// The unescaped string after the first occurrence of `key`: from the next
/// quote to the next quote that no backslash escapes.
pub open spec fn string_field(json: Seq<char>, key: Seq<char>) -> Option<Seq<char>> {
    match find(json, key) {
        None => None,
        Some(pos) => match find_from(json, seq!['"'], pos + key.len()) {
            None => None,
            Some(q) => match closing_quote(json, q + 1, false) {
                Some(e) => Some(unescaped(json.subrange(q + 1, e))),
                None => None,
            },
        },
    }
}

pub proof fn lemma_skip_colon_ws(s: Seq<char>, i: int)
    requires
        0 <= i <= s.len(),
    ensures
        i <= skip_colon_ws(s, i) <= s.len(),
    decreases s.len() - i,
{
    if 0 <= i < s.len() && (s[i] == ':' || is_ws(s[i])) {
        lemma_skip_colon_ws(s, i + 1);
    }
}

pub proof fn lemma_digits_end(s: Seq<char>, i: int)
    requires
        0 <= i <= s.len(),
    ensures
        i <= digits_end(s, i) <= s.len(),
        forall|k: int| i <= k < digits_end(s, i) ==> is_digit(#[trigger] s[k]),
    decreases s.len() - i,
{
    if 0 <= i < s.len() && is_digit(s[i]) {
        lemma_digits_end(s, i + 1);
    }
}

pub proof fn lemma_closing_quote(s: Seq<char>, i: int, escaped: bool)
    ensures
        closing_quote(s, i, escaped) matches Some(e) ==> 0 <= i <= e < s.len(),
    decreases s.len() - i,
{
    if i < 0 || i >= s.len() {
    } else if escaped {
        lemma_closing_quote(s, i + 1, false);
    } else if s[i] == '\\' {
        lemma_closing_quote(s, i + 1, true);
    } else if s[i] == '"' {
    } else {
        lemma_closing_quote(s, i + 1, false);
    }
}

fn usize_field_chars(json: &Vec<char>, key: &Vec<char>) -> (r: Option<usize>)
    ensures
        r == usize_field(json@, key@),
{
    match find_chars(json, key) {
        None => None,
        Some(pos) => {
            proof {
                lemma_find_from(json@, key@, 0);
                assert(find(json@, key@) == Some(pos as int));
                assert(pos + key.len() <= json.len());
            }
            let mut b = pos + key.len();
            while b < json.len() && (json[b] == ':' || is_whitespace(json[b]))
                invariant
                    pos + key.len() <= b <= json.len(),
                    skip_colon_ws(json@, pos + key.len()) == skip_colon_ws(json@, b as int),
                decreases json.len() - b,
            {
                b += 1;
            }
            let mut e = b;
            while e < json.len() && '0' <= json[e] && json[e] <= '9'
                invariant
                    b <= e <= json.len(),
                    digits_end(json@, b as int) == digits_end(json@, e as int),
                decreases json.len() - e,
            {
                e += 1;
            }
            if e > b {
                proof {
                    lemma_digits_end(json@, b as int);
                }
                let d = slice_of(json, b, e);
                assert(all_digits(d@));
                parse_digits(&d)
            } else {
                None
            }
        },
    }
}

fn string_field_chars(json: &Vec<char>, key: &Vec<char>) -> (r: Option<Vec<char>>)
    ensures
        match r {
            Some(v) => string_field(json@, key@) == Some(v@),
            None => string_field(json@, key@) is None,
        },
{
    match find_chars(json, key) {
        None => None,
        Some(pos) => {
            proof {
                lemma_find_from(json@, key@, 0);
                assert(find(json@, key@) == Some(pos as int));
                assert(pos + key.len() <= json.len());
            }
            let quote = vec!['"'];
            assert(quote@ == seq!['"']);
            match find_chars_from(json, &quote, pos + key.len()) {
                None => None,
                Some(q) => {
                    proof {
                        lemma_find_from(json@, quote@, pos + key.len());
                        assert(find_from(json@, quote@, pos + key.len()) == Some(q as int));
                        assert(q + 1 <= json.len());
                    }
                    let start = q + 1;
                    let mut escaped = false;
                    let mut i = start;
                    while i < json.len()
                        invariant
                            start <= i <= json.len(),
                            start == q + 1,
                            find(json@, key@) == Some(pos as int),
                            find_from(json@, seq!['"'], pos + key.len()) == Some(q as int),
                            closing_quote(json@, start as int, false) == closing_quote(json@, i as int, escaped),
                        decreases json.len() - i,
                    {
                        let c = json[i];
                        if escaped {
                            escaped = false;
                        } else if c == '\\' {
                            escaped = true;
                        } else if c == '"' {
                            let raw = slice_of(json, start, i);
                            assert(closing_quote(json@, start as int, false) == Some(i as int));
                            assert(string_field(json@, key@) == Some(unescaped(raw@)));
                            return Some(unescape_chars(&raw));
                        }
                        i += 1;
                    }
                    None
                },
            }
        },
    }
}

/// The number after the first occurrence of `key` in `json`.
pub fn parse_usize_field(json: &str, key: &str) -> (r: Option<usize>)
    ensures
        r == usize_field(json@, key@),
{
    let j = to_chars(json);
    let k = to_chars(key);
    usize_field_chars(&j, &k)
}

/// The string after the first occurrence of `key` in `json`, unescaped.
pub fn parse_string_field(json: &str, key: &str) -> (r: Option<String>)
    ensures
        match r {
            Some(v) => string_field(json@, key@) == Some(v@),
            None => string_field(json@, key@) is None,
        },
{
    let j = to_chars(json);
    let k = to_chars(key);
    match string_field_chars(&j, &k) {
        Some(v) => Some(to_string(&v)),
        None => None,
    }
}

// ---------------------------------------------------------------------------
// Matches
// ---------------------------------------------------------------------------

/// The position of the brace that closes the object scanned from `i`, with
/// the current brace depth, whether the scan is inside a string, and whether
/// the previous character was an escaping backslash there.
pub open spec fn object_end(s: Seq<char>, i: int, depth: int, in_string: bool, escaped: bool) -> Option<int>
    decreases s.len() - i,
{
    if i < 0 || i >= s.len() {
        None
    } else if in_string {
        if escaped {
            object_end(s, i + 1, depth, true, false)
        } else if s[i] == '\\' {
            object_end(s, i + 1, depth, true, true)
        } else if s[i] == '"' {
            object_end(s, i + 1, depth, false, false)
        } else {
            object_end(s, i + 1, depth, true, false)
        }
    } else if s[i] == '"' {
        object_end(s, i + 1, depth, true, escaped)
    } else if s[i] == '{' {
        object_end(s, i + 1, depth + 1, false, escaped)
    } else if s[i] == '}' {
        if depth - 1 == 0 {
            Some(i)
        } else {
            object_end(s, i + 1, depth - 1, false, escaped)
        }
    } else {
        object_end(s, i + 1, depth, false, escaped)
    }
}

pub proof fn lemma_object_end(s: Seq<char>, i: int, depth: int, in_string: bool, escaped: bool)
    ensures
        object_end(s, i, depth, in_string, escaped) matches Some(e) ==> 0 <= i <= e < s.len(),
    decreases s.len() - i,
{
    if i < 0 || i >= s.len() {
    } else if in_string {
        if escaped {
            lemma_object_end(s, i + 1, depth, true, false);
        } else if s[i] == '\\' {
            lemma_object_end(s, i + 1, depth, true, true);
        } else if s[i] == '"' {
            lemma_object_end(s, i + 1, depth, false, false);
        } else {
            lemma_object_end(s, i + 1, depth, true, false);
        }
    } else if s[i] == '"' {
        lemma_object_end(s, i + 1, depth, true, escaped);
    } else if s[i] == '{' {
        lemma_object_end(s, i + 1, depth + 1, false, escaped);
    } else if s[i] == '}' {
        if depth - 1 != 0 {
            lemma_object_end(s, i + 1, depth - 1, false, escaped);
        }
    } else {
        lemma_object_end(s, i + 1, depth, false, escaped);
    }
}

/// The match that one JSON object describes; a missing index reads as 0 and
/// a missing text as empty.
pub open spec fn object_match(obj: Seq<char>) -> ParsedMatchView {
    (
        match usize_field(obj, "\"index\""@) {
            Some(v) => v,
            None => 0,
        },
        match string_field(obj, "\"source\""@) {
            Some(v) => v,
            None => Seq::empty(),
        },
        match string_field(obj, "\"explanation\""@) {
            Some(v) => v,
            None => Seq::empty(),
        },
    )
}

/// The matches of the objects from position `i` on, up to the first object
/// that is not closed.
pub open spec fn matches_from(s: Seq<char>, i: int) -> Seq<ParsedMatchView>
    decreases s.len() - i,
{
    match find_from(s, seq!['{'], i) {
        None => Seq::empty(),
        Some(os) => match object_end(s, os, 0, false, false) {
            None => Seq::empty(),
            Some(e) => {
                proof {
                    lemma_find_from(s, seq!['{'], i);
                    lemma_object_end(s, os, 0, false, false);
                }
                seq![object_match(s.subrange(os, e + 1))] + matches_from(s, e + 1)
            },
        },
    }
}

/// The matches of the array after `"matches":`.
pub open spec fn parsed_matches(json: Seq<char>) -> Seq<ParsedMatchView> {
    match find(json, "\"matches\":"@) {
        None => Seq::empty(),
        Some(ms) => match find_from(json, seq!['['], ms) {
            None => Seq::empty(),
            Some(a) => matches_from(json, a + 1),
        },
    }
}

fn object_end_index(s: &Vec<char>, os: usize) -> (r: Option<usize>)
    requires
        os < s.len(),
        s@[os as int] == '{',
    ensures
        opt_int(r) == object_end(s@, os as int, 0, false, false),
{
    let mut depth: usize = 1;
    let mut in_string = false;
    let mut escaped = false;
    let mut i = os + 1;
    while i < s.len()
        invariant
            os < i <= s.len(),
            1 <= depth <= i - os,
            object_end(s@, os as int, 0, false, false) == object_end(s@, i as int, depth as int, in_string, escaped),
        decreases s.len() - i,
    {
        let c = s[i];
        if in_string {
            if escaped {
                escaped = false;
            } else if c == '\\' {
                escaped = true;
            } else if c == '"' {
                in_string = false;
            }
        } else {
            if c == '"' {
                in_string = true;
            } else if c == '{' {
                depth += 1;
            } else if c == '}' {
                if depth == 1 {
                    return Some(i);
                }
                depth -= 1;
            }
        }
        i += 1;
    }
    None
}

fn object_match_of(obj: &Vec<char>) -> (m: ParsedMatch)
    ensures
        m@ == object_match(obj@),
{
    let index_key = to_chars("\"index\"");
    let source_key = to_chars("\"source\"");
    let explanation_key = to_chars("\"explanation\"");
    let index = match usize_field_chars(obj, &index_key) {
        Some(v) => v,
        None => 0,
    };
    let source = match string_field_chars(obj, &source_key) {
        Some(v) => to_string(&v),
        None => String::new(),
    };
    let explanation = match string_field_chars(obj, &explanation_key) {
        Some(v) => to_string(&v),
        None => String::new(),
    };
    ParsedMatch { index, source, explanation }
}

fn parse_matches_chars(json: &Vec<char>) -> (r: Vec<ParsedMatch>)
    ensures
        parsed_match_views(r@) == parsed_matches(json@),
{
    let mut matches: Vec<ParsedMatch> = Vec::new();
    let key = to_chars("\"matches\":");
    let open_bracket = vec!['['];
    let open_brace = vec!['{'];
    assert(open_bracket@ == seq!['[']);
    assert(open_brace@ == seq!['{']);
    assert(parsed_match_views(matches@) == Seq::<ParsedMatchView>::empty());
    match find_chars(json, &key) {
        None => matches,
        Some(ms) => match find_chars_from(json, &open_bracket, ms) {
            None => matches,
            Some(a) => {
                proof {
                    lemma_find_from(json@, open_bracket@, ms as int);
                    assert(find_from(json@, open_bracket@, ms as int) == Some(a as int));
                    assert(a + 1 <= json.len());
                }
                let mut i = a + 1;
                assert(matches_from(json@, (json.len() + 1) as int) == Seq::<ParsedMatchView>::empty());
                while i <= json.len()
                    invariant
                        a + 1 <= i <= json.len() + 1,
                        open_brace@ == seq!['{'],
                        parsed_match_views(matches@) + matches_from(json@, i as int) == matches_from(json@, a + 1),
                    ensures
                        parsed_match_views(matches@) == matches_from(json@, a + 1),
                    decreases json.len() + 1 - i,
                {
                    let ghost mv = parsed_match_views(matches@);
                    match find_chars_from(json, &open_brace, i) {
                        None => {
                            assert(mv + Seq::<ParsedMatchView>::empty() == mv);
                            break;
                        },
                        Some(os) => {
                            proof {
                                lemma_find_from(json@, open_brace@, i as int);
                                assert(find_from(json@, open_brace@, i as int) == Some(os as int));
                                assert(occurs_at(json@, open_brace@, os as int));
                                assert(json@.subrange(os as int, os + 1)[0] == json@[os as int]);
                            }
                            match object_end_index(json, os) {
                                None => {
                                    assert(mv + Seq::<ParsedMatchView>::empty() == mv);
                                    break;
                                },
                                Some(e) => {
                                    proof {
                                        lemma_object_end(json@, os as int, 0, false, false);
                                    }
                                    let obj = slice_of(json, os, e + 1);
                                    let m = object_match_of(&obj);
                                    let ghost mview = m@;
                                    matches.push(m);
                                    assert(parsed_match_views(matches@) == mv.push(mview));
                                    assert(mv.push(mview) + matches_from(json@, e + 1) == mv + (seq![mview] + matches_from(json@, e + 1)));
                                    i = e + 1;
                                },
                            }
                        },
                    }
                }
                matches
            },
        },
    }
}

/// The matches of the `"matches"` array: each object from `{` to its
/// closing `}` (braces inside strings not counted), read for its index,
/// source and explanation; the scan stops at the first object not closed.
pub fn parse_matches(json: &str) -> (r: Vec<ParsedMatch>)
    ensures
        parsed_match_views(r@) == parsed_matches(json@),
{
    let j = to_chars(json);
    parse_matches_chars(&j)
}

/// The JSON text without the escape codes that mark the active match.
pub open spec fn without_highlight(json: Seq<char>) -> Seq<char> {
    replace(replace(json, "\x1b[31;1m"@, ""@), "\x1b[0m"@, ""@)
}

/// What the pane reads from a JSON text.
pub open spec fn parsed_json(json: Seq<char>) -> ParsedJsonView {
    let c = without_highlight(json);
    (
        match string_field(c, "\"command\""@) {
            Some(v) => v,
            None => Seq::empty(),
        },
        string_field(c, "\"error\""@),
        usize_field(c, "\"active_match_idx\""@),
        usize_field(c, "\"expanded_match_idx\""@),
        match usize_field(c, "\"expanded_scroll\""@) {
            Some(v) => v,
            None => 0,
        },
        parsed_matches(c),
    )
}

/// Reads the explanation pane's JSON text: with the highlight codes
/// removed, the command, error, active and expanded match indices, scroll
/// offset (0 when missing) and matches.
pub fn parse_json(json: &str) -> (r: ParsedJson)
    ensures
        r@ == parsed_json(json@),
{
    proof {
        reveal_strlit("\x1b[31;1m");
        reveal_strlit("\x1b[0m");
    }
    let j = to_chars(json);
    let a = replace_str(&j, "\x1b[31;1m", "");
    let c = replace_str(&a, "\x1b[0m", "");
    let command = match string_field_chars(&c, &to_chars("\"command\"")) {
        Some(v) => to_string(&v),
        None => String::new(),
    };
    let error = match string_field_chars(&c, &to_chars("\"error\"")) {
        Some(v) => Some(to_string(&v)),
        None => None,
    };
    let active_match_idx = usize_field_chars(&c, &to_chars("\"active_match_idx\""));
    let expanded_match_idx = usize_field_chars(&c, &to_chars("\"expanded_match_idx\""));
    let expanded_scroll = match usize_field_chars(&c, &to_chars("\"expanded_scroll\"")) {
        Some(v) => v,
        None => 0,
    };
    let matches = parse_matches_chars(&c);
    ParsedJson { command, error, active_match_idx, expanded_match_idx, expanded_scroll, matches }
}

// ---------------------------------------------------------------------------
// Laws
// ---------------------------------------------------------------------------

/// Unescaping gives back what escaping was given: the explanation pane
/// reads every text that the command list wrote as it was.
pub proof fn law_unescape_escape(s: Seq<char>)
    ensures
        unescaped(escaped(s)) == s,
    decreases s.len(),
{
    if s.len() > 0 {
        let c = s[0];
        let rest = s.drop_first();
        law_unescape_escape(rest);
        let e = escaped(s);
        assert(e == escape_char(c) + escaped(rest));
        if c == '"' || c == '\\' || c == '\n' || c == '\r' || c == '\t' {
            assert(e[0] == '\\');
            assert(e.skip(2) == escaped(rest));
            assert(unescape_pair(e[1]) == seq![c]);
        } else {
            assert(e[0] == c);
            assert(e.drop_first() == escaped(rest));
        }
        assert(s == seq![c] + rest);
    }
}

} // verus!
